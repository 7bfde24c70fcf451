//! Where the walk starts: the home directory, or the platform's default root.

use crate::text::same_text;
use vstd::prelude::*;
use vstd::string::*;

verus! {

/// The family of operating systems that the process runs on.
#[derive(Clone, Copy, Debug, PartialEq, Eq, Structural)]
pub enum PlatformFamily {
    /// A Unix-like system, whose default root is `/`.
    Unix,
    /// A Windows-like system, whose default root is `C:\`.
    Windows,
    /// Anything else: there is no default root.
    Other,
}

/// No home directory is known and the platform has no default root.
#[derive(Clone, Copy, Debug, PartialEq, Eq, Structural)]
pub struct UnsupportedPlatform;

/// The family that a family name stands for.
pub open spec fn family_named(name: Seq<char>) -> PlatformFamily {
    if name == "unix"@ {
        PlatformFamily::Unix
    } else if name == "windows"@ {
        PlatformFamily::Windows
    } else {
        PlatformFamily::Other
    }
}

/// The root that a run starts from.
pub open spec fn root_for(home: Option<Seq<char>>, family: PlatformFamily) -> Result<
    Seq<char>,
    UnsupportedPlatform,
> {
    match home {
        Some(dir) => Ok(dir),
        None => match family {
            PlatformFamily::Unix => Ok("/"@),
            PlatformFamily::Windows => Ok("C:\\"@),
            PlatformFamily::Other => Err(UnsupportedPlatform),
        },
    }
}

impl PlatformFamily {
    /// Reads a family name as the standard library reports it: `unix`,
    /// `windows`, or something else.
    pub fn from_name(name: &str) -> (family: PlatformFamily)
        ensures
            family == family_named(name@),
    {
        if same_text(name, "unix") {
            PlatformFamily::Unix
        } else if same_text(name, "windows") {
            PlatformFamily::Windows
        } else {
            PlatformFamily::Other
        }
    }
}

/// Chooses the root of the walk: the home directory when there is one,
/// else the default root of the platform family, else nothing.
pub fn select_root(home: Option<String>, family: PlatformFamily) -> (root: Result<
    String,
    UnsupportedPlatform,
>)
    ensures
        match root_for(
            match home {
                Some(dir) => Some(dir@),
                None => None,
            },
            family,
        ) {
            Ok(path) => root matches Ok(chosen) && chosen@ == path,
            Err(e) => root == Err::<String, UnsupportedPlatform>(e),
        },
{
    match home {
        Some(dir) => Ok(dir),
        None => match family {
            PlatformFamily::Unix => Ok("/".to_owned()),
            PlatformFamily::Windows => Ok("C:\\".to_owned()),
            PlatformFamily::Other => Err(UnsupportedPlatform),
        },
    }
}

} // verus!
