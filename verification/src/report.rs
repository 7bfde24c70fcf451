//! What the user is told, and the status the process ends with.

use crate::config::{ConfigError, Notice, NoticeView};
use vstd::prelude::*;
use vstd::string::*;

verus! {

/// How a run came to its end.
#[derive(Clone, Copy, Debug, PartialEq, Eq, Structural)]
pub enum Ending {
    /// The walk ran until the worklist was empty, with or without matches.
    Completed,
    /// A help text was asked for and shown.
    HelpShown,
    /// The arguments gave no valid configuration.
    ConfigRejected(ConfigError),
    /// No root could be chosen on this platform.
    UnsupportedPlatform,
    /// A match line could not be written.
    OutputWriteFailed,
}

/// The exit status for an ending: zero for a completed walk, for help and
/// for the clean stop on an unsupported platform, one for a rejected
/// configuration and for a failed write.
pub open spec fn status_of(ending: Ending) -> u8 {
    match ending {
        Ending::Completed => 0u8,
        Ending::HelpShown => 0u8,
        Ending::UnsupportedPlatform => 0u8,
        Ending::ConfigRejected(_) => 1u8,
        Ending::OutputWriteFailed => 1u8,
    }
}

/// The exit status of the process for the given ending.
pub fn exit_status(ending: Ending) -> (status: u8)
    ensures
        status == status_of(ending),
{
    match ending {
        Ending::Completed => 0,
        Ending::HelpShown => 0,
        Ending::UnsupportedPlatform => 0,
        Ending::ConfigRejected(_) => 1,
        Ending::OutputWriteFailed => 1,
    }
}

/// The message for a configuration error.
pub open spec fn config_error_text(error: ConfigError) -> Seq<char> {
    match error {
        ConfigError::MissingQuery => "No search term given"@,
        ConfigError::MissingOutputValue => "No value specified for --output"@,
    }
}

/// The message for a notice.
pub open spec fn notice_text(notice: NoticeView) -> Seq<char> {
    match notice {
        NoticeView::UnknownFlag(token) => "Unknown flag "@ + token,
        NoticeView::ExtraArgument(token) => "Only one search term allowed. Ignoring extra input "@
            + token,
    }
}

impl ConfigError {
    /// The message that tells the user what is wrong with the arguments.
    pub fn message(&self) -> (text: String)
        ensures
            text@ == config_error_text(*self),
    {
        match self {
            ConfigError::MissingQuery => "No search term given".to_owned(),
            ConfigError::MissingOutputValue => "No value specified for --output".to_owned(),
        }
    }
}

impl Notice {
    /// The message that tells the user what was skipped.
    pub fn message(&self) -> (text: String)
        ensures
            text@ == notice_text(self@),
    {
        match self {
            Notice::UnknownFlag(token) => "Unknown flag ".to_owned().concat(token.as_str()),
            Notice::ExtraArgument(token) => "Only one search term allowed. Ignoring extra input ".to_owned().concat(
                token.as_str(),
            ),
        }
    }
}

/// The message for a platform without a default root.
pub fn unsupported_platform_message() -> (text: String)
    ensures
        text@ == "Unsupported OS detected. Only Unix-like and Windows-like systems are supported"@,
{
    "Unsupported OS detected. Only Unix-like and Windows-like systems are supported".to_owned()
}

/// The message for a directory that could not be read and is skipped.
pub fn unreadable_directory_message(path: &str) -> (text: String)
    ensures
        text@ == "Skipping unreadable directory "@ + path@,
{
    "Skipping unreadable directory ".to_owned().concat(path)
}

/// The short usage summary.
pub fn short_help() -> (text: String)
    ensures
        text@ == "Usage: wheres [options]... <query>\nTry 'wheres --help' for more information."@,
{
    "Usage: wheres [options]... <query>\nTry 'wheres --help' for more information.".to_owned()
}

/// The full help text.
pub fn full_help() -> (text: String)
    ensures
        text@
            == "wheres [options]... <query>\n  -h                     short usage and exit\n  --help                 full help text and exit\n  -v, --verbose          enable verbose output\n  -r, --recursive=false  disable recursive descent\n  -o, --output <path>    write matches to file instead of stdout"@,
{
    "wheres [options]... <query>\n  -h                     short usage and exit\n  --help                 full help text and exit\n  -v, --verbose          enable verbose output\n  -r, --recursive=false  disable recursive descent\n  -o, --output <path>    write matches to file instead of stdout".to_owned()
}

} // verus!
