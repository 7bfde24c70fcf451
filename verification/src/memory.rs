//! A filesystem held in memory, and a driver that runs a whole walk on it.
//!
//! The tree is a list of directories, each with its path and with what
//! reading it gives. A path that the list does not hold cannot be read. The
//! driver does what a driver on a real disk does, turn by turn, with the
//! listings looked up in the list instead of read from disk.

use crate::config::SearchConfig;
use crate::laws::{lemma_step_gets_closer, load, unread};
use crate::run::{ended, listing_of, run, start, step};
use crate::text::{same_text, texts};
use crate::walk::{EntryView, Listing, Walk};
use vstd::prelude::*;
use vstd::string::*;

verus! {

/// One directory of a tree in memory.
#[derive(Debug, PartialEq, Eq)]
pub struct Directory {
    /// The directory's full path.
    pub path: String,
    /// What reading the directory gives.
    pub listing: Listing,
}

/// A filesystem in memory. Where two directories have the same path, the
/// first one counts.
#[derive(Debug, PartialEq, Eq)]
pub struct MemoryTree {
    pub dirs: Vec<Directory>,
}

/// The filesystem that a list of directories stands for: each path whose
/// first directory in the list can be read, with that directory's listing.
pub open spec fn as_map(dirs: Seq<Directory>) -> Map<Seq<char>, Seq<EntryView>>
    decreases dirs.len(),
{
    if dirs.len() == 0 {
        Map::empty()
    } else {
        let later = as_map(dirs.drop_first());
        match dirs[0].listing@ {
            Some(entries) => later.insert(dirs[0].path@, entries),
            None => later.remove(dirs[0].path@),
        }
    }
}

impl View for MemoryTree {
    type V = Map<Seq<char>, Seq<EntryView>>;

    open spec fn view(&self) -> Map<Seq<char>, Seq<EntryView>> {
        as_map(self.dirs@)
    }
}

/// The outcome of a walk in memory.
#[derive(Debug, PartialEq, Eq)]
pub struct Search {
    /// The paths reported, in the order in which they were found.
    pub matches: Vec<String>,
    /// The directories taken off the worklist, in the order in which they
    /// were taken, whether or not they could be read.
    pub taken: Vec<String>,
}

/// A list of directories stands for a filesystem with finitely many
/// readable directories.
pub proof fn lemma_finitely_many_directories(dirs: Seq<Directory>)
    ensures
        as_map(dirs).dom().finite(),
    decreases dirs.len(),
{
    if dirs.len() > 0 {
        lemma_finitely_many_directories(dirs.drop_first());
    }
}

impl MemoryTree {
    /// Looks up what reading `path` gives; nothing when the tree has no
    /// directory with that path.
    pub fn read(&self, path: &str) -> (found: Option<&Listing>)
        ensures
            match found {
                Some(listing) => listing@ == listing_of(self@, path@),
                None => listing_of(self@, path@) is None,
            },
    {
        let mut i: usize = 0;
        assert(self.dirs@.skip(0) =~= self.dirs@);
        while i < self.dirs.len()
            invariant
                i <= self.dirs.len(),
                listing_of(as_map(self.dirs@), path@) == listing_of(
                    as_map(self.dirs@.skip(i as int)),
                    path@,
                ),
            decreases self.dirs.len() - i,
        {
            let dir = &self.dirs[i];
            proof {
                let here = self.dirs@.skip(i as int);
                assert(here[0] == *dir);
                assert(here.drop_first() =~= self.dirs@.skip(i + 1));
            }
            if same_text(dir.path.as_str(), path) {
                return Some(&dir.listing);
            }
            i += 1;
        }
        None
    }

    /// Walks the tree from `root` until the worklist is empty, and returns
    /// what was reported and which directories were taken on the way.
    ///
    /// The walk ends on every tree, also where a directory lists itself or
    /// is listed more than once.
    pub fn search(&self, config: &SearchConfig, root: String) -> (outcome: Search)
        ensures
            ended(run(self@, config@, root@, outcome.taken@.len())),
            texts(outcome.matches@) == run(self@, config@, root@, outcome.taken@.len()).output,
            texts(outcome.taken@) == run(self@, config@, root@, outcome.taken@.len()).taken,
    {
        let ghost from = root@;
        let ghost mut r = start(from);
        let mut walk = Walk::new(root);
        let mut matches: Vec<String> = Vec::new();
        let mut taken: Vec<String> = Vec::new();
        proof {
            lemma_finitely_many_directories(self.dirs@);
            assert(texts(matches@) =~= r.output);
            assert(texts(taken@) =~= r.taken);
        }
        loop
            invariant
                from == root@,
                self@.dom().finite(),
                r == run(self@, config@, from, taken@.len()),
                walk@ == r.walk,
                texts(matches@) == r.output,
                texts(taken@) == r.taken,
            decreases unread(self@, r).len(), load(self@, r.walk.visited, r.walk.queue),
        {
            match walk.next() {
                None => {
                    return Search { matches, taken };
                },
                Some(current) => {
                    let failed = Listing::Failed;
                    let listing = match self.read(current.as_str()) {
                        Some(listing) => listing,
                        None => &failed,
                    };
                    let ghost matches_before = matches@;
                    let ghost taken_before = taken@;
                    taken.push(current.clone());
                    let mut found = walk.expand(config, current, listing);
                    let ghost new = found@;
                    matches.append(&mut found);
                    proof {
                        assert(texts(matches@) =~= texts(matches_before) + texts(new));
                        assert(texts(taken@) =~= texts(taken_before).push(current@));
                        lemma_step_gets_closer(self@, config@, r);
                        assert(run(self@, config@, from, (taken_before.len() + 1) as nat) == step(
                            self@,
                            config@,
                            r,
                        ));
                        r = step(self@, config@, r);
                    }
                },
            }
        }
    }
}

} // verus!
