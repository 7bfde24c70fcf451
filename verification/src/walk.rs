//! The traversal engine: a worklist of directories still to be read and the
//! set of directories already read.
//!
//! The engine reads no directory itself. A driver takes the next directory
//! with [`Walk::next`], reads it by whatever means it has, and hands the
//! listing to [`Walk::expand`], which says which children are matches and
//! puts the subdirectories to descend into at the front of the worklist.
//! New directories go to the front one by one, so the directory listed last
//! is read first and the walk as a whole runs depth first.

use crate::config::{ConfigView, SearchConfig};
use crate::text::{contains_seq, name_contains, texts};
use std::collections::VecDeque;
use vstd::hash_set::StringHashSet;
use vstd::prelude::*;
use vstd::string::*;

verus! {

broadcast use vstd::seq_lib::group_seq_properties;

/// One child of a directory, as a listing reports it.
#[derive(Debug, PartialEq, Eq)]
pub struct Entry {
    /// The child's full path.
    pub path: String,
    /// The last component of the path: the name that is matched.
    pub name: String,
    /// Whether the child is a directory.
    pub is_dir: bool,
}

/// An [`Entry`] as plain mathematical values.
pub struct EntryView {
    pub path: Seq<char>,
    pub name: Seq<char>,
    pub is_dir: bool,
}

impl View for Entry {
    type V = EntryView;

    open spec fn view(&self) -> EntryView {
        EntryView { path: self.path@, name: self.name@, is_dir: self.is_dir }
    }
}

/// What reading one directory gave.
#[derive(Debug, PartialEq, Eq)]
pub enum Listing {
    /// The directory's children, in the order in which they were reported.
    Entries(Vec<Entry>),
    /// The directory could not be read.
    Failed,
}

impl View for Listing {
    type V = Option<Seq<EntryView>>;

    open spec fn view(&self) -> Option<Seq<EntryView>> {
        match self {
            Listing::Entries(entries) => Some(entry_views(entries@)),
            Listing::Failed => None,
        }
    }
}

/// The views of a sequence of entries.
pub open spec fn entry_views(entries: Seq<Entry>) -> Seq<EntryView> {
    entries.map_values(|e: Entry| e@)
}

/// The state of a walk: the worklist, front first, and the directories
/// whose children have been enumerated.
pub struct WalkView {
    pub queue: Seq<Seq<char>>,
    pub visited: Set<Seq<char>>,
}

/// Whether a child is put on the worklist: recursion is on, the child is a
/// directory, and it has not been expanded yet.
pub open spec fn descends(recursive: bool, visited: Set<Seq<char>>, e: EntryView) -> bool {
    recursive && e.is_dir && !visited.contains(e.path)
}

/// Whether a child is reported: it is not put on the worklist, and its name
/// contains the query. A child is never both queued and reported.
pub open spec fn reports(
    recursive: bool,
    visited: Set<Seq<char>>,
    query: Seq<char>,
    e: EntryView,
) -> bool {
    !descends(recursive, visited, e) && contains_seq(e.name, query)
}

/// [`descends`] as a predicate on entries.
pub open spec fn descends_pred(recursive: bool, visited: Set<Seq<char>>) -> spec_fn(
    EntryView,
) -> bool {
    |e: EntryView| descends(recursive, visited, e)
}

/// [`reports`] as a predicate on entries.
pub open spec fn reports_pred(
    recursive: bool,
    visited: Set<Seq<char>>,
    query: Seq<char>,
) -> spec_fn(EntryView) -> bool {
    |e: EntryView| reports(recursive, visited, query, e)
}

/// The path of an entry.
pub open spec fn path_of() -> spec_fn(EntryView) -> Seq<char> {
    |e: EntryView| e.path
}

/// The paths of the entries that satisfy `pred`, in listing order.
pub open spec fn picked(entries: Seq<EntryView>, pred: spec_fn(EntryView) -> bool) -> Seq<
    Seq<char>,
> {
    entries.filter(pred).map_values(path_of())
}

/// Entry `i` of `entries` satisfies `pred` and has the path `path`.
pub open spec fn picks(
    entries: Seq<EntryView>,
    pred: spec_fn(EntryView) -> bool,
    i: int,
    path: Seq<char>,
) -> bool {
    0 <= i < entries.len() && pred(entries[i]) && entries[i].path == path
}

/// No two entries of a listing have the same path.
pub open spec fn distinct_paths(entries: Seq<EntryView>) -> bool {
    forall|i: int, j: int|
        0 <= i < j < entries.len() ==> (#[trigger] entries[i]).path != (#[trigger] entries[j]).path
}

/// The paths that one listing puts on the worklist, in listing order.
pub open spec fn queued(
    entries: Seq<EntryView>,
    recursive: bool,
    visited: Set<Seq<char>>,
) -> Seq<Seq<char>> {
    picked(entries, descends_pred(recursive, visited))
}

/// The paths that one listing reports as matches, in listing order.
pub open spec fn emitted(
    entries: Seq<EntryView>,
    recursive: bool,
    visited: Set<Seq<char>>,
    query: Seq<char>,
) -> Seq<Seq<char>> {
    picked(entries, reports_pred(recursive, visited, query))
}

/// The state after the listing of `current` has been processed in state `s`,
/// where `current` has already been taken off the worklist.
///
/// A listing that was read puts its subdirectories in front of the worklist,
/// the last one first, and marks `current` as expanded. A directory that
/// could not be read changes nothing: its subtree is skipped.
pub open spec fn absorbed(
    s: WalkView,
    cfg: ConfigView,
    current: Seq<char>,
    listing: Option<Seq<EntryView>>,
) -> WalkView {
    match listing {
        Some(entries) => WalkView {
            queue: queued(entries, cfg.recursive, s.visited).reverse() + s.queue,
            visited: s.visited.insert(current),
        },
        None => s,
    }
}

/// The matches that processing a listing in state `s` reports, in order.
pub open spec fn found(s: WalkView, cfg: ConfigView, listing: Option<Seq<EntryView>>) -> Seq<
    Seq<char>,
> {
    match listing {
        Some(entries) => emitted(entries, cfg.recursive, s.visited, cfg.query),
        None => Seq::empty(),
    }
}

/// A walk in progress.
pub struct Walk {
    queue: VecDeque<String>,
    visited: StringHashSet,
}

impl View for Walk {
    type V = WalkView;

    closed spec fn view(&self) -> WalkView {
        WalkView { queue: texts(self.queue@), visited: self.visited@ }
    }
}

/// Reading one more entry of a listing adds its path to the picked paths
/// when the entry satisfies the predicate, and adds nothing otherwise.
pub proof fn lemma_picked_step(entries: Seq<EntryView>, pred: spec_fn(EntryView) -> bool, i: int)
    requires
        0 <= i < entries.len(),
    ensures
        picked(entries.take(i + 1), pred) == if pred(entries[i]) {
            picked(entries.take(i), pred).push(entries[i].path)
        } else {
            picked(entries.take(i), pred)
        },
{
    assert(entries.take(i + 1) =~= entries.take(i).push(entries[i]));
    entries.take(i).lemma_filter_push(entries[i], pred);
    let kept = entries.take(i).filter(pred);
    if pred(entries[i]) {
        assert(kept.push(entries[i]).map_values(path_of()) =~= kept.map_values(path_of()).push(
            entries[i].path,
        ));
    }
}

/// A path is picked exactly when some entry with that path satisfies the
/// predicate, and a listing with distinct paths picks no path twice.
pub proof fn lemma_picked_members(entries: Seq<EntryView>, pred: spec_fn(EntryView) -> bool)
    ensures
        forall|path: Seq<char>|
            picked(entries, pred).contains(path) <==> exists|i: int|
                picks(entries, pred, i, path),
        distinct_paths(entries) ==> picked(entries, pred).no_duplicates(),
    decreases entries.len(),
{
    if entries.len() == 0 {
        assert(picked(entries, pred) =~= Seq::<Seq<char>>::empty());
    } else {
        let init = entries.drop_last();
        let last = entries.last();
        let n = init.len() as int;
        lemma_picked_members(init, pred);
        assert(entries.take(n) =~= init);
        assert(entries.take(n + 1) =~= entries);
        lemma_picked_step(entries, pred, n);
        let before = picked(init, pred);
        let after = picked(entries, pred);
        assert forall|path: Seq<char>| after.contains(path) <==> exists|i: int|
            picks(entries, pred, i, path) by {
            if after.contains(path) {
                if before.contains(path) {
                    let i = choose|i: int| picks(init, pred, i, path);
                    assert(picks(entries, pred, i, path));
                } else {
                    assert(pred(last) && last.path == path);
                    assert(picks(entries, pred, n, path));
                }
            }
            if exists|i: int| picks(entries, pred, i, path) {
                let i = choose|i: int| picks(entries, pred, i, path);
                if i < n {
                    assert(picks(init, pred, i, path));
                    assert(before.contains(path));
                } else {
                    assert(after == before.push(path));
                    assert(after[before.len() as int] == path);
                }
            }
        }
        if distinct_paths(entries) {
            assert(distinct_paths(init)) by {
                assert forall|i: int, j: int| 0 <= i < j < init.len() implies (
                #[trigger] init[i]).path != (#[trigger] init[j]).path by {
                    assert(init[i] == entries[i] && init[j] == entries[j]);
                }
            }
            if pred(last) {
                if before.contains(last.path) {
                    let i = choose|i: int| picks(init, pred, i, last.path);
                    assert(entries[i].path == entries[n].path);
                }
            }
        }
    }
}

impl Walk {
    /// A walk that has `root` alone on its worklist and has expanded nothing.
    pub fn new(root: String) -> (walk: Walk)
        ensures
            walk@ == (WalkView { queue: seq![root@], visited: Set::empty() }),
    {
        let mut queue: VecDeque<String> = VecDeque::new();
        queue.push_front(root);
        let walk = Walk { queue, visited: StringHashSet::new() };
        assert(texts(walk.queue@) =~= seq![root@]);
        walk
    }

    /// Whether the worklist is empty, which ends the walk.
    pub fn is_done(&self) -> (done: bool)
        ensures
            done == (self@.queue.len() == 0),
    {
        self.queue.len() == 0
    }

    /// The number of directories waiting on the worklist.
    pub fn pending(&self) -> (n: usize)
        ensures
            n == self@.queue.len(),
    {
        self.queue.len()
    }

    /// The number of directories expanded so far.
    pub fn visited_count(&self) -> (n: usize)
        ensures
            n == self@.visited.len(),
    {
        self.visited.len()
    }

    /// Whether `path` has been expanded.
    pub fn has_visited(&self, path: &str) -> (seen: bool)
        ensures
            seen == self@.visited.contains(path@),
    {
        self.visited.contains(path)
    }

    /// Takes the directory at the front of the worklist, or nothing when the
    /// worklist is empty.
    pub fn next(&mut self) -> (current: Option<String>)
        ensures
            match current {
                Some(path) => {
                    &&& old(self)@.queue.len() > 0
                    &&& path@ == old(self)@.queue[0]
                    &&& final(self)@ == (WalkView {
                        queue: old(self)@.queue.drop_first(),
                        visited: old(self)@.visited,
                    })
                },
                None => old(self)@.queue.len() == 0 && final(self)@ == old(self)@,
            },
    {
        let ghost before = self.queue@;
        let front = self.queue.pop_front();
        proof {
            if front is Some {
                assert(texts(self.queue@) =~= texts(before).drop_first());
            }
        }
        front
    }

    /// Processes the listing of `current`, a directory that [`Walk::next`]
    /// handed out, and returns the paths to report, in listing order.
    ///
    /// Each child that is a directory not yet expanded goes to the front of
    /// the worklist when recursion is on; every other child is reported when
    /// its name contains the query. Then `current` counts as expanded. A
    /// listing that failed leaves the walk as it is and reports nothing.
    pub fn expand(&mut self, config: &SearchConfig, current: String, listing: &Listing) -> (matches:
        Vec<String>)
        ensures
            final(self)@ == absorbed(old(self)@, config@, current@, listing@),
            texts(matches@) == found(old(self)@, config@, listing@),
    {
        let mut matches: Vec<String> = Vec::new();
        match listing {
            Listing::Failed => {
                assert(texts(matches@) =~= Seq::<Seq<char>>::empty());
                matches
            },
            Listing::Entries(entries) => {
                let ghost before = self@;
                let ghost all = entry_views(entries@);
                let recursive = config.recursive();
                let query = config.query();
                let mut i: usize = 0;
                assert(all.take(0) =~= Seq::<EntryView>::empty());
                assert(texts(matches@) =~= Seq::<Seq<char>>::empty());
                while i < entries.len()
                    invariant
                        i <= entries.len(),
                        all == entry_views(entries@),
                        recursive == config@.recursive,
                        query@ == config@.query,
                        self.visited@ == before.visited,
                        texts(self.queue@) == queued(
                            all.take(i as int),
                            recursive,
                            before.visited,
                        ).reverse() + before.queue,
                        texts(matches@) == emitted(
                            all.take(i as int),
                            recursive,
                            before.visited,
                            query@,
                        ),
                    decreases entries.len() - i,
                {
                    let entry = &entries[i];
                    proof {
                        assert(all[i as int] == entry@);
                        lemma_picked_step(all, descends_pred(recursive, before.visited), i as int);
                        lemma_picked_step(
                            all,
                            reports_pred(recursive, before.visited, query@),
                            i as int,
                        );
                    }
                    if recursive && entry.is_dir && !self.visited.contains(entry.path.as_str()) {
                        let ghost queue_before = self.queue@;
                        let ghost so_far = queued(all.take(i as int), recursive, before.visited);
                        self.queue.push_front(entry.path.clone());
                        assert(texts(self.queue@) =~= so_far.push(entry@.path).reverse()
                            + before.queue) by {
                            assert(texts(self.queue@) =~= seq![entry@.path] + texts(queue_before));
                            assert(so_far.push(entry@.path).reverse() =~= seq![entry@.path]
                                + so_far.reverse());
                        }
                    } else if name_contains(entry.name.as_str(), query) {
                        let ghost matches_before = matches@;
                        matches.push(entry.path.clone());
                        assert(texts(matches@) =~= texts(matches_before).push(entry@.path));
                    }
                    i += 1;
                }
                assert(all.take(i as int) =~= all);
                self.visited.insert(current);
                matches
            },
        }
    }
}

} // verus!
