//! A whole walk, as mathematics: the engine's steps applied to a filesystem
//! that is given as a map from each readable directory to its listing.
//!
//! One step is what a driver does in one turn of its loop: it takes the
//! front of the worklist with `Walk::next`, reads that directory, and hands
//! the listing to `Walk::expand`. The contracts of those two functions are
//! stated over the same functions that build a step here.

use crate::config::ConfigView;
use crate::text::contains_seq;
use crate::walk::{absorbed, found, EntryView, WalkView};
use vstd::prelude::*;

verus! {

/// What reading `dir` gives: its listing, or nothing when `dir` cannot be read.
pub open spec fn listing_of(fs: Map<Seq<char>, Seq<EntryView>>, dir: Seq<char>) -> Option<
    Seq<EntryView>,
> {
    if fs.dom().contains(dir) {
        Some(fs[dir])
    } else {
        None
    }
}

/// A walk together with its history: the directories taken off the
/// worklist so far and the matches reported so far, both in order.
pub struct Run {
    pub walk: WalkView,
    pub taken: Seq<Seq<char>>,
    pub output: Seq<Seq<char>>,
}

/// The run before its first step: `root` alone is waiting.
pub open spec fn start(root: Seq<char>) -> Run {
    Run {
        walk: WalkView { queue: seq![root], visited: Set::empty() },
        taken: Seq::empty(),
        output: Seq::empty(),
    }
}

/// One step: the front of the worklist is taken and its listing processed.
/// A run whose worklist is empty has ended and stays as it is.
pub open spec fn step(fs: Map<Seq<char>, Seq<EntryView>>, cfg: ConfigView, r: Run) -> Run {
    if r.walk.queue.len() == 0 {
        r
    } else {
        let current = r.walk.queue[0];
        let popped = WalkView { queue: r.walk.queue.drop_first(), visited: r.walk.visited };
        let listing = listing_of(fs, current);
        Run {
            walk: absorbed(popped, cfg, current, listing),
            taken: r.taken.push(current),
            output: r.output + found(popped, cfg, listing),
        }
    }
}

/// The run after `steps` steps from `root`.
pub open spec fn run(
    fs: Map<Seq<char>, Seq<EntryView>>,
    cfg: ConfigView,
    root: Seq<char>,
    steps: nat,
) -> Run
    decreases steps,
{
    if steps == 0 {
        start(root)
    } else {
        step(fs, cfg, run(fs, cfg, root, (steps - 1) as nat))
    }
}

/// Whether the run has ended: nothing is left on the worklist.
pub open spec fn ended(r: Run) -> bool {
    r.walk.queue.len() == 0
}

/// Whether a directory can be read, as a predicate on paths.
pub open spec fn readable(fs: Map<Seq<char>, Seq<EntryView>>) -> spec_fn(Seq<char>) -> bool {
    |dir: Seq<char>| fs.dom().contains(dir)
}

/// The directories whose children the run has enumerated, in order, each as
/// often as it was enumerated.
pub open spec fn expanded(fs: Map<Seq<char>, Seq<EntryView>>, r: Run) -> Seq<Seq<char>> {
    r.taken.filter(readable(fs))
}

/// Entry `i` of the listing of `dir` has the path `path`.
pub open spec fn lists(
    fs: Map<Seq<char>, Seq<EntryView>>,
    dir: Seq<char>,
    i: int,
    path: Seq<char>,
) -> bool {
    fs.dom().contains(dir) && 0 <= i < fs[dir].len() && fs[dir][i].path == path
}

/// The listing of `dir` holds a directory with the path `path`.
pub open spec fn links(fs: Map<Seq<char>, Seq<EntryView>>, dir: Seq<char>, path: Seq<char>) -> bool {
    exists|i: int| #[trigger] lists(fs, dir, i, path) && fs[dir][i].is_dir
}

/// The filesystem is a tree: no path is listed twice, neither within one
/// listing nor by two directories, and a child's path is longer than its
/// parent's, so that no directory lies below itself.
pub open spec fn is_tree(fs: Map<Seq<char>, Seq<EntryView>>) -> bool {
    &&& forall|d1: Seq<char>, i1: int, d2: Seq<char>, i2: int, path: Seq<char>|
        #[trigger] lists(fs, d1, i1, path) && #[trigger] lists(fs, d2, i2, path) ==> d1 == d2 && i1
            == i2
    &&& forall|dir: Seq<char>, i: int, path: Seq<char>| #[trigger]
        lists(fs, dir, i, path) ==> path.len() > dir.len()
}

/// `dir` lies exactly `depth` levels of directories below `root`. Below the
/// root itself nothing is reached unless recursion is on.
pub open spec fn reached_in(
    fs: Map<Seq<char>, Seq<EntryView>>,
    recursive: bool,
    root: Seq<char>,
    dir: Seq<char>,
    depth: nat,
) -> bool
    decreases depth,
{
    if depth == 0 {
        dir == root
    } else {
        recursive && exists|parent: Seq<char>|
            reached_in(fs, recursive, root, parent, (depth - 1) as nat) && #[trigger] links(
                fs,
                parent,
                dir,
            )
    }
}

/// `dir` is the root or a directory below it that the traversal policy descends to.
pub open spec fn reachable(
    fs: Map<Seq<char>, Seq<EntryView>>,
    recursive: bool,
    root: Seq<char>,
    dir: Seq<char>,
) -> bool {
    exists|depth: nat| reached_in(fs, recursive, root, dir, depth)
}

/// Whether an entry of a tree is a match: its name contains the query, and
/// it is not a directory that is descended into instead of being tested.
pub open spec fn hits(cfg: ConfigView, e: EntryView) -> bool {
    contains_seq(e.name, cfg.query) && !(cfg.recursive && e.is_dir)
}

/// `path` belongs to a match that the traversal policy reaches: an entry of
/// a readable, reachable directory whose name contains the query.
pub open spec fn expected(
    fs: Map<Seq<char>, Seq<EntryView>>,
    cfg: ConfigView,
    root: Seq<char>,
    path: Seq<char>,
) -> bool {
    exists|dir: Seq<char>, i: int|
        reachable(fs, cfg.recursive, root, dir) && #[trigger] lists(fs, dir, i, path) && hits(
            cfg,
            fs[dir][i],
        )
}

/// Every path that some listing of the filesystem holds.
pub open spec fn listed(fs: Map<Seq<char>, Seq<EntryView>>) -> Set<Seq<char>> {
    Set::new(|path: Seq<char>| exists|dir: Seq<char>, i: int| lists(fs, dir, i, path))
}

} // verus!
