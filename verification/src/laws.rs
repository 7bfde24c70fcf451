//! What holds of every run of the walk.

use crate::config::ConfigView;
use crate::run::{
    ended, expanded, expected, hits, is_tree, links, listed, listing_of, lists, reachable,
    reached_in, readable, run, start, step, Run,
};
use crate::seqs::{
    lemma_filter_members, lemma_front_and_rest, lemma_join_disjoint, lemma_push_fresh,
    lemma_reverse_members,
};
use crate::walk::{
    descends, descends_pred, distinct_paths, emitted, lemma_picked_members, picked, picks, queued,
    reports, reports_pred, EntryView,
};
use vstd::prelude::*;

verus! {

broadcast use vstd::seq_lib::group_seq_properties;

/// The run has seen `path`: it was taken off the worklist or waits on it.
spec fn known(r: Run, path: Seq<char>) -> bool {
    r.taken.contains(path) || r.walk.queue.contains(path)
}

/// A directory that was taken off the worklist lists `path` as a directory.
spec fn parented(
    fs: Map<Seq<char>, Seq<EntryView>>,
    cfg: ConfigView,
    r: Run,
    path: Seq<char>,
) -> bool {
    cfg.recursive && exists|dir: Seq<char>| r.taken.contains(dir) && #[trigger] links(fs, dir, path)
}

/// A directory that was taken off the worklist lists `path` as a match.
spec fn credited(
    fs: Map<Seq<char>, Seq<EntryView>>,
    cfg: ConfigView,
    r: Run,
    path: Seq<char>,
) -> bool {
    exists|dir: Seq<char>, i: int|
        r.taken.contains(dir) && #[trigger] lists(fs, dir, i, path) && hits(cfg, fs[dir][i])
}

/// What every run on a tree keeps: each directory is seen once, only
/// reachable directories are seen, every directory listed by one that was
/// read has been seen, and the output holds each match of the directories
/// that were read, once.
spec fn orderly(fs: Map<Seq<char>, Seq<EntryView>>, cfg: ConfigView, root: Seq<char>, r: Run) -> bool {
    &&& r.taken.no_duplicates()
    &&& r.walk.queue.no_duplicates()
    &&& forall|p: Seq<char>| !(#[trigger] r.taken.contains(p) && r.walk.queue.contains(p))
    &&& known(r, root)
    &&& forall|p: Seq<char>| #[trigger] known(r, p) ==> p.len() >= root.len()
    &&& forall|p: Seq<char>| #[trigger] known(r, p) ==> p == root || parented(fs, cfg, r, p)
    &&& forall|p: Seq<char>| #[trigger] known(r, p) ==> reachable(fs, cfg.recursive, root, p)
    &&& forall|p: Seq<char>| #[trigger] r.walk.visited.contains(p) ==> r.taken.contains(p)
    &&& forall|d: Seq<char>, p: Seq<char>|
        r.taken.contains(d) && cfg.recursive && #[trigger] links(fs, d, p) ==> known(r, p)
    &&& r.output.no_duplicates()
    &&& forall|p: Seq<char>| #[trigger] r.output.contains(p) <==> credited(fs, cfg, r, p)
}

proof fn lemma_start_is_orderly(fs: Map<Seq<char>, Seq<EntryView>>, cfg: ConfigView, root: Seq<char>)
    ensures
        orderly(fs, cfg, root, start(root)),
{
    let r = start(root);
    assert(r.walk.queue[0] == root);
    assert(known(r, root));
    assert(reached_in(fs, cfg.recursive, root, root, 0));
    assert forall|p: Seq<char>| #[trigger] known(r, p) implies p == root by {
        if r.walk.queue.contains(p) {
            let i = choose|i: int| 0 <= i < r.walk.queue.len() && r.walk.queue[i] == p;
        }
    }
}

/// On a tree, no child of the directory at the front of the worklist has been seen before.
proof fn lemma_children_are_new(
    fs: Map<Seq<char>, Seq<EntryView>>,
    cfg: ConfigView,
    root: Seq<char>,
    r: Run,
)
    requires
        is_tree(fs),
        orderly(fs, cfg, root, r),
        !ended(r),
        fs.dom().contains(r.walk.queue[0]),
    ensures
        forall|i: int|
            0 <= i < fs[r.walk.queue[0]].len() ==> !known(r, (#[trigger] fs[r.walk.queue[0]][i]).path),
        distinct_paths(fs[r.walk.queue[0]]),
{
    let current = r.walk.queue[0];
    let entries = fs[current];
    assert(r.walk.queue.contains(current));
    assert(known(r, current));
    assert forall|i: int| 0 <= i < entries.len() implies !known(r, (#[trigger] entries[i]).path) by {
        let p = entries[i].path;
        assert(lists(fs, current, i, p));
        if known(r, p) {
            assert(p.len() > current.len());
            assert(p != root);
            assert(parented(fs, cfg, r, p));
            let d = choose|d: Seq<char>| r.taken.contains(d) && #[trigger] links(fs, d, p);
            let k = choose|k: int| #[trigger] lists(fs, d, k, p) && fs[d][k].is_dir;
            assert(d == current);
            assert(false);
        }
    }
    assert forall|i: int, j: int| 0 <= i < j < entries.len() implies (#[trigger] entries[i]).path != (
    #[trigger] entries[j]).path by {
        assert(lists(fs, current, i, entries[i].path));
        assert(lists(fs, current, j, entries[j].path));
    }
}

/// A step from an orderly run on a tree gives an orderly run.
proof fn lemma_step_keeps_order(
    fs: Map<Seq<char>, Seq<EntryView>>,
    cfg: ConfigView,
    root: Seq<char>,
    r: Run,
)
    requires
        is_tree(fs),
        orderly(fs, cfg, root, r),
    ensures
        orderly(fs, cfg, root, step(fs, cfg, r)),
{
    if ended(r) {
        return ;
    }
    let current = r.walk.queue[0];
    let rest = r.walk.queue.drop_first();
    let r2 = step(fs, cfg, r);
    lemma_front_and_rest(r.walk.queue);
    assert(r.walk.queue.contains(current));
    assert(known(r, current));
    assert(!r.taken.contains(current));
    lemma_push_fresh(r.taken, current);
    assert(r2.taken == r.taken.push(current));
    assert(r2.taken.no_duplicates());
    assert forall|p: Seq<char>| known(r, p) implies #[trigger] known(r2, p) || (fs.dom().contains(
        current,
    ) && r2.walk.queue.contains(p)) by {
        if r.walk.queue.contains(p) && p != current {
            assert(rest.contains(p));
            if fs.dom().contains(current) {
                let q = queued(fs[current], cfg.recursive, r.walk.visited);
                assert(r2.walk.queue == q.reverse() + rest);
            }
        }
    }
    if !fs.dom().contains(current) {
        assert(r2.walk.queue == rest);
        assert(r2.walk.visited == r.walk.visited);
        assert(r2.output =~= r.output);
        assert forall|p: Seq<char>| #[trigger] known(r2, p) implies known(r, p) by {}
        assert forall|p: Seq<char>| #[trigger] known(r2, p) implies p == root || parented(
            fs,
            cfg,
            r2,
            p,
        ) by {
            assert(known(r, p));
            if p != root {
                let d = choose|d: Seq<char>| r.taken.contains(d) && #[trigger] links(fs, d, p);
                assert(r2.taken.contains(d));
            }
        }
        assert forall|d: Seq<char>, p: Seq<char>|
            r2.taken.contains(d) && cfg.recursive && #[trigger] links(fs, d, p) implies known(
            r2,
            p,
        ) by {
            let k = choose|k: int| #[trigger] lists(fs, d, k, p) && fs[d][k].is_dir;
            assert(d != current);
            assert(known(r, p));
        }
        assert forall|p: Seq<char>| #[trigger] r2.output.contains(p) <==> credited(
            fs,
            cfg,
            r2,
            p,
        ) by {
            if credited(fs, cfg, r, p) {
                let (d, i) = choose|d: Seq<char>, i: int|
                    r.taken.contains(d) && #[trigger] lists(fs, d, i, p) && hits(cfg, fs[d][i]);
                assert(r2.taken.contains(d));
            }
            if credited(fs, cfg, r2, p) {
                let (d, i) = choose|d: Seq<char>, i: int|
                    r2.taken.contains(d) && #[trigger] lists(fs, d, i, p) && hits(cfg, fs[d][i]);
                assert(r.taken.contains(d));
            }
        }
        assert forall|p: Seq<char>| #[trigger] known(r2, p) implies p.len() >= root.len() by {
            assert(known(r, p));
        }
        assert forall|p: Seq<char>| #[trigger] known(r2, p) implies reachable(
            fs,
            cfg.recursive,
            root,
            p,
        ) by {
            assert(known(r, p));
        }
    } else {
        let entries = fs[current];
        let visited = r.walk.visited;
        lemma_children_are_new(fs, cfg, root, r);
        let dp = descends_pred(cfg.recursive, visited);
        let rp = reports_pred(cfg.recursive, visited, cfg.query);
        let q = picked(entries, dp);
        let e = picked(entries, rp);
        lemma_picked_members(entries, dp);
        lemma_picked_members(entries, rp);
        lemma_reverse_members(q);
        assert(r2.walk.queue == q.reverse() + rest);
        assert(r2.walk.visited == visited.insert(current));
        assert(r2.output == r.output + e);
        // what the new worklist and the new output hold
        assert forall|p: Seq<char>| #[trigger] q.contains(p) implies !known(r, p) && p.len()
            > current.len() && cfg.recursive && links(fs, current, p) by {
            let i = choose|i: int| picks(entries, dp, i, p);
            assert(!known(r, entries[i].path));
            assert(lists(fs, current, i, p));
        }
        assert forall|p: Seq<char>| #[trigger] e.contains(p) implies !known(r, p) && credited(
            fs,
            cfg,
            r2,
            p,
        ) by {
            let i = choose|i: int| picks(entries, rp, i, p);
            assert(!known(r, entries[i].path));
            assert(lists(fs, current, i, p));
            assert(!visited.contains(p)) by {
                if visited.contains(p) {
                    assert(r.taken.contains(p));
                    assert(known(r, p));
                }
            }
            assert(hits(cfg, fs[current][i]));
            assert(r2.taken.contains(current));
        }
        // the worklist
        assert forall|p: Seq<char>| !(#[trigger] q.reverse().contains(p) && rest.contains(p)) by {
            if q.reverse().contains(p) && rest.contains(p) {
                assert(q.contains(p));
                assert(r.walk.queue.contains(p));
                assert(known(r, p));
            }
        }
        lemma_join_disjoint(q.reverse(), rest);
        assert forall|p: Seq<char>| !(#[trigger] r2.taken.contains(p) && r2.walk.queue.contains(
            p,
        )) by {
            if r2.taken.contains(p) && r2.walk.queue.contains(p) {
                if q.reverse().contains(p) {
                    assert(q.contains(p));
                    assert(known(r, p));
                } else {
                    assert(rest.contains(p));
                    assert(r.walk.queue.contains(p));
                }
            }
        }
        assert(known(r2, root)) by {
            assert(known(r, root));
        }
        assert forall|p: Seq<char>| #[trigger] known(r2, p) implies (known(r, p) || q.contains(
            p,
        )) by {
            if r2.walk.queue.contains(p) && !rest.contains(p) {
                assert(q.reverse().contains(p));
            }
        }
        assert forall|p: Seq<char>| #[trigger] known(r2, p) implies p.len() >= root.len() by {
            if known(r, p) {
            } else {
                assert(q.contains(p));
                assert(current.len() >= root.len());
            }
        }
        assert forall|p: Seq<char>| #[trigger] known(r2, p) implies p == root || parented(
            fs,
            cfg,
            r2,
            p,
        ) by {
            if known(r, p) {
                if p != root {
                    let d = choose|d: Seq<char>| r.taken.contains(d) && #[trigger] links(fs, d, p);
                    assert(r2.taken.contains(d));
                }
            } else {
                assert(q.contains(p));
                assert(r2.taken.contains(current));
            }
        }
        assert forall|p: Seq<char>| #[trigger] known(r2, p) implies reachable(
            fs,
            cfg.recursive,
            root,
            p,
        ) by {
            if known(r, p) {
            } else {
                assert(q.contains(p));
                assert(links(fs, current, p));
                assert(reachable(fs, cfg.recursive, root, current));
                let depth = choose|depth: nat| reached_in(fs, cfg.recursive, root, current, depth);
                assert(reached_in(fs, cfg.recursive, root, p, depth + 1));
            }
        }
        assert forall|p: Seq<char>| #[trigger] r2.walk.visited.contains(p) implies r2.taken.contains(
            p,
        ) by {
            if p != current {
                assert(visited.contains(p));
            }
        }
        assert forall|d: Seq<char>, p: Seq<char>|
            r2.taken.contains(d) && cfg.recursive && #[trigger] links(fs, d, p) implies known(
            r2,
            p,
        ) by {
            if d == current {
                let k = choose|k: int| #[trigger] lists(fs, d, k, p) && fs[d][k].is_dir;
                assert(!known(r, entries[k].path));
                assert(!visited.contains(p)) by {
                    if visited.contains(p) {
                        assert(r.taken.contains(p));
                        assert(known(r, p));
                    }
                }
                assert(descends(cfg.recursive, visited, entries[k]));
                assert(picks(entries, dp, k, p));
                assert(q.contains(p));
                assert(q.reverse().contains(p));
            } else {
                assert(r.taken.contains(d));
                assert(known(r, p));
            }
        }
        // the output
        assert forall|p: Seq<char>| !(#[trigger] r.output.contains(p) && e.contains(p)) by {
            if r.output.contains(p) && e.contains(p) {
                let (d, i) = choose|d: Seq<char>, i: int|
                    r.taken.contains(d) && #[trigger] lists(fs, d, i, p) && hits(cfg, fs[d][i]);
                let k = choose|k: int| picks(entries, rp, k, p);
                assert(lists(fs, current, k, p));
                assert(d == current);
            }
        }
        lemma_join_disjoint(r.output, e);
        assert forall|p: Seq<char>| #[trigger] r2.output.contains(p) <==> credited(
            fs,
            cfg,
            r2,
            p,
        ) by {
            if r.output.contains(p) {
                let (d, i) = choose|d: Seq<char>, i: int|
                    r.taken.contains(d) && #[trigger] lists(fs, d, i, p) && hits(cfg, fs[d][i]);
                assert(r2.taken.contains(d));
            }
            if credited(fs, cfg, r2, p) {
                let (d, i) = choose|d: Seq<char>, i: int|
                    r2.taken.contains(d) && #[trigger] lists(fs, d, i, p) && hits(cfg, fs[d][i]);
                if d == current {
                    assert(!known(r, entries[i].path));
                    assert(!visited.contains(p)) by {
                        if visited.contains(p) {
                            assert(r.taken.contains(p));
                            assert(known(r, p));
                        }
                    }
                    assert(reports(cfg.recursive, visited, cfg.query, entries[i]));
                    assert(picks(entries, rp, i, p));
                    assert(e.contains(p));
                } else {
                    assert(r.taken.contains(d));
                    assert(credited(fs, cfg, r, p));
                }
            }
        }
    }
}

/// Every run on a tree is orderly at every step.
proof fn lemma_run_is_orderly(
    fs: Map<Seq<char>, Seq<EntryView>>,
    cfg: ConfigView,
    root: Seq<char>,
    steps: nat,
)
    requires
        is_tree(fs),
    ensures
        orderly(fs, cfg, root, run(fs, cfg, root, steps)),
    decreases steps,
{
    if steps == 0 {
        lemma_start_is_orderly(fs, cfg, root);
    } else {
        lemma_run_is_orderly(fs, cfg, root, (steps - 1) as nat);
        lemma_step_keeps_order(fs, cfg, root, run(fs, cfg, root, (steps - 1) as nat));
    }
}

/// The expanded set holds the readable directories that were taken off the worklist.
spec fn faithful(fs: Map<Seq<char>, Seq<EntryView>>, r: Run) -> bool {
    &&& r.walk.visited.finite()
    &&& forall|p: Seq<char>| #[trigger]
        r.walk.visited.contains(p) <==> r.taken.contains(p) && fs.dom().contains(p)
}

proof fn lemma_run_is_faithful(
    fs: Map<Seq<char>, Seq<EntryView>>,
    cfg: ConfigView,
    root: Seq<char>,
    steps: nat,
)
    ensures
        faithful(fs, run(fs, cfg, root, steps)),
    decreases steps,
{
    if steps > 0 {
        let r = run(fs, cfg, root, (steps - 1) as nat);
        lemma_run_is_faithful(fs, cfg, root, (steps - 1) as nat);
        let r2 = step(fs, cfg, r);
        if !ended(r) {
            let current = r.walk.queue[0];
            assert forall|p: Seq<char>| #[trigger]
                r2.walk.visited.contains(p) <==> r2.taken.contains(p) && fs.dom().contains(p) by {
                assert(r2.taken.contains(p) <==> r.taken.contains(p) || p == current);
            }
        }
    }
}

/// At every step of every run, on any filesystem, the set of visited
/// directories is finite and holds exactly the directories whose children
/// were enumerated, so its size is the number of distinct directories expanded.
pub proof fn law_visited_is_what_was_expanded(
    fs: Map<Seq<char>, Seq<EntryView>>,
    cfg: ConfigView,
    root: Seq<char>,
    steps: nat,
)
    ensures
        run(fs, cfg, root, steps).walk.visited.finite(),
        run(fs, cfg, root, steps).walk.visited == expanded(
            fs,
            run(fs, cfg, root, steps),
        ).to_set(),
{
    let r = run(fs, cfg, root, steps);
    lemma_run_is_faithful(fs, cfg, root, steps);
    lemma_filter_members(r.taken, readable(fs));
    assert(r.walk.visited =~= expanded(fs, r).to_set());
}

/// On a tree no directory is taken off the worklist twice, so none is
/// expanded twice, and the visited set has one member for each expansion.
pub proof fn law_no_directory_expanded_twice(
    fs: Map<Seq<char>, Seq<EntryView>>,
    cfg: ConfigView,
    root: Seq<char>,
    steps: nat,
)
    requires
        is_tree(fs),
    ensures
        run(fs, cfg, root, steps).taken.no_duplicates(),
        expanded(fs, run(fs, cfg, root, steps)).no_duplicates(),
        run(fs, cfg, root, steps).walk.visited.len() == expanded(
            fs,
            run(fs, cfg, root, steps),
        ).len(),
{
    let r = run(fs, cfg, root, steps);
    lemma_run_is_orderly(fs, cfg, root, steps);
    law_visited_is_what_was_expanded(fs, cfg, root, steps);
    lemma_filter_members(r.taken, readable(fs));
    expanded(fs, r).unique_seq_to_set();
}

/// When the worklist is empty, every directory the policy reaches has been taken.
proof fn lemma_reached_is_taken(
    fs: Map<Seq<char>, Seq<EntryView>>,
    cfg: ConfigView,
    root: Seq<char>,
    r: Run,
    dir: Seq<char>,
    depth: nat,
)
    requires
        orderly(fs, cfg, root, r),
        ended(r),
        reached_in(fs, cfg.recursive, root, dir, depth),
    ensures
        r.taken.contains(dir),
    decreases depth,
{
    if depth == 0 {
        assert(known(r, root));
    } else {
        let parent = choose|parent: Seq<char>|
            reached_in(fs, cfg.recursive, root, parent, (depth - 1) as nat) && #[trigger] links(
                fs,
                parent,
                dir,
            );
        lemma_reached_is_taken(fs, cfg, root, r, parent, (depth - 1) as nat);
        assert(known(r, dir));
    }
}

/// On a tree, a run that has ended has reported every match that the
/// traversal policy reaches exactly once: each entry of a readable,
/// reachable directory whose name contains the query and which is not a
/// directory that was descended into, and nothing else, with no path twice.
pub proof fn law_every_reachable_match_exactly_once(
    fs: Map<Seq<char>, Seq<EntryView>>,
    cfg: ConfigView,
    root: Seq<char>,
    steps: nat,
)
    requires
        is_tree(fs),
        ended(run(fs, cfg, root, steps)),
    ensures
        run(fs, cfg, root, steps).output.no_duplicates(),
        forall|path: Seq<char>| #[trigger]
            run(fs, cfg, root, steps).output.contains(path) <==> expected(fs, cfg, root, path),
{
    let r = run(fs, cfg, root, steps);
    lemma_run_is_orderly(fs, cfg, root, steps);
    assert forall|path: Seq<char>| #[trigger] r.output.contains(path) <==> expected(
        fs,
        cfg,
        root,
        path,
    ) by {
        if r.output.contains(path) {
            assert(credited(fs, cfg, r, path));
            let (d, i) = choose|d: Seq<char>, i: int|
                r.taken.contains(d) && #[trigger] lists(fs, d, i, path) && hits(cfg, fs[d][i]);
            assert(known(r, d));
        }
        if expected(fs, cfg, root, path) {
            let (d, i) = choose|d: Seq<char>, i: int|
                reachable(fs, cfg.recursive, root, d) && #[trigger] lists(fs, d, i, path) && hits(
                    cfg,
                    fs[d][i],
                );
            let depth = choose|depth: nat| reached_in(fs, cfg.recursive, root, d, depth);
            lemma_reached_is_taken(fs, cfg, root, r, d, depth);
            assert(credited(fs, cfg, r, path));
        }
    }
}

/// Without recursion nothing is ever put on the worklist.
pub proof fn lemma_nothing_queued_without_recursion(
    entries: Seq<EntryView>,
    visited: Set<Seq<char>>,
)
    ensures
        queued(entries, false, visited) == Seq::<Seq<char>>::empty(),
{
    let dp = descends_pred(false, visited);
    lemma_picked_members(entries, dp);
    let q = picked(entries, dp);
    if q.len() > 0 {
        assert(q.contains(q[0]));
        let i = choose|i: int| picks(entries, dp, i, q[0]);
        assert(false);
    }
    assert(q =~= Seq::<Seq<char>>::empty());
}

/// With recursion off, the run ends with its first step: the root is the
/// only directory ever read, and the output is what the root's own listing
/// holds of matches, subdirectories included, in listing order.
pub proof fn law_no_descent_without_recursion(
    fs: Map<Seq<char>, Seq<EntryView>>,
    cfg: ConfigView,
    root: Seq<char>,
    steps: nat,
)
    requires
        !cfg.recursive,
        steps >= 1,
    ensures
        ended(run(fs, cfg, root, steps)),
        run(fs, cfg, root, steps).taken == seq![root],
        run(fs, cfg, root, steps).output == match listing_of(fs, root) {
            Some(entries) => emitted(entries, false, Set::empty(), cfg.query),
            None => Seq::empty(),
        },
    decreases steps,
{
    if steps == 1 {
        let r0 = run(fs, cfg, root, 0);
        assert(r0 == start(root));
        let r1 = step(fs, cfg, r0);
        assert(run(fs, cfg, root, 1) == r1);
        assert(r0.walk.queue[0] == root);
        assert(r0.walk.queue.drop_first() =~= Seq::<Seq<char>>::empty());
        assert(r1.taken =~= seq![root]);
        match listing_of(fs, root) {
            Some(entries) => {
                lemma_nothing_queued_without_recursion(entries, Set::empty());
                assert(r1.walk.queue =~= Seq::<Seq<char>>::empty());
                assert(r1.output =~= emitted(entries, false, Set::empty(), cfg.query));
            },
            None => {
                assert(r1.output =~= Seq::<Seq<char>>::empty());
            },
        }
    } else {
        law_no_descent_without_recursion(fs, cfg, root, (steps - 1) as nat);
    }
}

/// A run that has not ended has taken one directory in each of its steps.
proof fn lemma_one_taken_per_step(
    fs: Map<Seq<char>, Seq<EntryView>>,
    cfg: ConfigView,
    root: Seq<char>,
    steps: nat,
)
    ensures
        ended(run(fs, cfg, root, steps)) || run(fs, cfg, root, steps).taken.len() == steps,
    decreases steps,
{
    if steps > 0 {
        lemma_one_taken_per_step(fs, cfg, root, (steps - 1) as nat);
    }
}

/// On a tree with finitely many listed paths the walk ends: after one step
/// for the root and one for each listed path the worklist is empty.
pub proof fn law_walk_of_finite_tree_ends(
    fs: Map<Seq<char>, Seq<EntryView>>,
    cfg: ConfigView,
    root: Seq<char>,
)
    requires
        is_tree(fs),
        listed(fs).finite(),
    ensures
        ended(run(fs, cfg, root, listed(fs).len() + 1)),
{
    let steps = listed(fs).len() + 1;
    let r = run(fs, cfg, root, steps);
    if !ended(r) {
        lemma_one_taken_per_step(fs, cfg, root, steps);
        lemma_run_is_orderly(fs, cfg, root, steps);
        let current = r.walk.queue[0];
        assert(r.walk.queue.contains(current));
        r.taken.unique_seq_to_set();
        let seen = r.taken.to_set().insert(current);
        let all = listed(fs).insert(root);
        assert(!r.taken.to_set().contains(current));
        assert(seen.len() == steps + 1);
        assert(seen.subset_of(all)) by {
            assert forall|p: Seq<char>| seen.contains(p) implies all.contains(p) by {
                assert(known(r, p));
                if p != root {
                    assert(parented(fs, cfg, r, p));
                    let d = choose|d: Seq<char>| r.taken.contains(d) && #[trigger] links(fs, d, p);
                    let k = choose|k: int| #[trigger] lists(fs, d, k, p) && fs[d][k].is_dir;
                    assert(listed(fs).contains(p));
                }
            }
        }
        vstd::set_lib::lemma_len_subset(seen, all);
        assert(false);
    }
}

/// The readable directories that have not been expanded yet.
pub open spec fn unread(fs: Map<Seq<char>, Seq<EntryView>>, r: Run) -> Set<Seq<char>> {
    fs.dom().difference(r.walk.visited)
}

/// What a waiting directory can still add to the worklist, and one for
/// taking it off: nothing is counted for a directory whose first reading is
/// still to come, since that reading shrinks the unread set instead.
pub open spec fn cost(fs: Map<Seq<char>, Seq<EntryView>>, visited: Set<Seq<char>>, dir: Seq<char>) -> nat {
    if !fs.dom().contains(dir) {
        1
    } else if visited.contains(dir) {
        1 + fs[dir].len()
    } else {
        0
    }
}

/// The cost of everything on a worklist.
pub open spec fn load(fs: Map<Seq<char>, Seq<EntryView>>, visited: Set<Seq<char>>, queue: Seq<Seq<char>>) -> nat
    decreases queue.len(),
{
    if queue.len() == 0 {
        0
    } else {
        cost(fs, visited, queue[0]) + load(fs, visited, queue.drop_first())
    }
}

proof fn lemma_load_of_join(
    fs: Map<Seq<char>, Seq<EntryView>>,
    visited: Set<Seq<char>>,
    a: Seq<Seq<char>>,
    b: Seq<Seq<char>>,
)
    ensures
        load(fs, visited, a + b) == load(fs, visited, a) + load(fs, visited, b),
    decreases a.len(),
{
    if a.len() == 0 {
        assert(a + b =~= b);
    } else {
        assert((a + b).drop_first() =~= a.drop_first() + b);
        assert((a + b)[0] == a[0]);
        lemma_load_of_join(fs, visited, a.drop_first(), b);
    }
}

proof fn lemma_load_of_unvisited(
    fs: Map<Seq<char>, Seq<EntryView>>,
    visited: Set<Seq<char>>,
    s: Seq<Seq<char>>,
)
    requires
        forall|i: int| 0 <= i < s.len() ==> !visited.contains(#[trigger] s[i]),
    ensures
        load(fs, visited, s) <= s.len(),
    decreases s.len(),
{
    if s.len() > 0 {
        let rest = s.drop_first();
        assert forall|i: int| 0 <= i < rest.len() implies !visited.contains(#[trigger] rest[i]) by {
            assert(rest[i] == s[i + 1]);
        }
        lemma_load_of_unvisited(fs, visited, rest);
        assert(!visited.contains(s[0]));
    }
}

/// Each step of a run that has not ended either expands a directory for
/// the first time or lightens the worklist.
pub proof fn lemma_step_gets_closer(fs: Map<Seq<char>, Seq<EntryView>>, cfg: ConfigView, r: Run)
    requires
        fs.dom().finite(),
        !ended(r),
    ensures
        unread(fs, step(fs, cfg, r)).len() < unread(fs, r).len() || (unread(
            fs,
            step(fs, cfg, r),
        ).len() == unread(fs, r).len() && load(
            fs,
            step(fs, cfg, r).walk.visited,
            step(fs, cfg, r).walk.queue,
        ) < load(fs, r.walk.visited, r.walk.queue)),
{
    let current = r.walk.queue[0];
    let rest = r.walk.queue.drop_first();
    let visited = r.walk.visited;
    let r2 = step(fs, cfg, r);
    assert(load(fs, visited, r.walk.queue) == cost(fs, visited, current) + load(
        fs,
        visited,
        rest,
    ));
    if !fs.dom().contains(current) {
        assert(r2.walk.queue == rest);
        assert(r2.walk.visited == visited);
    } else if visited.contains(current) {
        let entries = fs[current];
        let dp = descends_pred(cfg.recursive, visited);
        let q = picked(entries, dp);
        assert(r2.walk.visited =~= visited);
        assert(r2.walk.queue == q.reverse() + rest);
        lemma_picked_members(entries, dp);
        lemma_reverse_members(q);
        assert forall|i: int| 0 <= i < q.reverse().len() implies !visited.contains(
            #[trigger] q.reverse()[i],
        ) by {
            let p = q.reverse()[i];
            assert(q.reverse().contains(p));
            assert(q.contains(p));
            let k = choose|k: int| picks(entries, dp, k, p);
            assert(descends(cfg.recursive, visited, entries[k]));
        }
        lemma_load_of_unvisited(fs, visited, q.reverse());
        lemma_load_of_join(fs, visited, q.reverse(), rest);
        entries.lemma_filter_len(dp);
        assert(q.reverse().len() == q.len());
        assert(q.len() <= entries.len());
    } else {
        assert(unread(fs, r).contains(current));
        assert(unread(fs, r2) =~= unread(fs, r).remove(current));
    }
}

proof fn lemma_ends_after(
    fs: Map<Seq<char>, Seq<EntryView>>,
    cfg: ConfigView,
    root: Seq<char>,
    steps: nat,
)
    requires
        fs.dom().finite(),
    ensures
        exists|later: nat| ended(#[trigger] run(fs, cfg, root, later)),
    decreases
            unread(fs, run(fs, cfg, root, steps)).len(),
            load(
                fs,
                run(fs, cfg, root, steps).walk.visited,
                run(fs, cfg, root, steps).walk.queue,
            ),
{
    let r = run(fs, cfg, root, steps);
    if !ended(r) {
        lemma_step_gets_closer(fs, cfg, r);
        assert(run(fs, cfg, root, steps + 1) == step(fs, cfg, r));
        lemma_ends_after(fs, cfg, root, steps + 1);
    }
}

/// On a filesystem with finitely many readable directories every walk
/// ends, whatever the listings hold: a directory that lists itself or one
/// above it, or that is listed more than once, is read again at most until
/// it counts as expanded, and the worklist runs empty.
pub proof fn law_every_walk_ends(
    fs: Map<Seq<char>, Seq<EntryView>>,
    cfg: ConfigView,
    root: Seq<char>,
)
    requires
        fs.dom().finite(),
    ensures
        exists|steps: nat| ended(#[trigger] run(fs, cfg, root, steps)),
{
    lemma_ends_after(fs, cfg, root, 0);
}

} // verus!
