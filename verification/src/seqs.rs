//! Facts about membership and repetition in sequences.

use vstd::prelude::*;
use vstd::seq_lib::lemma_no_dup_in_concat;

verus! {

broadcast use vstd::seq_lib::group_seq_properties;

/// The front of a sequence and the rest hold between them what the sequence
/// holds, and the rest of a sequence without repetition does not hold the front.
pub proof fn lemma_front_and_rest<A>(s: Seq<A>)
    requires
        s.len() > 0,
    ensures
        forall|x: A| #[trigger] s.contains(x) <==> x == s[0] || s.drop_first().contains(x),
        s.no_duplicates() ==> s.drop_first().no_duplicates() && !s.drop_first().contains(s[0]),
{
    let rest = s.drop_first();
    assert(s =~= seq![s[0]] + rest);
    assert forall|x: A| #[trigger] s.contains(x) <==> x == s[0] || rest.contains(x) by {
        if rest.contains(x) {
            let j = choose|j: int| 0 <= j < rest.len() && rest[j] == x;
            assert(s[j + 1] == x);
        }
        if s.contains(x) && x != s[0] {
            let i = choose|i: int| 0 <= i < s.len() && s[i] == x;
            assert(rest[i - 1] == x);
        }
    }
    if s.no_duplicates() {
        assert forall|i: int, j: int| 0 <= i < rest.len() && 0 <= j < rest.len() && i != j implies rest[i]
            != rest[j] by {
            assert(rest[i] == s[i + 1] && rest[j] == s[j + 1]);
        }
        if rest.contains(s[0]) {
            let j = choose|j: int| 0 <= j < rest.len() && rest[j] == s[0];
            assert(s[j + 1] == s[0]);
        }
    }
}

/// A sequence without repetition stays so when something new is added at its end.
pub proof fn lemma_push_fresh<A>(s: Seq<A>, x: A)
    requires
        s.no_duplicates(),
        !s.contains(x),
    ensures
        s.push(x).no_duplicates(),
{
    let t = s.push(x);
    assert forall|i: int, j: int| 0 <= i < t.len() && 0 <= j < t.len() && i != j implies t[i]
        != t[j] by {
        if i < s.len() && j < s.len() {
            assert(s[i] != s[j]);
        } else if i < s.len() {
            assert(s.contains(s[i]));
        } else {
            assert(s.contains(s[j]));
        }
    }
}

/// Two sequences without repetition that share nothing join into one without repetition.
pub proof fn lemma_join_disjoint<A>(a: Seq<A>, b: Seq<A>)
    requires
        a.no_duplicates(),
        b.no_duplicates(),
        forall|x: A| !(#[trigger] a.contains(x) && b.contains(x)),
    ensures
        (a + b).no_duplicates(),
{
    assert forall|i: int, j: int| 0 <= i < a.len() && 0 <= j < b.len() implies a[i] != b[j] by {
        assert(a.contains(a[i]));
        assert(b.contains(b[j]));
    }
    lemma_no_dup_in_concat(a, b);
}

/// A sequence read backwards holds what it held, as often as it held it.
pub proof fn lemma_reverse_members<A>(s: Seq<A>)
    ensures
        forall|x: A| #[trigger] s.reverse().contains(x) <==> s.contains(x),
        s.no_duplicates() ==> s.reverse().no_duplicates(),
{
    let r = s.reverse();
    let n = s.len() as int;
    assert(r.len() == n);
    assert forall|x: A| #[trigger] r.contains(x) <==> s.contains(x) by {
        if r.contains(x) {
            let i = choose|i: int| 0 <= i < r.len() && r[i] == x;
            assert(s[n - 1 - i] == x);
        }
        if s.contains(x) {
            let i = choose|i: int| 0 <= i < s.len() && s[i] == x;
            assert(r[n - 1 - i] == x);
        }
    }
    if s.no_duplicates() {
        assert forall|i: int, j: int| 0 <= i < r.len() && 0 <= j < r.len() && i != j implies r[i]
            != r[j] by {
            assert(r[i] == s[n - 1 - i] && r[j] == s[n - 1 - j]);
        }
    }
}

/// What a filter keeps is what the sequence holds and the predicate
/// accepts, and it keeps nothing more often than the sequence holds it.
pub proof fn lemma_filter_members<A>(s: Seq<A>, pred: spec_fn(A) -> bool)
    ensures
        forall|x: A| #[trigger] s.filter(pred).contains(x) <==> s.contains(x) && pred(x),
        s.no_duplicates() ==> s.filter(pred).no_duplicates(),
    decreases s.len(),
{
    if s.len() == 0 {
        assert(s.filter(pred) =~= Seq::<A>::empty()) by {
            reveal(Seq::filter);
        }
    } else {
        let init = s.drop_last();
        let last = s.last();
        lemma_filter_members(init, pred);
        assert(s =~= init.push(last));
        init.lemma_filter_push(last, pred);
        let kept = init.filter(pred);
        assert forall|x: A| #[trigger] s.filter(pred).contains(x) <==> s.contains(x) && pred(
            x,
        ) by {
            assert(s.contains(x) <==> init.contains(x) || x == last);
            assert(kept.contains(x) <==> init.contains(x) && pred(x));
        }
        if s.no_duplicates() {
            assert(init.no_duplicates()) by {
                assert forall|i: int, j: int|
                    0 <= i < init.len() && 0 <= j < init.len() && i != j implies init[i]
                    != init[j] by {
                    assert(init[i] == s[i] && init[j] == s[j]);
                }
            }
            if pred(last) {
                if init.contains(last) {
                    let i = choose|i: int| 0 <= i < init.len() && init[i] == last;
                    assert(s[i] == s[s.len() - 1]);
                }
                lemma_push_fresh(kept, last);
            }
        }
    }
}

} // verus!
