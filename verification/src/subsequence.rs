//! Subsequences, and what filtering a sequence does to it.

use vstd::prelude::*;

verus! {

/// `picks` names, in rising order, places of `whole` that hold the items
/// of `part` one after the other.
pub open spec fn picks_out<T>(picks: Seq<int>, part: Seq<T>, whole: Seq<T>) -> bool {
    &&& picks.len() == part.len()
    &&& forall|i: int|
        0 <= i < picks.len() ==> 0 <= #[trigger] picks[i] < whole.len() && whole[picks[i]]
            == part[i]
    &&& forall|i: int, j: int| 0 <= i < j < picks.len() ==> picks[i] < picks[j]
}

/// `part` is what is left of `whole` after some items were taken out: no
/// item added, none moved.
pub open spec fn is_subsequence<T>(part: Seq<T>, whole: Seq<T>) -> bool {
    exists|picks: Seq<int>| picks_out(picks, part, whole)
}

/// Filtering takes items out and does nothing else.
pub proof fn lemma_filter_is_subsequence<T>(whole: Seq<T>, keep: spec_fn(T) -> bool)
    ensures
        is_subsequence(whole.filter(keep), whole),
    decreases whole.len(),
{
    reveal(Seq::filter);
    if whole.len() == 0 {
        assert(picks_out(Seq::<int>::empty(), whole.filter(keep), whole));
    } else {
        let front = whole.drop_last();
        lemma_filter_is_subsequence(front, keep);
        let front_picks = choose|picks: Seq<int>| picks_out(picks, front.filter(keep), front);
        if keep(whole.last()) {
            assert(picks_out(front_picks.push(whole.len() - 1), whole.filter(keep), whole));
        } else {
            assert(picks_out(front_picks, whole.filter(keep), whole));
        }
    }
}

/// A filter that keeps every item of a sequence returns that sequence.
pub proof fn lemma_filter_keeps_all<T>(whole: Seq<T>, keep: spec_fn(T) -> bool)
    requires
        forall|i: int| 0 <= i < whole.len() ==> keep(#[trigger] whole[i]),
    ensures
        whole.filter(keep) == whole,
    decreases whole.len(),
{
    reveal(Seq::filter);
    if whole.len() > 0 {
        lemma_filter_keeps_all(whole.drop_last(), keep);
    }
}

/// A filter that keeps no item of a sequence returns the empty sequence.
pub proof fn lemma_filter_keeps_none<T>(whole: Seq<T>, keep: spec_fn(T) -> bool)
    requires
        forall|i: int| 0 <= i < whole.len() ==> !keep(#[trigger] whole[i]),
    ensures
        whole.filter(keep).len() == 0,
    decreases whole.len(),
{
    reveal(Seq::filter);
    if whole.len() > 0 {
        lemma_filter_keeps_none(whole.drop_last(), keep);
    }
}

} // verus!
