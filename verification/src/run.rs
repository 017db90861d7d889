//! Runs: what a fallible iterator reports over several steps.

use crate::{EIterator, Step};
use vstd::prelude::*;

verus! {

/// Starting from `start`, successive calls of `enext` may return the outcomes
/// `outs`, in this order, and leave the iterator as `end`.
pub open spec fn runs<I: EIterator>(start: I, outs: Seq<Step<I::Item, I::Error>>, end: I) -> bool
    decreases outs.len(),
{
    if outs.len() == 0 {
        start == end
    } else {
        exists|mid: I| runs(start, outs.drop_last(), mid) && mid.advances(&end, outs.last())
    }
}

/// The items among the outcomes `outs`, in their order.
pub open spec fn items<T, E>(outs: Seq<Step<T, E>>) -> Seq<T>
    decreases outs.len(),
{
    if outs.len() == 0 {
        Seq::empty()
    } else {
        match outs.last() {
            Step::Yield(x) => items(outs.drop_last()).push(x),
            _ => items(outs.drop_last()),
        }
    }
}

/// The outcomes `outs` without the `Skip`s among them.
pub open spec fn without_skips<T, E>(outs: Seq<Step<T, E>>) -> Seq<Step<T, E>>
    decreases outs.len(),
{
    if outs.len() == 0 {
        Seq::empty()
    } else if outs.last() is Skip {
        without_skips(outs.drop_last())
    } else {
        without_skips(outs.drop_last()).push(outs.last())
    }
}

/// One more call of `enext` makes a run longer.
pub proof fn lemma_runs_push<I: EIterator>(
    start: I,
    outs: Seq<Step<I::Item, I::Error>>,
    mid: I,
    out: Step<I::Item, I::Error>,
    end: I,
)
    requires
        runs(start, outs, mid),
        mid.advances(&end, out),
    ensures
        runs(start, outs.push(out), end),
{
    let more = outs.push(out);
    assert(more.drop_last() == outs);
    assert(runs(start, more.drop_last(), mid) && mid.advances(&end, more.last()));
}

/// A run can be taken apart at its front: its first outcome is one call of
/// `enext`, and the others are a run from where that call leaves the
/// iterator.
pub proof fn lemma_runs_front<I: EIterator>(start: I, outs: Seq<Step<I::Item, I::Error>>, end: I)
    requires
        runs(start, outs, end),
        outs.len() > 0,
    ensures
        exists|mid: I| start.advances(&mid, outs.first()) && runs(mid, outs.drop_first(), end),
    decreases outs.len(),
{
    let last = choose|last: I| runs(start, outs.drop_last(), last) && last.advances(&end, outs.last());
    if outs.len() == 1 {
        assert(outs.drop_first() =~= Seq::empty());
        assert(start.advances(&end, outs.first()) && runs(end, outs.drop_first(), end));
    } else {
        lemma_runs_front(start, outs.drop_last(), last);
        let mid = choose|mid: I|
            start.advances(&mid, outs.drop_last().first()) && runs(
                mid,
                outs.drop_last().drop_first(),
                last,
            );
        assert(outs.drop_first().drop_last() =~= outs.drop_last().drop_first());
        assert(runs(mid, outs.drop_first().drop_last(), last) && last.advances(
            &end,
            outs.drop_first().last(),
        ));
        assert(start.advances(&mid, outs.first()) && runs(mid, outs.drop_first(), end));
    }
}

/// One more outcome adds its item, if it has one, to the items.
pub proof fn lemma_items_push<T, E>(outs: Seq<Step<T, E>>, out: Step<T, E>)
    ensures
        items(outs.push(out)) == match out {
            Step::Yield(x) => items(outs).push(x),
            _ => items(outs),
        },
{
    assert(outs.push(out).drop_last() == outs);
}

/// The items of two runs of outcomes, one after the other.
pub proof fn lemma_items_concat<T, E>(a: Seq<Step<T, E>>, b: Seq<Step<T, E>>)
    ensures
        items(a + b) == items(a) + items(b),
    decreases b.len(),
{
    if b.len() == 0 {
        assert(a + b =~= a);
        assert(items(a) + items(b) =~= items(a));
    } else {
        lemma_items_concat(a, b.drop_last());
        assert((a + b).drop_last() =~= a + b.drop_last());
        assert(items(a + b) =~= items(a) + items(b));
    }
}

/// One more outcome is kept unless it is `Skip`.
pub proof fn lemma_without_skips_push<T, E>(outs: Seq<Step<T, E>>, out: Step<T, E>)
    ensures
        without_skips(outs.push(out)) == if out is Skip {
            without_skips(outs)
        } else {
            without_skips(outs).push(out)
        },
{
    assert(outs.push(out).drop_last() == outs);
}

} // verus!
