//! Where fills go.

use vstd::prelude::*;

use crate::model::Lot;

verus! {

/// Something that fills of orders named by `I` can be handed to.
pub trait FillSink<I>: Sized {
    /// Handing `fill` to `pre` may turn it into `post`.
    spec fn fill_step(pre: Self, fill: Lot<I>, post: Self) -> bool;

    fn deliver(&mut self, id: I, quantity: u64)
        ensures
            Self::fill_step(*old(self), Lot { id, quantity }, *final(self)),
    ;
}

/// `states` are the states a sink goes through while `fills` are handed to it,
/// one by one and in order.
pub open spec fn passes<I, S: FillSink<I>>(states: Seq<S>, fills: Seq<Lot<I>>) -> bool {
    &&& states.len() == fills.len() + 1
    &&& forall|i: int|
        0 <= i < fills.len() ==> S::fill_step(states[i], #[trigger] fills[i], states[i + 1])
}

/// Handing `fills` to `pre`, one by one and in order, may turn it into `post`.
pub open spec fn delivered<I, S: FillSink<I>>(pre: S, fills: Seq<Lot<I>>, post: S) -> bool {
    exists|states: Seq<S>| #[trigger]
        passes(states, fills) && states[0] == pre && states[fills.len() as int] == post
}

/// No fill.
pub proof fn lemma_delivered_none<I, S: FillSink<I>>(sink: S)
    ensures
        delivered(sink, Seq::<Lot<I>>::empty(), sink),
{
    assert(passes(seq![sink], Seq::<Lot<I>>::empty()));
}

/// One more fill.
pub proof fn lemma_delivered_push<I, S: FillSink<I>>(
    pre: S,
    fills: Seq<Lot<I>>,
    mid: S,
    fill: Lot<I>,
    post: S,
)
    requires
        delivered(pre, fills, mid),
        S::fill_step(mid, fill, post),
    ensures
        delivered(pre, fills.push(fill), post),
{
    let states = choose|states: Seq<S>| #[trigger]
        passes(states, fills) && states[0] == pre && states[fills.len() as int] == mid;
    let more = states.push(post);
    assert forall|i: int| 0 <= i < fills.push(fill).len() implies S::fill_step(
        more[i],
        #[trigger] fills.push(fill)[i],
        more[i + 1],
    ) by {
        if i < fills.len() {
            assert(fills.push(fill)[i] == fills[i]);
        }
    }
    assert(passes(more, fills.push(fill)));
}

/// Some more fills.
pub proof fn lemma_delivered_concat<I, S: FillSink<I>>(
    pre: S,
    some: Seq<Lot<I>>,
    mid: S,
    more: Seq<Lot<I>>,
    post: S,
)
    requires
        delivered(pre, some, mid),
        delivered(mid, more, post),
    ensures
        delivered(pre, some + more, post),
{
    let a = choose|states: Seq<S>| #[trigger]
        passes(states, some) && states[0] == pre && states[some.len() as int] == mid;
    let b = choose|states: Seq<S>| #[trigger]
        passes(states, more) && states[0] == mid && states[more.len() as int] == post;
    let both = a + b.skip(1);
    assert forall|i: int| 0 <= i < (some + more).len() implies S::fill_step(
        both[i],
        #[trigger] (some + more)[i],
        both[i + 1],
    ) by {
        if i < some.len() {
            assert((some + more)[i] == some[i]);
        } else {
            assert((some + more)[i] == more[i - some.len()]);
        }
    }
    assert(passes(both, some + more));
}

} // verus!
