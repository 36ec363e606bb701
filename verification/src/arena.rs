//! Slots and the links threaded through them.
//!
//! Orders live in the slots of a slab and point at each other by slot index.
//! This module states what it means for such links to form a queue or a
//! freelist, and what an engine's storage has to offer for the rest of the
//! crate to work on it.

use vstd::prelude::*;

use crate::types::Side;

verus! {

/// Index of a slot. Slot 0 is never used, so every index in use is non-zero.
#[derive(Debug, Clone, Copy, PartialEq, Eq, Hash, Structural)]
pub struct SlabIndex(pub u32);

impl SlabIndex {
    /// An index from its number. 0 is reserved.
    pub fn new(n: u32) -> (r: Self)
        requires
            n != 0,
        ensures
            r.0 == n,
    {
        SlabIndex(n)
    }

    pub fn as_usize(self) -> (r: usize)
        ensures
            r == self.0,
    {
        self.0 as usize
    }
}

/// The part of a slot that queues and levels work on.
#[derive(Debug, Clone, Copy)]
pub struct Node {
    pub price: u64,
    pub quantity: u64,
    /// The order ahead in the queue (older).
    pub prev: Option<SlabIndex>,
    /// The order behind in the queue (newer); on the freelist, the next free
    /// slot.
    pub next: Option<SlabIndex>,
}

/// `idx` names a slot that orders may use.
pub open spec fn in_range(nodes: Seq<Node>, idx: SlabIndex) -> bool {
    0 < idx.0 < nodes.len()
}

/// Every index of `q` is in range and none occurs twice.
pub open spec fn distinct_slots(nodes: Seq<Node>, q: Seq<SlabIndex>) -> bool {
    &&& q.no_duplicates()
    &&& forall|i: int| 0 <= i < q.len() ==> in_range(nodes, #[trigger] q[i])
}

/// The first index of `q`, if any.
pub open spec fn first(q: Seq<SlabIndex>) -> Option<SlabIndex> {
    if q.len() == 0 {
        None
    } else {
        Some(q[0])
    }
}

/// The last index of `q`, if any.
pub open spec fn last(q: Seq<SlabIndex>) -> Option<SlabIndex> {
    if q.len() == 0 {
        None
    } else {
        Some(q[q.len() - 1])
    }
}

/// What stands before position `i` of `q`.
pub open spec fn before(q: Seq<SlabIndex>, i: int) -> Option<SlabIndex> {
    if i == 0 {
        None
    } else {
        Some(q[i - 1])
    }
}

/// What stands behind position `i` of `q`, if `q` is followed by `end`.
pub open spec fn behind(q: Seq<SlabIndex>, i: int, end: Option<SlabIndex>) -> Option<SlabIndex> {
    if i == q.len() - 1 {
        end
    } else {
        Some(q[i + 1])
    }
}

/// The slot at position `i` of `q` points at what stands behind it.
pub open spec fn leads(nodes: Seq<Node>, q: Seq<SlabIndex>, i: int, end: Option<SlabIndex>) -> bool {
    nodes[q[i].0 as int].next == behind(q, i, end)
}

/// The slot at position `i` of `q` points at what stands before it.
pub open spec fn follows(nodes: Seq<Node>, q: Seq<SlabIndex>, i: int) -> bool {
    nodes[q[i].0 as int].prev == before(q, i)
}

/// The `next` links run through `q` in order and then on to `end`.
pub open spec fn linked(nodes: Seq<Node>, q: Seq<SlabIndex>, end: Option<SlabIndex>) -> bool {
    forall|i: int| 0 <= i < q.len() ==> #[trigger] leads(nodes, q, i, end)
}

/// `free` is the freelist that starts at `head`.
pub open spec fn freelist(nodes: Seq<Node>, free: Seq<SlabIndex>, head: Option<SlabIndex>) -> bool {
    &&& distinct_slots(nodes, free)
    &&& linked(nodes, free, None)
    &&& head == first(free)
}

/// `q` is a queue: doubly linked from its first slot to its last.
pub open spec fn queue(nodes: Seq<Node>, q: Seq<SlabIndex>) -> bool {
    &&& distinct_slots(nodes, q)
    &&& linked(nodes, q, None)
    &&& forall|i: int| 0 <= i < q.len() ==> #[trigger] follows(nodes, q, i)
}

/// Every order of `q` is at `price` and has some quantity.
pub open spec fn priced(nodes: Seq<Node>, q: Seq<SlabIndex>, price: u64) -> bool {
    forall|i: int|
        0 <= i < q.len() ==> nodes[(#[trigger] q[i]).0 as int].price == price
            && nodes[q[i].0 as int].quantity > 0
}

/// No slot of `q` is on the freelist `free`.
pub open spec fn apart(q: Seq<SlabIndex>, free: Seq<SlabIndex>) -> bool {
    forall|i: int| 0 <= i < q.len() ==> !free.contains(#[trigger] q[i])
}

/// Total quantity of the slots of `q`.
pub open spec fn slots_total(nodes: Seq<Node>, q: Seq<SlabIndex>) -> nat
    decreases q.len(),
{
    if q.len() == 0 {
        0
    } else {
        nodes[q[0].0 as int].quantity as nat + slots_total(nodes, q.drop_first())
    }
}

/// Slots that differ pairwise are no more than there are.
pub proof fn lemma_distinct_slots_len(nodes: Seq<Node>, q: Seq<SlabIndex>)
    requires
        nodes.len() > 0,
        distinct_slots(nodes, q),
    ensures
        q.len() <= nodes.len() - 1,
{
    let numbers = q.map_values(|idx: SlabIndex| idx.0 as int);
    assert(numbers.no_duplicates()) by {
        assert forall|i: int, j: int|
            0 <= i < numbers.len() && 0 <= j < numbers.len() && i != j implies numbers[i]
            != numbers[j] by {
            assert(q[i] != q[j]);
        }
    }
    numbers.unique_seq_to_set();
    let all = vstd::set_lib::set_int_range(1, nodes.len() as int);
    vstd::set_lib::lemma_int_range(1, nodes.len() as int);
    assert(numbers.to_set().subset_of(all)) by {
        assert forall|n: int| numbers.to_set().contains(n) implies all.contains(n) by {
            let i = choose|i: int| 0 <= i < numbers.len() && numbers[i] == n;
            assert(in_range(nodes, q[i]));
        }
    }
    vstd::set_lib::lemma_len_subset(numbers.to_set(), all);
}

/// The total only depends on the quantities of the slots summed over.
pub proof fn lemma_slots_total_frame(a: Seq<Node>, b: Seq<Node>, q: Seq<SlabIndex>)
    requires
        forall|i: int|
            0 <= i < q.len() ==> a[(#[trigger] q[i]).0 as int].quantity
                == b[q[i].0 as int].quantity,
    ensures
        slots_total(a, q) == slots_total(b, q),
    decreases q.len(),
{
    if q.len() > 0 {
        assert(q[0] == q[0]);
        assert forall|i: int| 0 <= i < q.drop_first().len() implies a[(
        #[trigger] q.drop_first()[i]).0 as int].quantity == b[q.drop_first()[i].0 as int].quantity by {
            assert(q.drop_first()[i] == q[i + 1]);
        }
        lemma_slots_total_frame(a, b, q.drop_first());
    }
}

/// Removing a slot takes its quantity out of the total.
pub proof fn lemma_slots_total_remove(nodes: Seq<Node>, q: Seq<SlabIndex>, pos: int)
    requires
        0 <= pos < q.len(),
    ensures
        slots_total(nodes, q) == slots_total(nodes, q.remove(pos))
            + nodes[q[pos].0 as int].quantity,
    decreases q.len(),
{
    if pos == 0 {
        assert(q.remove(0) =~= q.drop_first());
    } else {
        lemma_slots_total_remove(nodes, q.drop_first(), pos - 1);
        assert(q.remove(pos).drop_first() =~= q.drop_first().remove(pos - 1));
    }
}

/// Appending a slot adds its quantity to the total.
pub proof fn lemma_slots_total_push(nodes: Seq<Node>, q: Seq<SlabIndex>, idx: SlabIndex)
    ensures
        slots_total(nodes, q.push(idx)) == slots_total(nodes, q) + nodes[idx.0 as int].quantity,
    decreases q.len(),
{
    let p = q.push(idx);
    if q.len() > 0 {
        lemma_slots_total_push(nodes, q.drop_first(), idx);
        assert(p.drop_first() =~= q.drop_first().push(idx));
    } else {
        assert(p.drop_first() =~= Seq::empty());
        assert(slots_total(nodes, p.drop_first()) == 0);
    }
}

/// Storage whose slots can be linked into queues.
pub trait Links: Sized {
    /// Whatever a slot holds besides its [`Node`].
    type Rest;

    /// The linkable part of every slot; slot 0 is the unused one.
    spec fn nodes(&self) -> Seq<Node>;

    /// The freelist, next slot to hand out first.
    spec fn free_list(&self) -> Seq<SlabIndex>;

    /// What the slots hold besides their nodes.
    spec fn rest(&self) -> Self::Rest;

    /// The representation is consistent; in particular `free` is a freelist.
    spec fn wf(&self) -> bool;

    /// What every consistent storage satisfies.
    proof fn lemma_wf(&self)
        requires
            self.wf(),
        ensures
            1 <= self.nodes().len() <= u32::MAX + 1,
            freelist(self.nodes(), self.free_list(), first(self.free_list())),
    ;

    fn node(&self, idx: SlabIndex) -> (r: Node)
        requires
            self.wf(),
            in_range(self.nodes(), idx),
        ensures
            r == self.nodes()[idx.0 as int],
    ;

    fn set_prev(&mut self, idx: SlabIndex, prev: Option<SlabIndex>)
        requires
            old(self).wf(),
            in_range(old(self).nodes(), idx),
            !old(self).free_list().contains(idx),
        ensures
            final(self).wf(),
            final(self).nodes() == old(self).nodes().update(
                idx.0 as int,
                Node { prev, ..old(self).nodes()[idx.0 as int] },
            ),
            final(self).free_list() == old(self).free_list(),
            final(self).rest() == old(self).rest(),
    ;

    fn set_next(&mut self, idx: SlabIndex, next: Option<SlabIndex>)
        requires
            old(self).wf(),
            in_range(old(self).nodes(), idx),
            !old(self).free_list().contains(idx),
        ensures
            final(self).wf(),
            final(self).nodes() == old(self).nodes().update(
                idx.0 as int,
                Node { next, ..old(self).nodes()[idx.0 as int] },
            ),
            final(self).free_list() == old(self).free_list(),
            final(self).rest() == old(self).rest(),
    ;
}

/// Storage that a matcher can sweep.
pub trait Arena: Links {
    /// What a fill names the order by.
    type Id;

    /// The name of the order in slot `idx`, resting on `side`.
    spec fn id_in(rest: Self::Rest, side: Side, idx: SlabIndex) -> Self::Id;

    /// The rest of the storage once the order in slot `idx` is gone.
    spec fn retired(rest: Self::Rest, idx: SlabIndex) -> Self::Rest;

    /// Retiring one slot leaves the names of the others alone.
    proof fn lemma_retired(rest: Self::Rest, side: Side, gone: SlabIndex, kept: SlabIndex)
        requires
            gone != kept,
        ensures
            Self::id_in(Self::retired(rest, gone), side, kept) == Self::id_in(rest, side, kept),
    ;

    fn id(&self, side: Side, idx: SlabIndex) -> (r: Self::Id)
        requires
            self.wf(),
            in_range(self.nodes(), idx),
        ensures
            r == Self::id_in(self.rest(), side, idx),
    ;

    fn set_quantity(&mut self, idx: SlabIndex, quantity: u64)
        requires
            old(self).wf(),
            in_range(old(self).nodes(), idx),
            !old(self).free_list().contains(idx),
        ensures
            final(self).wf(),
            final(self).nodes() == old(self).nodes().update(
                idx.0 as int,
                Node { quantity, ..old(self).nodes()[idx.0 as int] },
            ),
            final(self).free_list() == old(self).free_list(),
            final(self).rest() == old(self).rest(),
    ;

    /// The order in slot `idx` is gone; the slot stays linked where it is.
    fn retire(&mut self, idx: SlabIndex)
        requires
            old(self).wf(),
            in_range(old(self).nodes(), idx),
        ensures
            final(self).wf(),
            final(self).nodes() == old(self).nodes(),
            final(self).free_list() == old(self).free_list(),
            final(self).rest() == Self::retired(old(self).rest(), idx),
    ;

    /// Put a chain of slots, already linked from `head` to `tail`, in front of
    /// the freelist.
    fn splice(&mut self, head: SlabIndex, tail: SlabIndex, Ghost(chain): Ghost<Seq<SlabIndex>>)
        requires
            old(self).wf(),
            first(chain) == Some(head),
            last(chain) == Some(tail),
            distinct_slots(old(self).nodes(), chain),
            linked(old(self).nodes(), chain, old(self).nodes()[tail.0 as int].next),
            apart(chain, old(self).free_list()),
        ensures
            final(self).wf(),
            final(self).nodes() == old(self).nodes().update(
                tail.0 as int,
                Node { next: first(old(self).free_list()), ..old(self).nodes()[tail.0 as int] },
            ),
            final(self).free_list() == chain + old(self).free_list(),
            final(self).rest() == old(self).rest(),
    ;
}

/// The rest of the storage once the orders in `gone` are gone, in that order.
pub open spec fn retired_all<A: Arena>(rest: A::Rest, gone: Seq<SlabIndex>) -> A::Rest
    decreases gone.len(),
{
    if gone.len() == 0 {
        rest
    } else {
        A::retired(retired_all::<A>(rest, gone.drop_last()), gone.last())
    }
}

/// Retiring some slots leaves the names of the others alone.
pub proof fn lemma_retired_all<A: Arena>(
    rest: A::Rest,
    gone: Seq<SlabIndex>,
    side: Side,
    kept: SlabIndex,
)
    requires
        !gone.contains(kept),
    ensures
        A::id_in(retired_all::<A>(rest, gone), side, kept) == A::id_in(rest, side, kept),
    decreases gone.len(),
{
    if gone.len() > 0 {
        assert(gone[gone.len() - 1] == gone.last());
        assert forall|i: int| 0 <= i < gone.drop_last().len() implies gone.drop_last()[i] != kept by {
            assert(gone[i] == gone.drop_last()[i]);
        }
        lemma_retired_all::<A>(rest, gone.drop_last(), side, kept);
        A::lemma_retired(retired_all::<A>(rest, gone.drop_last()), side, gone.last(), kept);
    }
}

/// Retiring some slots and then some more.
pub proof fn lemma_retired_concat<A: Arena>(
    rest: A::Rest,
    some: Seq<SlabIndex>,
    more: Seq<SlabIndex>,
)
    ensures
        retired_all::<A>(retired_all::<A>(rest, some), more) == retired_all::<A>(rest, some + more),
    decreases more.len(),
{
    if more.len() == 0 {
        assert(some + more =~= some);
    } else {
        lemma_retired_concat::<A>(rest, some, more.drop_last());
        assert((some + more).drop_last() =~= some + more.drop_last());
        assert((some + more).last() == more.last());
    }
}

/// The freelist of a fresh slab: slots 1, 2, ... in order.
pub open spec fn fresh(capacity: nat) -> Seq<SlabIndex> {
    Seq::new(capacity, |i: int| SlabIndex((i + 1) as u32))
}

/// A chain of slots put in front of a freelist makes a longer freelist.
pub proof fn lemma_spliced(nodes: Seq<Node>, chain: Seq<SlabIndex>, free: Seq<SlabIndex>)
    requires
        freelist(nodes, free, first(free)),
        chain.len() > 0,
        distinct_slots(nodes, chain),
        linked(nodes, chain, nodes[chain.last().0 as int].next),
        apart(chain, free),
    ensures
        ({
            let tail = chain.last().0 as int;
            let after = nodes.update(tail, Node { next: first(free), ..nodes[tail] });
            freelist(after, chain + free, first(chain))
        }),
{
    let tail = chain.last().0 as int;
    let after = nodes.update(tail, Node { next: first(free), ..nodes[tail] });
    let all = chain + free;
    assert(in_range(nodes, chain[chain.len() - 1]));
    assert forall|i: int| 0 <= i < all.len() implies in_range(after, #[trigger] all[i]) by {
        if i >= chain.len() {
            assert(in_range(nodes, free[i - chain.len()]));
        }
    }
    assert forall|i: int, j: int| 0 <= i < all.len() && 0 <= j < all.len() && i != j implies all[i]
        != all[j] by {
        if i < chain.len() && j >= chain.len() {
            assert(!free.contains(chain[i]));
            assert(free.contains(free[j - chain.len()]));
        } else if j < chain.len() && i >= chain.len() {
            assert(!free.contains(chain[j]));
            assert(free.contains(free[i - chain.len()]));
        }
    }
    assert forall|i: int| 0 <= i < all.len() implies #[trigger] leads(after, all, i, None) by {
        if i < chain.len() - 1 {
            assert(leads(nodes, chain, i, nodes[tail].next));
            assert(chain[i] != chain[chain.len() - 1]);
        } else if i == chain.len() - 1 {
        } else {
            let j = i - chain.len();
            assert(leads(nodes, free, j, None));
            assert(free[j] != chain.last()) by {
                assert(!free.contains(chain[chain.len() - 1]));
            }
        }
    }
}

/// A freelist without its first slot is the freelist from the slot behind it.
pub proof fn lemma_freelist_pop(nodes: Seq<Node>, free: Seq<SlabIndex>)
    requires
        freelist(nodes, free, first(free)),
        free.len() > 0,
    ensures
        freelist(nodes, free.drop_first(), nodes[free[0].0 as int].next),
        !free.drop_first().contains(free[0]),
{
    let fewer = free.drop_first();
    assert(leads(nodes, free, 0, None));
    assert forall|i: int| 0 <= i < fewer.len() implies #[trigger] leads(nodes, fewer, i, None) by {
        assert(leads(nodes, free, i + 1, None));
    }
    assert forall|i: int| 0 <= i < fewer.len() implies in_range(nodes, #[trigger] fewer[i])
        && fewer[i] != free[0] by {
        assert(fewer[i] == free[i + 1]);
    }
}

/// A freelist only depends on its own slots.
pub proof fn lemma_freelist_frame(a: Seq<Node>, b: Seq<Node>, free: Seq<SlabIndex>)
    requires
        freelist(a, free, first(free)),
        a.len() == b.len(),
        forall|i: int|
            0 <= i < free.len() ==> b[(#[trigger] free[i]).0 as int].next
                == a[free[i].0 as int].next,
    ensures
        freelist(b, free, first(free)),
{
    assert forall|i: int| 0 <= i < free.len() implies #[trigger] leads(b, free, i, None) by {
        assert(leads(a, free, i, None));
    }
    assert forall|i: int| 0 <= i < free.len() implies in_range(b, #[trigger] free[i]) by {
        assert(in_range(a, free[i]));
    }
}

/// The slots of a fresh slab, each pointing at the one behind it, form its
/// freelist.
pub proof fn lemma_fresh(nodes: Seq<Node>, capacity: nat)
    requires
        nodes.len() == capacity + 1,
        capacity <= u32::MAX,
        forall|n: int|
            1 <= n <= capacity ==> (#[trigger] nodes[n]).next == (if n < capacity {
                Some(SlabIndex((n + 1) as u32))
            } else {
                None
            }),
    ensures
        freelist(nodes, fresh(capacity), first(fresh(capacity))),
        forall|idx: SlabIndex| in_range(nodes, idx) ==> #[trigger] fresh(capacity).contains(idx),
{
    let free = fresh(capacity);
    assert forall|i: int| 0 <= i < free.len() implies #[trigger] leads(nodes, free, i, None) by {
        assert(free[i].0 == i + 1);
    }
    assert forall|idx: SlabIndex| in_range(nodes, idx) implies #[trigger] free.contains(idx) by {
        assert(free[idx.0 - 1] == idx);
    }
}

/// How many times every slot can be moved on to its next generation before one
/// of them goes beyond `top`.
pub open spec fn margin(generations: Seq<u32>, top: u32) -> nat
    decreases generations.len(),
{
    if generations.len() == 0 {
        top as nat
    } else {
        let others = margin(generations.drop_last(), top);
        let own = top - generations.last();
        if own < others {
            own as nat
        } else {
            others
        }
    }
}

/// What the margin says of every slot.
pub proof fn lemma_margin(generations: Seq<u32>, top: u32, n: nat)
    requires
        forall|k: int| 0 <= k < generations.len() ==> #[trigger] generations[k] <= top,
    ensures
        n <= margin(generations, top) <==> n <= top && forall|k: int|
            0 <= k < generations.len() ==> #[trigger] generations[k] + n <= top,
    decreases generations.len(),
{
    if generations.len() > 0 {
        let front = generations.drop_last();
        assert forall|k: int| 0 <= k < front.len() implies #[trigger] front[k] <= top by {
            assert(generations[k] <= top);
        }
        lemma_margin(front, top, n);
        let last = generations.len() - 1;
        assert(generations[last] <= top);
        if n <= margin(generations, top) {
            assert forall|k: int| 0 <= k < generations.len() implies #[trigger] generations[k] + n
                <= top by {
                if k < last {
                    assert(front[k] + n <= top);
                }
            }
        }
        if n <= top && forall|k: int|
            0 <= k < generations.len() ==> #[trigger] generations[k] + n <= top {
            assert(generations[last] + n <= top);
            assert forall|k: int| 0 <= k < front.len() implies #[trigger] front[k] + n <= top by {
                assert(generations[k] + n <= top);
            }
        }
    }
}

} // verus!
