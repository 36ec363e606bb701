//! One price level: a first-in, first-out queue of the orders at a price.

use vstd::prelude::*;

use crate::arena::{
    apart, before, behind, distinct_slots, first, follows, in_range, last, leads,
    lemma_distinct_slots_len, lemma_retired_all, lemma_slots_total_frame, lemma_slots_total_push,
    lemma_slots_total_remove, queue, retired_all, slots_total, Arena, Links, Node, SlabIndex,
};
use crate::fills::{delivered, lemma_delivered_none, lemma_delivered_push, FillSink};
use crate::model::{queue_total, take, Lot};
use crate::types::{Price, Side};

verus! {

/// A price level. `head` is the oldest order, `tail` the newest.
pub struct PriceLevel {
    pub price: Price,
    /// Total quantity resting at this price.
    pub quantity: u64,
    pub head: Option<SlabIndex>,
    pub tail: Option<SlabIndex>,
    pub order_count: u32,
    /// The slots of the queue, oldest first.
    pub slots: Ghost<Seq<SlabIndex>>,
}

/// What filling the orders of one level came to.
pub(crate) struct Consumed {
    /// The quantity that found no order.
    pub(crate) remaining: u64,
    /// The first and the last slot of the orders that were filled completely.
    pub(crate) freed: Option<(SlabIndex, SlabIndex)>,
    /// No order is left.
    pub(crate) drained: bool,
}

/// `nodes` with the slot at position `pos` of the queue `q` bypassed: the
/// orders around it point at each other.
pub open spec fn bypassed(nodes: Seq<Node>, q: Seq<SlabIndex>, pos: int) -> Seq<Node> {
    let ahead = if pos == 0 {
        nodes
    } else {
        let p = q[pos - 1].0 as int;
        nodes.update(p, Node { next: behind(q, pos, None), ..nodes[p] })
    };
    if pos == q.len() - 1 {
        ahead
    } else {
        let n = q[pos + 1].0 as int;
        ahead.update(n, Node { prev: before(q, pos), ..ahead[n] })
    }
}

/// `nodes` with slot `idx` appended to the queue `q`.
pub open spec fn appended(nodes: Seq<Node>, q: Seq<SlabIndex>, idx: SlabIndex) -> Seq<Node> {
    let n = idx.0 as int;
    let linked_back = nodes.update(n, Node { prev: last(q), ..nodes[n] });
    if q.len() == 0 {
        linked_back
    } else {
        let t = q[q.len() - 1].0 as int;
        linked_back.update(t, Node { next: Some(idx), ..linked_back[t] })
    }
}

impl PriceLevel {
    /// The level describes the queue `self.slots` threaded through `nodes`.
    pub open spec fn wf(&self, nodes: Seq<Node>) -> bool {
        &&& queue(nodes, self.slots@)
        &&& self.head == first(self.slots@)
        &&& self.tail == last(self.slots@)
        &&& self.quantity == slots_total(nodes, self.slots@)
        &&& self.order_count == self.slots@.len()
    }

    /// An empty level.
    pub fn new(price: Price) -> (r: Self)
        ensures
            r.price == price,
            r.slots@ == Seq::<SlabIndex>::empty(),
            r.head is None,
            r.tail is None,
            r.quantity == 0,
            r.order_count == 0,
    {
        PriceLevel {
            price,
            quantity: 0,
            head: None,
            tail: None,
            order_count: 0,
            slots: Ghost(Seq::empty()),
        }
    }

    pub fn is_empty(&self) -> (r: bool)
        ensures
            r <==> self.head is None,
    {
        self.head.is_none()
    }

    /// Take the order in slot `idx` out of the queue, wherever it stands. The
    /// slot itself is left as it is.
    pub fn remove<A: Links>(&mut self, idx: SlabIndex, slab: &mut A)
        requires
            old(slab).wf(),
            old(self).wf(old(slab).nodes()),
            apart(old(self).slots@, old(slab).free_list()),
            old(self).slots@.contains(idx),
        ensures
            final(slab).wf(),
            final(slab).free_list() == old(slab).free_list(),
            final(slab).rest() == old(slab).rest(),
            final(slab).nodes() == bypassed(
                old(slab).nodes(),
                old(self).slots@,
                old(self).slots@.index_of(idx),
            ),
            final(self).wf(final(slab).nodes()),
            final(self).price == old(self).price,
            final(self).slots@ == old(self).slots@.remove(old(self).slots@.index_of(idx)),
    {
        let ghost q = self.slots@;
        let ghost pos = q.index_of(idx);
        let ghost nodes = slab.nodes();
        assert(q[pos] == idx && leads(nodes, q, pos, None) && follows(nodes, q, pos));

        let o = slab.node(idx);
        let (prev, next, qty) = (o.prev, o.next, o.quantity);
        proof {
            lemma_slots_total_remove(nodes, q, pos);
            lemma_bypassed(nodes, q, pos);
        }

        // Patch the previous order's `next` link, or the head.
        match prev {
            Some(p_idx) => {
                assert(q[pos - 1] == p_idx);
                slab.set_next(p_idx, next);
            },
            None => {
                self.head = next;
            },
        }

        // Patch the next order's `prev` link, or the tail.
        match next {
            Some(n_idx) => {
                assert(q[pos + 1] == n_idx);
                slab.set_prev(n_idx, prev);
            },
            None => {
                self.tail = prev;
            },
        }

        self.quantity = self.quantity - qty;
        self.order_count = self.order_count - 1;
        self.slots = Ghost(q.remove(pos));
        proof {
            lemma_slots_total_frame(nodes, slab.nodes(), q.remove(pos));
        }
    }

    /// Fill the orders of the queue from the front until `quantity` is used up
    /// or the queue is drained, handing each fill to `sink`. Orders that are
    /// filled completely are retired but stay linked to each other.
    pub(crate) fn consume<A: Arena, S: FillSink<A::Id>>(
        &mut self,
        head: SlabIndex,
        arena: &mut A,
        sink: &mut S,
        side: Side,
        quantity: u64,
    ) -> (r: Consumed)
        requires
            old(arena).wf(),
            old(self).wf(old(arena).nodes()),
            apart(old(self).slots@, old(arena).free_list()),
            old(self).head == Some(head),
            quantity > 0,
        ensures
            ({
                let q = old(self).slots@;
                let nodes = old(arena).nodes();
                let t = take(lots(nodes, q), quantity);
                let k = t.spent as int;
                &&& 0 <= k <= q.len()
                &&& r.remaining == t.left
                &&& r.drained == (t.rest.len() == 0)
                &&& r.freed == (if k == 0 {
                    None
                } else {
                    Some((q[0], q[k - 1]))
                })
                &&& final(arena).wf()
                &&& final(arena).free_list() == old(arena).free_list()
                &&& final(arena).rest() == retired_all::<A>(old(arena).rest(), q.take(k))
                &&& final(arena).nodes() == trimmed(nodes, q, k, t.rest[0].quantity)
                &&& final(self).wf(final(arena).nodes())
                &&& final(self).price == old(self).price
                &&& final(self).slots@ == q.skip(k)
                &&& lots(final(arena).nodes(), q.skip(k)) == t.rest
                &&& delivered(
                    *old(sink),
                    named::<A>(old(arena).rest(), side, t.fills),
                    *final(sink),
                )
            }),
    {
        let ghost q = self.slots@;
        let ghost nodes = arena.nodes();
        let ghost rest = arena.rest();
        let ghost all = lots(nodes, q);
        let ghost pre = *sink;
        let ghost this = *self;
        let mut remaining = quantity;
        let mut current_idx = head;
        let mut last_freed = head;
        let mut consumed_qty: u64 = 0;
        let mut consumed_count: u32 = 0;
        proof {
            assert(all.take(0) =~= Seq::empty());
            assert(named::<A>(rest, side, all.take(0)) =~= Seq::empty());
            lemma_delivered_none::<A::Id, S>(pre);
            assert(all.skip(0) =~= all);
            assert(q.take(0) =~= Seq::empty());
            assert(q.skip(0) =~= q);
            assert(Seq::empty() + take(all, quantity).fills =~= take(all, quantity).fills);
        }

        loop
            invariant
                arena.wf(),
                arena.nodes() == nodes,
                arena.free_list() == old(arena).free_list(),
                *self == this,
                this == *old(self),
                pre == *old(sink),
                rest == old(arena).rest(),
                nodes == old(arena).nodes(),
                this.wf(nodes),
                q == this.slots@,
                all == lots(nodes, q),
                apart(q, arena.free_list()),
                0 <= consumed_count < q.len(),
                current_idx == q[consumed_count as int],
                consumed_count == 0 ==> head == q[0],
                consumed_count > 0 ==> last_freed == q[consumed_count - 1] && head == q[0],
                remaining > 0,
                consumed_qty + slots_total(nodes, q.skip(consumed_count as int)) == this.quantity,
                arena.rest() == retired_all::<A>(rest, q.take(consumed_count as int)),
                delivered(pre, named::<A>(rest, side, all.take(consumed_count as int)), *sink),
                ({
                    let t = take(all, quantity);
                    let u = take(all.skip(consumed_count as int), remaining);
                    &&& t.fills == all.take(consumed_count as int) + u.fills
                    &&& t.rest == u.rest
                    &&& t.left == u.left
                    &&& t.spent == consumed_count + u.spent
                }),
            decreases q.len() - consumed_count,
        {
            let ghost i = consumed_count as int;
            let slot = arena.node(current_idx);
            let resting_id = arena.id(side, current_idx);
            let fill_qty = if remaining < slot.quantity {
                remaining
            } else {
                slot.quantity
            };
            remaining = remaining - fill_qty;
            let ghost mid = *sink;
            sink.deliver(resting_id, fill_qty);

            proof {
                let fill = Lot { id: q[i], quantity: fill_qty };
                assert(!q.take(i).contains(q[i]));
                lemma_retired_all::<A>(rest, q.take(i), side, q[i]);
                lemma_delivered_push(
                    pre,
                    named::<A>(rest, side, all.take(i)),
                    mid,
                    Lot { id: resting_id, quantity: fill_qty },
                    *sink,
                );
                assert(named::<A>(rest, side, all.take(i)).push(
                    Lot { id: resting_id, quantity: fill_qty },
                ) =~= named::<A>(rest, side, all.take(i).push(fill)));
                assert(all.skip(i)[0] == all[i]);
                assert(all.skip(i).drop_first() =~= all.skip(i + 1));
                assert(q.skip(i)[0] == q[i]);
                assert(q.skip(i).drop_first() =~= q.skip(i + 1));
                assert(leads(nodes, q, i, None));
            }

            if fill_qty == slot.quantity {
                // Filled completely. The slot stays linked to the next one.
                arena.retire(current_idx);
                consumed_qty = consumed_qty + fill_qty;
                consumed_count = consumed_count + 1;
                last_freed = current_idx;
                proof {
                    assert(all.take(i).push(all[i]) =~= all.take(i + 1));
                    assert(q.take(i + 1).drop_last() =~= q.take(i));
                    let t = take(all, quantity);
                    let u = take(all.skip(i + 1), remaining);
                    assert(t.fills =~= all.take(i + 1) + u.fills);
                }

                match slot.next {
                    Some(n) => {
                        assert(n == q[i + 1]);
                        if remaining == 0 {
                            // Satisfied; `n` is the new head.
                            arena.set_prev(n, None);
                            self.head = Some(n);
                            self.quantity = self.quantity - consumed_qty;
                            self.order_count = self.order_count - consumed_count;
                            self.slots = Ghost(q.skip(i + 1));
                            proof {
                                lemma_trimmed(nodes, q, i + 1, nodes[n.0 as int].quantity);
                                lemma_trimmed_lots(nodes, q, i + 1, nodes[n.0 as int].quantity);
                                assert(take(all, quantity).fills =~= all.take(i + 1));
                                assert(all.skip(i + 1)[0].quantity == nodes[n.0 as int].quantity);
                                assert(all.skip(i + 1).update(0, all.skip(i + 1)[0]) =~= all.skip(
                                    i + 1,
                                ));
                            }
                            return Consumed {
                                remaining,
                                freed: Some((head, last_freed)),
                                drained: false,
                            };
                        }
                        current_idx = n;
                    },
                    None => {
                        // The level is drained.
                        self.head = None;
                        self.tail = None;
                        self.quantity = 0;
                        self.order_count = 0;
                        self.slots = Ghost(q.skip(i + 1));
                        proof {
                            assert(i + 1 == q.len());
                            assert(all.skip(i + 1) =~= Seq::empty());
                            assert(take(all, quantity).fills =~= all.take(i + 1));
                            lemma_trimmed(nodes, q, i + 1, 0);
                            assert(q.skip(i + 1) =~= Seq::empty());
                            assert(lots(nodes, q.skip(i + 1)) =~= Seq::empty());
                        }
                        return Consumed {
                            remaining,
                            freed: Some((head, last_freed)),
                            drained: true,
                        };
                    },
                }
            } else {
                // Filled in part, which uses up the quantity. The order
                // survives as the new head.
                arena.set_quantity(current_idx, slot.quantity - fill_qty);
                arena.set_prev(current_idx, None);
                consumed_qty = consumed_qty + fill_qty;
                self.head = Some(current_idx);
                self.quantity = self.quantity - consumed_qty;
                self.order_count = self.order_count - consumed_count;
                self.slots = Ghost(q.skip(i));
                proof {
                    let left = (slot.quantity - fill_qty) as u64;
                    lemma_trimmed(nodes, q, i, left);
                    lemma_trimmed_lots(nodes, q, i, left);
                    assert(arena.nodes() =~= trimmed(nodes, q, i, left));
                    assert(take(all, quantity).rest[0].quantity == left);
                    assert(take(all, quantity).fills =~= all.take(i).push(
                        Lot { id: q[i], quantity: fill_qty },
                    ));
                }
                return Consumed {
                    remaining,
                    freed: if consumed_count > 0 {
                        Some((head, last_freed))
                    } else {
                        None
                    },
                    drained: false,
                };
            }
        }
    }

    /// Append the order in slot `idx` to the queue.
    pub fn push_order_to_l2_level_and_update_slab_links<A: Links>(
        &mut self,
        idx: SlabIndex,
        slab: &mut A,
    )
        requires
            old(slab).wf(),
            old(self).wf(old(slab).nodes()),
            apart(old(self).slots@, old(slab).free_list()),
            in_range(old(slab).nodes(), idx),
            !old(slab).free_list().contains(idx),
            !old(self).slots@.contains(idx),
            old(slab).nodes()[idx.0 as int].next is None,
            old(self).quantity + old(slab).nodes()[idx.0 as int].quantity <= u64::MAX,
        ensures
            final(slab).wf(),
            final(slab).free_list() == old(slab).free_list(),
            final(slab).rest() == old(slab).rest(),
            final(slab).nodes() == appended(old(slab).nodes(), old(self).slots@, idx),
            final(self).wf(final(slab).nodes()),
            final(self).price == old(self).price,
            final(self).slots@ == old(self).slots@.push(idx),
    {
        let ghost q = self.slots@;
        let ghost nodes = slab.nodes();
        proof {
            slab.lemma_wf();
            lemma_appended(nodes, q, idx);
            lemma_distinct_slots_len(appended(nodes, q, idx), q.push(idx));
            lemma_slots_total_push(nodes, q, idx);
        }

        slab.set_prev(idx, self.tail);

        if let Some(tail_idx) = self.tail {
            // The previous tail now points at the new one.
            slab.set_next(tail_idx, Some(idx));
        } else {
            // The queue was empty; the new order is also the head.
            self.head = Some(idx);
        }

        self.tail = Some(idx);
        let o = slab.node(idx);
        self.quantity = self.quantity + o.quantity;
        self.order_count = self.order_count + 1;
        self.slots = Ghost(q.push(idx));
        proof {
            lemma_slots_total_frame(nodes, slab.nodes(), q.push(idx));
        }
    }
}

/// The lots that the slots of `q` hold, named by their slots.
pub open spec fn lots(nodes: Seq<Node>, q: Seq<SlabIndex>) -> Seq<Lot<SlabIndex>> {
    q.map_values(|idx: SlabIndex| Lot { id: idx, quantity: nodes[idx.0 as int].quantity })
}

/// Lots named by slots, with the names that `rest` gives them.
pub open spec fn named<A: Arena>(
    rest: A::Rest,
    side: Side,
    some: Seq<Lot<SlabIndex>>,
) -> Seq<Lot<A::Id>> {
    some.map_values(
        |l: Lot<SlabIndex>| Lot { id: A::id_in(rest, side, l.id), quantity: l.quantity },
    )
}

/// `nodes` with the front `k` slots of the queue `q` cut off: the new front
/// order, if any, has nothing before it and `quantity` left.
pub open spec fn trimmed(
    nodes: Seq<Node>,
    q: Seq<SlabIndex>,
    k: int,
    quantity: u64,
) -> Seq<Node> {
    if k < q.len() {
        nodes.update(q[k].0 as int, Node { prev: None, quantity, ..nodes[q[k].0 as int] })
    } else {
        nodes
    }
}

/// The queue total is the total of its lots.
pub proof fn lemma_lots_total(nodes: Seq<Node>, q: Seq<SlabIndex>)
    ensures
        queue_total(lots(nodes, q)) == slots_total(nodes, q),
    decreases q.len(),
{
    if q.len() > 0 {
        lemma_lots_total(nodes, q.drop_first());
        assert(lots(nodes, q).drop_first() =~= lots(nodes, q.drop_first()));
    }
}

/// Cutting the front off a queue leaves a queue.
pub proof fn lemma_trimmed(nodes: Seq<Node>, q: Seq<SlabIndex>, k: int, quantity: u64)
    requires
        queue(nodes, q),
        0 <= k <= q.len(),
    ensures
        queue(trimmed(nodes, q, k, quantity), q.skip(k)),
        k < q.len() ==> slots_total(trimmed(nodes, q, k, quantity), q.skip(k)) == slots_total(
            nodes,
            q.skip(k),
        ) - nodes[q[k].0 as int].quantity + quantity,
{
    let r = q.skip(k);
    let b = trimmed(nodes, q, k, quantity);
    if k < q.len() {
        assert(in_range(nodes, q[k]));
        assert(r[0] == q[k]);
        lemma_slots_total_frame(nodes, b, r.drop_first());
    }
    assert(distinct_slots(b, r)) by {
        assert forall|i: int| 0 <= i < r.len() implies in_range(b, #[trigger] r[i]) by {
            assert(in_range(nodes, q[i + k]));
        }
    }
    assert forall|i: int| 0 <= i < r.len() implies #[trigger] leads(b, r, i, None) by {
        assert(r[i] == q[i + k] && leads(nodes, q, i + k, None));
    }
    assert forall|i: int| 0 <= i < r.len() implies #[trigger] follows(b, r, i) by {
        assert(r[i] == q[i + k] && follows(nodes, q, i + k));
    }
}

/// The lots left after cutting the front off a queue.
pub proof fn lemma_trimmed_lots(nodes: Seq<Node>, q: Seq<SlabIndex>, k: int, quantity: u64)
    requires
        queue(nodes, q),
        0 <= k < q.len(),
    ensures
        lots(trimmed(nodes, q, k, quantity), q.skip(k)) == lots(nodes, q).skip(k).update(
            0,
            Lot { id: q[k], quantity },
        ),
{
    let b = trimmed(nodes, q, k, quantity);
    assert(in_range(nodes, q[k]));
    assert forall|i: int| 0 <= i < q.skip(k).len() implies lots(b, q.skip(k))[i] == lots(
        nodes,
        q,
    ).skip(k).update(0, Lot { id: q[k], quantity })[i] by {
        assert(q.skip(k)[i] == q[i + k]);
        assert(in_range(nodes, q[i + k]));
    }
    assert(lots(b, q.skip(k)) =~= lots(nodes, q).skip(k).update(0, Lot { id: q[k], quantity }));
}

/// Bypassing a slot of a queue leaves a queue without it, and keeps every
/// price and quantity.
pub proof fn lemma_bypassed(nodes: Seq<Node>, q: Seq<SlabIndex>, pos: int)
    requires
        queue(nodes, q),
        0 <= pos < q.len(),
    ensures
        bypassed(nodes, q, pos).len() == nodes.len(),
        queue(bypassed(nodes, q, pos), q.remove(pos)),
        forall|n: int|
            0 <= n < nodes.len() ==> (#[trigger] bypassed(nodes, q, pos)[n]).price
                == nodes[n].price && bypassed(nodes, q, pos)[n].quantity == nodes[n].quantity,
        forall|idx: SlabIndex|
            #![trigger bypassed(nodes, q, pos)[idx.0 as int]]
            in_range(nodes, idx) && (!q.contains(idx) || idx == q[pos]) ==> bypassed(
                nodes,
                q,
                pos,
            )[idx.0 as int] == nodes[idx.0 as int],
{
    let r = q.remove(pos);
    let b = bypassed(nodes, q, pos);
    if pos > 0 {
        assert(in_range(nodes, q[pos - 1]));
    }
    if pos < q.len() - 1 {
        assert(in_range(nodes, q[pos + 1]));
    }
    assert(distinct_slots(b, r)) by {
        assert forall|i: int| 0 <= i < r.len() implies in_range(b, #[trigger] r[i]) by {
            assert(in_range(nodes, q[if i < pos { i } else { i + 1 }]));
        }
    }
    assert forall|i: int| 0 <= i < r.len() implies #[trigger] leads(b, r, i, None) by {
        let j = if i < pos { i } else { i + 1 };
        assert(r[i] == q[j] && leads(nodes, q, j, None) && leads(nodes, q, pos, None));
    }
    assert forall|i: int| 0 <= i < r.len() implies #[trigger] follows(b, r, i) by {
        let j = if i < pos { i } else { i + 1 };
        assert(r[i] == q[j] && follows(nodes, q, j) && follows(nodes, q, pos));
    }
}

/// Appending a slot to a queue leaves a queue that ends in it, and keeps every
/// price and quantity.
pub proof fn lemma_appended(nodes: Seq<Node>, q: Seq<SlabIndex>, idx: SlabIndex)
    requires
        queue(nodes, q),
        in_range(nodes, idx),
        !q.contains(idx),
        nodes[idx.0 as int].next is None,
    ensures
        appended(nodes, q, idx).len() == nodes.len(),
        queue(appended(nodes, q, idx), q.push(idx)),
        forall|n: int|
            0 <= n < nodes.len() ==> (#[trigger] appended(nodes, q, idx)[n]).price
                == nodes[n].price && appended(nodes, q, idx)[n].quantity == nodes[n].quantity,
        forall|other: SlabIndex|
            #![trigger appended(nodes, q, idx)[other.0 as int]]
            in_range(nodes, other) && !q.contains(other) && other != idx ==> appended(
                nodes,
                q,
                idx,
            )[other.0 as int] == nodes[other.0 as int],
{
    let r = q.push(idx);
    let b = appended(nodes, q, idx);
    if q.len() > 0 {
        assert(in_range(nodes, q[q.len() - 1]));
    }
    assert(distinct_slots(b, r)) by {
        assert forall|i: int| 0 <= i < r.len() implies in_range(b, #[trigger] r[i]) by {
            if i < q.len() {
                assert(in_range(nodes, q[i]));
            }
        }
    }
    assert forall|i: int| 0 <= i < r.len() implies #[trigger] leads(b, r, i, None) by {
        if i < q.len() {
            assert(r[i] == q[i] && leads(nodes, q, i, None));
        }
    }
    assert forall|i: int| 0 <= i < r.len() implies #[trigger] follows(b, r, i) by {
        if i < q.len() {
            assert(r[i] == q[i] && follows(nodes, q, i));
        }
    }
}

} // verus!
