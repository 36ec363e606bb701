//! Both sides of a book whose orders live in one slab.

use vstd::prelude::*;

use crate::arena::{apart, first, in_range, retired_all, Arena, Links, Node, SlabIndex};
use crate::fills::{delivered, FillSink};
use crate::half_book::{
    all_apart, in_shape, lemma_dropped, lemma_rested, lemma_resting, queue_at, resting, rests,
    swept_slots, tells, ticks, HalfBook, Queues,
};
use crate::level::{lemma_lots_total, lots, named};
use crate::model::{
    crosses, distinct_ids, holds, lemma_sweep_leaves, lots_at, queue_total, sound, sweep, total,
    uncrossed, with_lot, without, Levels, Lot,
};
use crate::types::{Price, Side};

verus! {

/// Both sides of a book, over slots that they share.
pub(crate) struct Sides {
    bids: HalfBook,
    asks: HalfBook,
}

impl Sides {
    /// One of the sides.
    pub closed spec fn half(self, side: Side) -> HalfBook {
        match side {
            Side::Bid => self.bids,
            Side::Ask => self.asks,
        }
    }

    spec fn queues(self, side: Side) -> Queues {
        self.half(side).queues()
    }

    /// What rests on one side, named by slots.
    pub closed spec fn levels(self, nodes: Seq<Node>, side: Side) -> Levels<SlabIndex> {
        resting(nodes, self.queues(side))
    }

    spec fn side_wf(self, nodes: Seq<Node>, free: Seq<SlabIndex>, side: Side) -> bool {
        &&& self.half(side).wf(nodes)
        &&& self.half(side).side() == side
        &&& all_apart(self.queues(side), free)
    }

    /// Each slot either is free or has an order in the queues of one side, and
    /// of one side only. The sides do not cross.
    pub closed spec fn wf(self, nodes: Seq<Node>, free: Seq<SlabIndex>) -> bool {
        &&& self.side_wf(nodes, free, Side::Bid)
        &&& self.side_wf(nodes, free, Side::Ask)
        &&& forall|idx: SlabIndex|
            in_range(nodes, idx) ==> free.contains(idx) || #[trigger] rests(
                nodes,
                self.queues(Side::Bid),
                idx,
            ) || #[trigger] rests(nodes, self.queues(Side::Ask), idx)
        &&& forall|idx: SlabIndex|
            in_range(nodes, idx) ==> !(#[trigger] rests(nodes, self.queues(Side::Bid), idx)
                && #[trigger] rests(nodes, self.queues(Side::Ask), idx))
        &&& uncrossed(self.levels(nodes, Side::Bid), self.levels(nodes, Side::Ask))
    }

    /// What rests on the sides of a consistent book.
    pub proof fn lemma_wf(self, nodes: Seq<Node>, free: Seq<SlabIndex>)
        requires
            self.wf(nodes, free),
        ensures
            forall|side: Side| sound(#[trigger] self.levels(nodes, side)),
            forall|side: Side| distinct_ids(#[trigger] self.levels(nodes, side)),
            forall|side: Side| (#[trigger] self.levels(nodes, side)).dom().finite(),
            forall|side: Side, p: u64| #[trigger]
                self.levels(nodes, side).contains_key(p) ==> self.levels(nodes, side)[p].len() > 0,
            forall|side: Side, idx: SlabIndex| #[trigger]
                holds(self.levels(nodes, side), idx) ==> in_range(nodes, idx) && !free.contains(
                    idx,
                ) && !holds(self.levels(nodes, side.other()), idx),
            forall|idx: SlabIndex|
                in_range(nodes, idx) && !free.contains(idx) ==> #[trigger] holds(
                    self.levels(nodes, Side::Bid),
                    idx,
                ) || #[trigger] holds(self.levels(nodes, Side::Ask), idx),
            uncrossed(self.levels(nodes, Side::Bid), self.levels(nodes, Side::Ask)),
    {
        assert forall|side: Side| #![trigger self.levels(nodes, side)]
            sound(self.levels(nodes, side))
            && (forall|p: u64| #[trigger]
                self.levels(nodes, side).contains_key(p) ==> self.levels(nodes, side)[p].len() > 0)
            && (forall|idx: SlabIndex| #[trigger]
                holds(self.levels(nodes, side), idx) <==> rests(nodes, self.queues(side), idx))
            && (forall|idx: SlabIndex| #[trigger]
                holds(self.levels(nodes, side), idx) ==> in_range(nodes, idx) && !free.contains(
                    idx,
                )) by {
            self.lemma_side(nodes, free, side);
        }
    }

    /// What is kept of the sides of a consistent book fits together.
    pub proof fn lemma_in_shape(self, nodes: Seq<Node>, free: Seq<SlabIndex>, side: Side)
        requires
            self.wf(nodes, free),
        ensures
            in_shape(self.half(side), nodes),
            self.half(side).side() == side,
            tells(self.half(side), self.levels(nodes, side)),
    {
        self.half(side).law_in_shape(nodes);
    }

    proof fn lemma_side(self, nodes: Seq<Node>, free: Seq<SlabIndex>, side: Side)
        requires
            self.side_wf(nodes, free, side),
        ensures
            sound(self.levels(nodes, side)),
            self.levels(nodes, side).dom() == self.queues(side).dom(),
            forall|p: u64| #[trigger]
                self.levels(nodes, side).contains_key(p) ==> self.levels(nodes, side)[p].len() > 0,
            forall|idx: SlabIndex| #[trigger]
                holds(self.levels(nodes, side), idx) <==> rests(nodes, self.queues(side), idx),
            forall|idx: SlabIndex| #[trigger]
                holds(self.levels(nodes, side), idx) ==> in_range(nodes, idx) && !free.contains(
                    idx,
                ),
    {
        let queues = self.queues(side);
        self.half(side).lemma_wf(nodes);
        self.half(side).lemma_sound(nodes);
        lemma_resting(nodes, queues);
        assert forall|idx: SlabIndex| #[trigger] holds(
            self.levels(nodes, side),
            idx,
        ) implies !free.contains(idx) by {
            let p = nodes[idx.0 as int].price;
            let i = queues[p].index_of(idx);
            assert(queues.contains_key(p));
            assert(queues[p][i] == idx);
        }
    }

    /// A side whose slots did not change rests as before.
    proof fn lemma_kept(
        self,
        a: Seq<Node>,
        b: Seq<Node>,
        free: Seq<SlabIndex>,
        now: Seq<SlabIndex>,
        side: Side,
    )
        requires
            self.side_wf(a, free, side),
            a.len() == b.len(),
            forall|idx: SlabIndex|
                #![trigger b[idx.0 as int]]
                in_range(a, idx) && rests(a, self.queues(side), idx) ==> b[idx.0 as int]
                    == a[idx.0 as int],
            forall|idx: SlabIndex|
                in_range(a, idx) && #[trigger] rests(a, self.queues(side), idx) ==> !now.contains(
                    idx,
                ),
        ensures
            self.side_wf(b, now, side),
            self.levels(b, side) == self.levels(a, side),
            forall|idx: SlabIndex|
                in_range(a, idx) ==> (#[trigger] rests(b, self.queues(side), idx) <==> rests(
                    a,
                    self.queues(side),
                    idx,
                )),
    {
        let queues = self.queues(side);
        self.half(side).lemma_frame(a, b);
        self.half(side).lemma_wf(a);
        self.half(side).lemma_wf(b);
        lemma_resting(a, queues);
        lemma_resting(b, queues);
        assert forall|p: u64| #[trigger] queues.contains_key(p) implies apart(queues[p], now) by {
            assert forall|i: int| 0 <= i < queues[p].len() implies !now.contains(
                #[trigger] queues[p][i],
            ) by {
                let idx = queues[p][i];
                assert(in_range(a, idx));
                assert(queues[p].contains(idx));
                assert(rests(a, queues, idx));
            }
        }
        assert forall|idx: SlabIndex| in_range(a, idx) implies (#[trigger] rests(b, queues, idx)
            <==> rests(a, queues, idx)) by {
            assert(holds(resting(b, queues), idx) <==> rests(b, queues, idx));
            assert(holds(resting(a, queues), idx) <==> rests(a, queues, idx));
        }
    }

    pub(crate) fn new() -> (r: Self)
        ensures
            forall|nodes: Seq<Node>, side: Side| #[trigger]
                r.levels(nodes, side) == Levels::<SlabIndex>::empty(),
            forall|nodes: Seq<Node>, free: Seq<SlabIndex>|
                (forall|idx: SlabIndex| in_range(nodes, idx) ==> #[trigger] free.contains(idx))
                    ==> #[trigger] r.wf(nodes, free),
    {
        let r = Sides { bids: HalfBook::new(Side::Bid), asks: HalfBook::new(Side::Ask) };
        proof {
            assert forall|nodes: Seq<Node>, side: Side| #[trigger]
                r.levels(nodes, side) == Levels::<SlabIndex>::empty() by {
                assert(r.levels(nodes, side) =~= Levels::<SlabIndex>::empty());
            }
        }
        r
    }

    /// Total quantity resting on one side.
    pub(crate) fn available(
        &self,
        side: Side,
        Ghost(nodes): Ghost<Seq<Node>>,
        Ghost(free): Ghost<Seq<SlabIndex>>,
    ) -> (r: u128)
        requires
            self.wf(nodes, free),
        ensures
            r == total(self.levels(nodes, side)),
    {
        match side {
            Side::Bid => self.bids.available(Ghost(nodes)),
            Side::Ask => self.asks.available(Ghost(nodes)),
        }
    }

    /// Take `quantity` out of the orders resting on `side`, none beyond
    /// `limit`. Gives what is left of the quantity.
    pub(crate) fn take<A: Arena, S: FillSink<A::Id>>(
        &mut self,
        side: Side,
        arena: &mut A,
        sink: &mut S,
        limit: Option<Price>,
        quantity: u64,
    ) -> (remaining: u64)
        requires
            old(arena).wf(),
            old(self).wf(old(arena).nodes(), old(arena).free_list()),
        ensures
            final(arena).wf(),
            final(self).wf(final(arena).nodes(), final(arena).free_list()),
            final(arena).nodes().len() == old(arena).nodes().len(),
            forall|n: int|
                0 <= n < old(arena).nodes().len() ==> (#[trigger] final(arena).nodes()[n]).price
                    == old(arena).nodes()[n].price,
            ({
                let s = sweep(
                    side,
                    old(self).levels(old(arena).nodes(), side),
                    ticks(limit),
                    quantity,
                );
                &&& remaining == s.left
                &&& final(self).levels(final(arena).nodes(), side) == s.levels
                &&& final(self).levels(final(arena).nodes(), side.other()) == old(self).levels(
                    old(arena).nodes(),
                    side.other(),
                )
                &&& final(arena).free_list() == s.done() + old(arena).free_list()
                &&& final(arena).rest() == retired_all::<A>(old(arena).rest(), s.done())
                &&& delivered(
                    *old(sink),
                    named::<A>(old(arena).rest(), side, s.fills),
                    *final(sink),
                )
                &&& s.done().no_duplicates()
                &&& forall|idx: SlabIndex| #[trigger]
                    s.done().contains(idx) ==> holds(
                        old(self).levels(old(arena).nodes(), side),
                        idx,
                    )
            }),
    {
        let ghost this = *self;
        let ghost nodes = arena.nodes();
        let ghost free = arena.free_list();
        let remaining = match side {
            Side::Bid => self.bids.sweep(arena, sink, limit, quantity),
            Side::Ask => self.asks.sweep(arena, sink, limit, quantity),
        };
        proof {
            let s = sweep(side, this.levels(nodes, side), ticks(limit), quantity);
            let gone = s.done();
            let after = arena.nodes();
            let other = side.other();
            let now = gone + free;
            arena.lemma_wf();
            reveal(swept_slots);
            this.lemma_wf(nodes, free);
            this.lemma_side(nodes, free, side);
            this.lemma_side(nodes, free, other);
            lemma_sweep_leaves(side, this.levels(nodes, side), ticks(limit), quantity);
            assert(self.half(other) == this.half(other));
            assert forall|idx: SlabIndex| now.contains(idx) <==> gone.contains(idx)
                || free.contains(idx) by {
                lemma_concat_contains(gone, free, idx);
            }
            assert(gone.no_duplicates()) by {
                assert forall|i: int, j: int| 0 <= i < gone.len() && 0 <= j < gone.len() && i
                    != j implies gone[i] != gone[j] by {
                    assert(now[i] == gone[i]);
                    assert(now[j] == gone[j]);
                }
            }
            assert forall|idx: SlabIndex|
                #![trigger after[idx.0 as int]]
                in_range(nodes, idx) && rests(nodes, this.queues(other), idx) implies after[idx.0 as int]
                == nodes[idx.0 as int] by {
                assert(holds(this.levels(nodes, other), idx));
                assert(!holds(this.levels(nodes, side), idx)) by {
                    if holds(this.levels(nodes, side), idx) {
                        assert(rests(nodes, this.queues(side), idx));
                    }
                }
                assert(!rests(nodes, this.queues(side), idx));
            }
            assert forall|idx: SlabIndex|
                in_range(nodes, idx) && #[trigger] rests(
                    nodes,
                    this.queues(other),
                    idx,
                ) implies !now.contains(idx) by {
                assert(holds(this.levels(nodes, other), idx));
                if gone.contains(idx) {
                    assert(rests(nodes, this.queues(side), idx));
                }
            }
            this.lemma_kept(nodes, after, free, now, other);
            assert(self.side_wf(after, now, other));
            let queues = self.queues(side);
            self.half(side).lemma_wf(after);
            lemma_resting(after, queues);
            assert(all_apart(queues, now)) by {
                assert forall|p: u64| #[trigger] queues.contains_key(p) implies apart(
                    queues[p],
                    now,
                ) by {
                    assert forall|i: int| 0 <= i < queues[p].len() implies !now.contains(
                        #[trigger] queues[p][i],
                    ) by {
                        let idx = queues[p][i];
                        assert(in_range(after, idx));
                        assert(queues[p].contains(idx));
                        assert(rests(after, queues, idx));
                        assert(rests(nodes, this.queues(side), idx));
                        assert(holds(this.levels(nodes, side), idx));
                    }
                }
            }
            assert(self.side_wf(after, now, side));
            assert forall|idx: SlabIndex| in_range(after, idx) implies now.contains(idx)
                || #[trigger] rests(after, self.queues(Side::Bid), idx) || #[trigger] rests(
                after,
                self.queues(Side::Ask),
                idx,
            ) by {
                assert(in_range(nodes, idx));
                assert(free.contains(idx) || rests(nodes, this.queues(side), idx) || rests(
                    nodes,
                    this.queues(other),
                    idx,
                ));
            }
            assert forall|idx: SlabIndex| in_range(after, idx) implies !(#[trigger] rests(
                after,
                self.queues(Side::Bid),
                idx,
            ) && #[trigger] rests(after, self.queues(Side::Ask), idx)) by {
                assert(in_range(nodes, idx));
                if rests(after, self.queues(side), idx) {
                    assert(rests(nodes, this.queues(side), idx));
                }
            }
            assert(uncrossed(self.levels(after, Side::Bid), self.levels(after, Side::Ask))) by {
                assert forall|p: u64, q: u64| #[trigger]
                    self.levels(after, Side::Bid).contains_key(p) && #[trigger] self.levels(
                        after,
                        Side::Ask,
                    ).contains_key(q) implies p < q by {
                    assert(this.levels(nodes, Side::Bid).contains_key(p));
                    assert(this.levels(nodes, Side::Ask).contains_key(q));
                }
            }
            assert forall|idx: SlabIndex| #[trigger] gone.contains(idx) implies holds(
                this.levels(nodes, side),
                idx,
            ) by {
                assert(rests(nodes, this.queues(side), idx));
            }
        }
        remaining
    }

    /// Queue the order in slot `idx` on `side`. The slot has just come off the
    /// front of the freelist `free` and been filled in; before that, its slab
    /// held `nodes`.
    pub(crate) fn put<A: Links>(
        &mut self,
        side: Side,
        idx: SlabIndex,
        slab: &mut A,
        Ghost(nodes): Ghost<Seq<Node>>,
        Ghost(free): Ghost<Seq<SlabIndex>>,
    )
        requires
            old(self).wf(nodes, free),
            old(slab).wf(),
            free.no_duplicates(),
            free.len() > 0,
            free[0] == idx,
            in_range(nodes, idx),
            old(slab).free_list() == free.drop_first(),
            ({
                let node = old(slab).nodes()[idx.0 as int];
                &&& old(slab).nodes() == nodes.update(idx.0 as int, node)
                &&& node.next is None
                &&& node.quantity > 0
                &&& queue_total(lots_at(old(self).levels(nodes, side), node.price)) + node.quantity
                    <= u64::MAX
                &&& forall|q: u64| #[trigger]
                    old(self).levels(nodes, side.other()).contains_key(q) ==> !crosses(
                        side.other(),
                        Some(node.price),
                        q,
                    )
            }),
        ensures
            final(slab).wf(),
            final(slab).free_list() == old(slab).free_list(),
            final(slab).rest() == old(slab).rest(),
            final(slab).nodes().len() == old(slab).nodes().len(),
            forall|n: int|
                0 <= n < old(slab).nodes().len() ==> (#[trigger] final(slab).nodes()[n]).price
                    == old(slab).nodes()[n].price,
            final(self).wf(final(slab).nodes(), final(slab).free_list()),
            ({
                let node = old(slab).nodes()[idx.0 as int];
                final(self).levels(final(slab).nodes(), side) == with_lot(
                    old(self).levels(nodes, side),
                    node.price,
                    Lot { id: idx, quantity: node.quantity },
                )
            }),
            final(self).levels(final(slab).nodes(), side.other()) == old(self).levels(
                nodes,
                side.other(),
            ),
    {
        let ghost this = *self;
        let ghost mid = slab.nodes();
        let ghost now = free.drop_first();
        let ghost other = side.other();
        let ghost node = mid[idx.0 as int];
        let ghost queues = this.queues(side);
        proof {
            slab.lemma_wf();
            this.lemma_wf(nodes, free);
            this.lemma_side(nodes, free, side);
            this.lemma_side(nodes, free, other);
            assert(free.contains(free[0]));
            assert forall|i: SlabIndex| now.contains(i) <==> free.contains(i) && i != idx by {
                if now.contains(i) {
                    let j = now.index_of(i);
                    assert(free[j + 1] == i);
                }
                if free.contains(i) && i != idx {
                    let j = free.index_of(i);
                    assert(now[j - 1] == i);
                }
            }
            assert forall|sd: Side, i: SlabIndex|
                in_range(nodes, i) && #[trigger] rests(nodes, this.queues(sd), i) implies i != idx
                && !now.contains(i) by {
                this.lemma_side(nodes, free, sd);
                assert(holds(this.levels(nodes, sd), i));
            }
            this.lemma_kept(nodes, mid, free, now, side);
            this.lemma_kept(nodes, mid, free, now, other);
            assert(!rests(mid, this.queues(side), idx));
            assert(!rests(mid, this.queues(other), idx));
            let q = queue_at(queues, node.price);
            this.half(side).lemma_wf(mid);
            lemma_lots_total(mid, q);
            assert(lots(mid, q) =~= lots_at(this.levels(mid, side), node.price));
        }
        match side {
            Side::Bid => self.bids.push_order_to_l2_book_and_update_slab_links(idx, slab),
            Side::Ask => self.asks.push_order_to_l2_book_and_update_slab_links(idx, slab),
        }
        proof {
            let after = slab.nodes();
            let more = self.queues(side);
            let q = queue_at(queues, node.price);
            lemma_rested(mid, queues, idx);
            assert(self.half(other) == this.half(other));
            assert forall|i: SlabIndex|
                #![trigger after[i.0 as int]]
                in_range(mid, i) && rests(mid, this.queues(other), i) implies after[i.0 as int]
                == mid[i.0 as int] by {
                assert(rests(nodes, this.queues(other), i));
                assert(!rests(nodes, this.queues(side), i));
                assert(!rests(mid, queues, i));
            }
            assert forall|i: SlabIndex|
                in_range(mid, i) && #[trigger] rests(
                    mid,
                    this.queues(other),
                    i,
                ) implies !now.contains(i) by {
                assert(rests(nodes, this.queues(other), i));
            }
            this.lemma_kept(mid, after, now, now, other);
            self.half(side).lemma_wf(after);
            assert(all_apart(more, now)) by {
                assert forall|p: u64| #[trigger] more.contains_key(p) implies apart(more[p], now) by {
                    assert forall|i: int| 0 <= i < more[p].len() implies !now.contains(
                        #[trigger] more[p][i],
                    ) by {
                        let x = more[p][i];
                        assert(in_range(after, x));
                        assert(more[p].contains(x));
                        assert(rests(after, more, x));
                        if x != idx {
                            assert(rests(mid, queues, x));
                            assert(rests(nodes, queues, x));
                        }
                    }
                }
            }
            assert forall|i: SlabIndex| in_range(after, i) implies now.contains(i)
                || #[trigger] rests(after, self.queues(Side::Bid), i) || #[trigger] rests(
                after,
                self.queues(Side::Ask),
                i,
            ) by {
                assert(in_range(nodes, i));
                assert(free.contains(i) || rests(nodes, this.queues(side), i) || rests(
                    nodes,
                    this.queues(other),
                    i,
                ));
                assert(rests(after, more, i) <==> rests(mid, queues, i) || i == idx);
                assert(rests(after, self.queues(other), i) <==> rests(mid, self.queues(other), i));
            }
            assert forall|i: SlabIndex| in_range(after, i) implies !(#[trigger] rests(
                after,
                self.queues(Side::Bid),
                i,
            ) && #[trigger] rests(after, self.queues(Side::Ask), i)) by {
                assert(in_range(nodes, i));
                assert(rests(after, more, i) <==> rests(mid, queues, i) || i == idx);
                assert(rests(after, self.queues(other), i) <==> rests(mid, self.queues(other), i));
                assert(!(rests(nodes, this.queues(side), i) && rests(
                    nodes,
                    this.queues(other),
                    i,
                )));
            }
            assert(uncrossed(self.levels(after, Side::Bid), self.levels(after, Side::Ask))) by {
                assert forall|p: u64, q: u64| #[trigger]
                    self.levels(after, Side::Bid).contains_key(p) && #[trigger] self.levels(
                        after,
                        Side::Ask,
                    ).contains_key(q) implies p < q by {
                    let mine = match side {
                        Side::Bid => p,
                        Side::Ask => q,
                    };
                    let theirs = match side {
                        Side::Bid => q,
                        Side::Ask => p,
                    };
                    assert(this.levels(nodes, other).contains_key(theirs));
                    if mine != node.price {
                        assert(this.levels(nodes, side).contains_key(mine));
                    }
                }
            }
        }
    }

    /// The sides are consistent, but slot `idx` neither is free nor has an
    /// order in any queue.
    pub closed spec fn torn(self, nodes: Seq<Node>, free: Seq<SlabIndex>, idx: SlabIndex) -> bool {
        &&& in_range(nodes, idx)
        &&& !free.contains(idx)
        &&& self.side_wf(nodes, free, Side::Bid)
        &&& self.side_wf(nodes, free, Side::Ask)
        &&& forall|i: SlabIndex|
            in_range(nodes, i) && i != idx ==> free.contains(i) || #[trigger] rests(
                nodes,
                self.queues(Side::Bid),
                i,
            ) || #[trigger] rests(nodes, self.queues(Side::Ask), i)
        &&& forall|i: SlabIndex|
            in_range(nodes, i) ==> !(#[trigger] rests(nodes, self.queues(Side::Bid), i)
                && #[trigger] rests(nodes, self.queues(Side::Ask), i))
        &&& !rests(nodes, self.queues(Side::Bid), idx)
        &&& !rests(nodes, self.queues(Side::Ask), idx)
        &&& uncrossed(self.levels(nodes, Side::Bid), self.levels(nodes, Side::Ask))
    }

    /// Take the order in slot `idx` out of its queue on `side`.
    pub(crate) fn pull<A: Links>(&mut self, side: Side, idx: SlabIndex, price: Price, slab: &mut A)
        requires
            old(slab).wf(),
            old(self).wf(old(slab).nodes(), old(slab).free_list()),
            holds(old(self).levels(old(slab).nodes(), side), idx),
            price.0 == old(slab).nodes()[idx.0 as int].price,
        ensures
            final(slab).wf(),
            final(slab).free_list() == old(slab).free_list(),
            final(slab).rest() == old(slab).rest(),
            final(slab).nodes().len() == old(slab).nodes().len(),
            forall|n: int|
                0 <= n < old(slab).nodes().len() ==> (#[trigger] final(slab).nodes()[n]).price
                    == old(slab).nodes()[n].price,
            final(self).torn(final(slab).nodes(), final(slab).free_list(), idx),
            final(self).levels(final(slab).nodes(), side) == without(
                old(self).levels(old(slab).nodes(), side),
                idx,
            ),
            final(self).levels(final(slab).nodes(), side.other()) == old(self).levels(
                old(slab).nodes(),
                side.other(),
            ),
    {
        let ghost this = *self;
        let ghost nodes = slab.nodes();
        let ghost free = slab.free_list();
        let ghost other = side.other();
        let ghost queues = this.queues(side);
        proof {
            this.lemma_wf(nodes, free);
            this.lemma_side(nodes, free, side);
            this.lemma_side(nodes, free, other);
            assert(rests(nodes, queues, idx));
        }
        match side {
            Side::Bid => self.bids.remove_order_from_l2_book_and_update_slab_links(idx, price, slab),
            Side::Ask => self.asks.remove_order_from_l2_book_and_update_slab_links(idx, price, slab),
        }
        proof {
            let after = slab.nodes();
            let fewer = self.queues(side);
            this.half(side).lemma_wf(nodes);
            lemma_dropped(nodes, queues, idx);
            assert(self.half(other) == this.half(other));
            assert forall|i: SlabIndex|
                #![trigger after[i.0 as int]]
                in_range(nodes, i) && rests(nodes, this.queues(other), i) implies after[i.0 as int]
                == nodes[i.0 as int] by {
                assert(!rests(nodes, this.queues(side), i));
            }
            assert forall|i: SlabIndex|
                in_range(nodes, i) && #[trigger] rests(
                    nodes,
                    this.queues(other),
                    i,
                ) implies !free.contains(i) by {
                assert(holds(this.levels(nodes, other), i));
            }
            this.lemma_kept(nodes, after, free, free, other);
            self.half(side).lemma_wf(after);
            assert(all_apart(fewer, free)) by {
                assert forall|p: u64| #[trigger] fewer.contains_key(p) implies apart(
                    fewer[p],
                    free,
                ) by {
                    assert forall|i: int| 0 <= i < fewer[p].len() implies !free.contains(
                        #[trigger] fewer[p][i],
                    ) by {
                        let x = fewer[p][i];
                        assert(in_range(after, x));
                        assert(fewer[p].contains(x));
                        assert(rests(after, fewer, x));
                        assert(rests(nodes, queues, x));
                        assert(holds(this.levels(nodes, side), x));
                    }
                }
            }
            assert forall|i: SlabIndex| in_range(after, i) && i != idx implies free.contains(i)
                || #[trigger] rests(after, self.queues(Side::Bid), i) || #[trigger] rests(
                after,
                self.queues(Side::Ask),
                i,
            ) by {
                assert(in_range(nodes, i));
                assert(free.contains(i) || rests(nodes, this.queues(side), i) || rests(
                    nodes,
                    this.queues(other),
                    i,
                ));
                assert(rests(after, fewer, i) <==> rests(nodes, queues, i) && i != idx);
                assert(rests(after, self.queues(other), i) <==> rests(nodes, self.queues(other), i));
            }
            assert forall|i: SlabIndex| in_range(after, i) implies !(#[trigger] rests(
                after,
                self.queues(Side::Bid),
                i,
            ) && #[trigger] rests(after, self.queues(Side::Ask), i)) by {
                assert(in_range(nodes, i));
                assert(rests(after, fewer, i) <==> rests(nodes, queues, i) && i != idx);
                assert(rests(after, self.queues(other), i) <==> rests(nodes, self.queues(other), i));
                assert(!(rests(nodes, this.queues(side), i) && rests(
                    nodes,
                    this.queues(other),
                    i,
                )));
            }
            assert(rests(after, self.queues(other), idx) <==> rests(
                nodes,
                self.queues(other),
                idx,
            ));
            assert(!(rests(nodes, this.queues(side), idx) && rests(
                nodes,
                this.queues(other),
                idx,
            )));
            assert(!rests(after, fewer, idx));
            assert(uncrossed(self.levels(after, Side::Bid), self.levels(after, Side::Ask))) by {
                assert forall|p: u64, q: u64| #[trigger]
                    self.levels(after, Side::Bid).contains_key(p) && #[trigger] self.levels(
                        after,
                        Side::Ask,
                    ).contains_key(q) implies p < q by {
                    assert(this.levels(nodes, Side::Bid).contains_key(p));
                    assert(this.levels(nodes, Side::Ask).contains_key(q));
                }
            }
        }
    }

    /// Giving the slot back makes the book whole again.
    pub proof fn lemma_freed(
        self,
        nodes: Seq<Node>,
        free: Seq<SlabIndex>,
        idx: SlabIndex,
        after: Seq<Node>,
    )
        requires
            self.torn(nodes, free, idx),
            after == nodes.update(
                idx.0 as int,
                Node { next: first(free), ..nodes[idx.0 as int] },
            ),
        ensures
            self.wf(after, seq![idx] + free),
            forall|side: Side| #[trigger] self.levels(after, side) == self.levels(nodes, side),
    {
        let now = seq![idx] + free;
        assert forall|i: SlabIndex| now.contains(i) <==> i == idx || free.contains(i) by {
            lemma_concat_contains(seq![idx], free, i);
            assert(seq![idx][0] == idx);
        }
        assert forall|side: Side| #![trigger self.levels(after, side)]
            self.side_wf(after, now, side) && self.levels(after, side) == self.levels(nodes, side)
            && (forall|i: SlabIndex|
                in_range(nodes, i) ==> (#[trigger] rests(after, self.queues(side), i) <==> rests(
                    nodes,
                    self.queues(side),
                    i,
                ))) by {
            self.lemma_side(nodes, free, side);
            assert forall|i: SlabIndex|
                in_range(nodes, i) && #[trigger] rests(
                    nodes,
                    self.queues(side),
                    i,
                ) implies !now.contains(i) by {
                assert(holds(self.levels(nodes, side), i));
            }
            self.lemma_kept(nodes, after, free, now, side);
        }
        assert(self.levels(after, Side::Bid) == self.levels(nodes, Side::Bid));
        assert(self.levels(after, Side::Ask) == self.levels(nodes, Side::Ask));
    }
}

/// What a concatenation contains.
pub proof fn lemma_concat_contains<T>(a: Seq<T>, b: Seq<T>, x: T)
    ensures
        (a + b).contains(x) <==> a.contains(x) || b.contains(x),
{
    if a.contains(x) {
        let i = a.index_of(x);
        assert((a + b)[i] == x);
    }
    if b.contains(x) {
        let i = b.index_of(x);
        assert((a + b)[a.len() + i] == x);
    }
    if (a + b).contains(x) {
        let i = (a + b).index_of(x);
        if i < a.len() {
            assert(a[i] == x);
        } else {
            assert(b[i - a.len()] == x);
        }
    }
}

} // verus!
