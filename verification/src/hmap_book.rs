//! The order book that callers name orders in: an index from order id to slot
//! finds the order to cancel.

use std::collections::HashMap;

use vstd::prelude::*;

use crate::arena::{
    first, freelist, fresh, in_range, last, lemma_freelist_frame, lemma_freelist_pop, lemma_fresh,
    lemma_spliced, linked, retired_all, Arena, Links, Node,
};
use crate::errors::{BookError, BookResult};
use crate::fills::{delivered, lemma_delivered_none, FillSink};
use crate::half_book::{self, in_shape, lemma_tells_renamed, tells, ticks};
use crate::laws::law_filled_or_still_there;
use crate::level::named;
use crate::model::{
    distinct_ids, holds, lemma_distinct_renamed, lemma_holds_renamed, lemma_holds_with_lot,
    lemma_holds_without, lemma_queue_total_rename, lemma_renamed_frame, lemma_sound_renamed,
    lemma_sweep_leaves, lemma_sweep_renamed, lemma_swept_held, lemma_total_renamed,
    lemma_without_renamed, lots_at, queue_total, rename, renamed, rests_at, sound, sweep, total,
    uncrossed, with_lot, without, Levels, Lot, Swept,
};
use crate::room::{crowd, lemma_crowd_swept, lemma_crowd_with_lot, lemma_crowd_without};
use crate::two_sided::{lemma_concat_contains, Sides};

pub use crate::arena::SlabIndex;
pub use crate::half_book::HalfBook;
pub use crate::level::PriceLevel;
pub use crate::types::{MarketOrderMode, MarketOrderResult, Price, Side};

verus! {

/// What a caller names an order by.
#[derive(Debug, Clone, Copy, PartialEq, Eq, Hash, Structural)]
pub struct OrderId(pub u64);

/// A resting limit order. While a slot is free only `next`, the freelist link,
/// means anything.
#[derive(Debug, Clone, Copy)]
pub struct Order {
    pub order_id: OrderId,
    pub price: Price,
    /// What is left of the quantity; less after a partial fill.
    pub quantity: u64,
    /// The order ahead in the queue (older, higher priority).
    pub prev: Option<SlabIndex>,
    /// The order behind in the queue (newer, lower priority).
    pub next: Option<SlabIndex>,
}

impl Order {
    /// The part of the order that queues are made of.
    pub open spec fn node(self) -> Node {
        Node { price: self.price.0, quantity: self.quantity, prev: self.prev, next: self.next }
    }
}

/// The linkable part of every slot.
pub open spec fn nodes_of(slots: Seq<Order>) -> Seq<Node> {
    slots.map_values(|o: Order| o.node())
}

/// The order id in every slot.
pub open spec fn ids_of(slots: Seq<Order>) -> Seq<OrderId> {
    slots.map_values(|o: Order| o.order_id)
}

/// A slot as it is in a fresh slab.
pub open spec fn blank(n: int, capacity: nat) -> Order {
    Order {
        order_id: OrderId(0),
        price: Price(0),
        quantity: 0,
        prev: None,
        next: if 1 <= n < capacity {
            Some(SlabIndex((n + 1) as u32))
        } else {
            None
        },
    }
}

/// Fixed-size storage for the orders of a book.
///
/// Slot 0 is never used. Slots that hold no order are on the freelist, which
/// runs through their `next` links.
pub struct OrderSlab {
    slots: Vec<Order>,
    free_head: Option<SlabIndex>,
    capacity: usize,
    /// The slots of the freelist, in order.
    free: Ghost<Seq<SlabIndex>>,
}

impl OrderSlab {
    /// The orders in all slots, slot 0 included.
    pub closed spec fn slots(self) -> Seq<Order> {
        self.slots@
    }

    /// The slots on the freelist, next one to hand out first.
    pub closed spec fn free_slots(self) -> Seq<SlabIndex> {
        self.free@
    }

    /// How many orders there is room for.
    pub closed spec fn room(self) -> nat {
        self.capacity as nat
    }

    /// The freelist is one.
    pub closed spec fn valid(self) -> bool {
        &&& 0 < self.capacity <= u32::MAX
        &&& self.slots@.len() == self.capacity + 1
        &&& freelist(nodes_of(self.slots@), self.free@, self.free_head)
    }

    /// The slab is as it was made: every slot is free and blank.
    pub open spec fn is_fresh(self) -> bool {
        &&& self.free_slots() == fresh(self.room())
        &&& self.slots() == Seq::new(self.room() + 1, |n: int| blank(n, self.room()))
    }

    /// What a valid slab satisfies.
    pub proof fn lemma_valid(self)
        requires
            self.valid(),
        ensures
            self.slots().len() == self.room() + 1,
            0 < self.room() <= u32::MAX,
            freelist(nodes_of(self.slots()), self.free_slots(), first(self.free_slots())),
    {
    }

    /// A slab with `capacity` free slots, slot 1 first.
    pub fn with_capacity(capacity: usize) -> (r: Self)
        requires
            0 < capacity <= u32::MAX,
            capacity < usize::MAX,
        ensures
            r.valid(),
            r.room() == capacity,
            r.is_fresh(),
    {
        let total_slots = capacity + 1;
        let mut slots: Vec<Order> = Vec::with_capacity(total_slots);
        slots.push(
            Order {
                order_id: OrderId(0),
                price: Price(0),
                quantity: 0,
                prev: None,
                next: None,
            },
        );
        let mut i: usize = 1;
        while i <= capacity
            invariant
                0 < capacity <= u32::MAX,
                capacity < usize::MAX,
                1 <= i <= capacity + 1,
                slots@.len() == i,
                forall|n: int|
                    0 <= n < i ==> (#[trigger] slots@[n]) == blank(n, capacity as nat),
            decreases capacity + 1 - i,
        {
            let next_free = if i < capacity {
                Some(SlabIndex::new((i + 1) as u32))
            } else {
                None
            };
            slots.push(
                Order {
                    order_id: OrderId(0),
                    price: Price(0),
                    quantity: 0,
                    prev: None,
                    next: next_free,
                },
            );
            i = i + 1;
        }
        let ghost nodes = nodes_of(slots@);
        proof {
            assert forall|n: int| 1 <= n <= capacity implies (#[trigger] nodes[n]).next == (if n
                < capacity {
                Some(SlabIndex((n + 1) as u32))
            } else {
                None
            }) by {
                assert(nodes[n] == slots@[n].node());
            }
            lemma_fresh(nodes, capacity as nat);
        }
        assert(slots@ =~= Seq::new(capacity as nat + 1, |n: int| blank(n, capacity as nat)));
        OrderSlab {
            slots,
            free_head: Some(SlabIndex::new(1)),
            capacity,
            free: Ghost(fresh(capacity as nat)),
        }
    }

    pub fn get(&self, idx: SlabIndex) -> (r: &Order)
        requires
            idx.0 < self.slots().len(),
        ensures
            *r == self.slots()[idx.0 as int],
    {
        &self.slots[idx.as_usize()]
    }

    /// Write access to a slot. The slab stays valid if the link of a slot on the
    /// freelist is not changed.
    pub fn get_mut(&mut self, idx: SlabIndex) -> (r: &mut Order)
        requires
            idx.0 < old(self).slots().len(),
        ensures
            *r == old(self).slots()[idx.0 as int],
            final(self).slots() == old(self).slots().update(idx.0 as int, *final(r)),
            final(self).free_slots() == old(self).free_slots(),
            final(self).room() == old(self).room(),
            old(self).valid() && (!old(self).free_slots().contains(idx) || final(r).next == old(
                self,
            ).slots()[idx.0 as int].next) ==> final(self).valid(),
    {
        proof {
            let a = nodes_of(self.slots@);
            let here = self.slots@[idx.0 as int];
            if freelist(a, self.free@, first(self.free@)) {
                assert forall|o: Order|
                    !self.free@.contains(idx) || o.next == here.next implies freelist(
                    nodes_of(#[trigger] self.slots@.update(idx.0 as int, o)),
                    self.free@,
                    first(self.free@),
                ) by {
                    let b = nodes_of(self.slots@.update(idx.0 as int, o));
                    assert forall|i: int| 0 <= i < self.free@.len() implies b[(
                    #[trigger] self.free@[i]).0 as int].next == a[self.free@[i].0 as int].next by {
                        assert(self.free@.contains(self.free@[i]));
                        assert(in_range(a, self.free@[i]));
                    }
                    lemma_freelist_frame(a, b, self.free@);
                }
            }
        }
        &mut self.slots[idx.as_usize()]
    }

    /// Put the slot at the front of the freelist.
    pub fn free(&mut self, idx: SlabIndex)
        requires
            old(self).valid(),
            0 < idx.0 < old(self).slots().len(),
            !old(self).free_slots().contains(idx),
        ensures
            final(self).valid(),
            final(self).slots() == old(self).slots().update(
                idx.0 as int,
                Order {
                    next: first(old(self).free_slots()),
                    ..old(self).slots()[idx.0 as int]
                },
            ),
            final(self).free_slots() == seq![idx] + old(self).free_slots(),
            final(self).room() == old(self).room(),
    {
        let ghost nodes = nodes_of(self.slots@);
        let ghost chain = seq![idx];
        proof {
            assert(linked(nodes, chain, nodes[idx.0 as int].next));
            lemma_spliced(nodes, chain, self.free@);
            self.free@ = chain + self.free@;
        }
        let i = idx.as_usize();
        let next = self.free_head;
        self.slots[i].next = next;
        self.free_head = Some(idx);
        assert(nodes_of(self.slots@) =~= nodes.update(
            idx.0 as int,
            Node { next: next, ..nodes[idx.0 as int] },
        ));
    }

    /// Take the first slot off the freelist. What it held before is still in it.
    pub fn alloc_slot(&mut self) -> (r: BookResult<SlabIndex>)
        requires
            old(self).valid(),
        ensures
            final(self).valid(),
            final(self).slots() == old(self).slots(),
            final(self).room() == old(self).room(),
            match r {
                Ok(idx) => {
                    &&& old(self).free_slots().len() > 0
                    &&& idx == old(self).free_slots()[0]
                    &&& final(self).free_slots() == old(self).free_slots().drop_first()
                },
                Err(e) => {
                    &&& e == BookError::SlabFull
                    &&& old(self).free_slots().len() == 0
                    &&& final(self).free_slots() == old(self).free_slots()
                },
            },
    {
        let idx = match self.free_head {
            Some(idx) => idx,
            None => {
                return Err(BookError::SlabFull);
            },
        };
        proof {
            lemma_freelist_pop(nodes_of(self.slots@), self.free@);
            assert(in_range(nodes_of(self.slots@), self.free@[0]));
            self.free@ = self.free@.drop_first();
        }
        let i = idx.as_usize();
        self.free_head = self.slots[i].next;
        Ok(idx)
    }

    pub fn capacity(&self) -> (r: usize)
        ensures
            r == self.room(),
    {
        self.capacity
    }
}
impl Links for OrderSlab {
    type Rest = Seq<OrderId>;

    open spec fn nodes(&self) -> Seq<Node> {
        nodes_of(self.slots())
    }

    open spec fn free_list(&self) -> Seq<SlabIndex> {
        self.free_slots()
    }

    open spec fn rest(&self) -> Seq<OrderId> {
        ids_of(self.slots())
    }

    open spec fn wf(&self) -> bool {
        self.valid()
    }

    proof fn lemma_wf(&self) {
    }

    fn node(&self, idx: SlabIndex) -> Node {
        let o = &self.slots[idx.as_usize()];
        Node { price: o.price.0, quantity: o.quantity, prev: o.prev, next: o.next }
    }

    fn set_prev(&mut self, idx: SlabIndex, prev: Option<SlabIndex>) {
        let ghost nodes = self.nodes();
        let ghost rest = self.rest();
        self.get_mut(idx).prev = prev;
        assert(self.nodes() =~= nodes.update(
            idx.0 as int,
            Node { prev, ..nodes[idx.0 as int] },
        ));
        assert(self.rest() =~= rest);
    }

    fn set_next(&mut self, idx: SlabIndex, next: Option<SlabIndex>) {
        let ghost nodes = self.nodes();
        let ghost rest = self.rest();
        self.get_mut(idx).next = next;
        assert(self.nodes() =~= nodes.update(
            idx.0 as int,
            Node { next, ..nodes[idx.0 as int] },
        ));
        assert(self.rest() =~= rest);
    }
}

/// Where an order is to be found: its slot, its side and its price.
pub type Place = (SlabIndex, Side, Price);

/// What storage holds besides the slots' nodes.
#[verifier::ext_equal]
pub struct Files {
    /// The order id in every slot.
    pub ids: Seq<OrderId>,
    /// Where the order with a given id is to be found.
    pub index: Map<u64, Place>,
}

/// The slab together with the index from order id to slot.
struct Registry {
    slab: OrderSlab,
    order_index: HashMap<u64, Place>,
}

impl Links for Registry {
    type Rest = Files;

    closed spec fn nodes(&self) -> Seq<Node> {
        self.slab.nodes()
    }

    closed spec fn free_list(&self) -> Seq<SlabIndex> {
        self.slab.free_list()
    }

    closed spec fn rest(&self) -> Files {
        Files { ids: self.slab.rest(), index: self.order_index@ }
    }

    closed spec fn wf(&self) -> bool {
        self.slab.wf()
    }

    proof fn lemma_wf(&self) {
        self.slab.lemma_wf();
    }

    fn node(&self, idx: SlabIndex) -> Node {
        self.slab.node(idx)
    }

    fn set_prev(&mut self, idx: SlabIndex, prev: Option<SlabIndex>) {
        self.slab.set_prev(idx, prev);
    }

    fn set_next(&mut self, idx: SlabIndex, next: Option<SlabIndex>) {
        self.slab.set_next(idx, next);
    }
}

impl Arena for Registry {
    type Id = OrderId;

    closed spec fn id_in(rest: Files, side: Side, idx: SlabIndex) -> OrderId {
        rest.ids[idx.0 as int]
    }

    closed spec fn retired(rest: Files, idx: SlabIndex) -> Files {
        Files { ids: rest.ids, index: rest.index.remove(rest.ids[idx.0 as int].0) }
    }

    proof fn lemma_retired(rest: Files, side: Side, gone: SlabIndex, kept: SlabIndex) {
    }

    fn id(&self, side: Side, idx: SlabIndex) -> OrderId {
        self.slab.get(idx).order_id
    }

    fn set_quantity(&mut self, idx: SlabIndex, quantity: u64) {
        let ghost nodes = self.nodes();
        let ghost rest = self.rest();
        self.slab.get_mut(idx).quantity = quantity;
        assert(self.nodes() =~= nodes.update(
            idx.0 as int,
            Node { quantity, ..nodes[idx.0 as int] },
        ));
        assert(self.rest() =~= rest);
    }

    fn retire(&mut self, idx: SlabIndex) {
        let ghost rest = self.rest();
        let id = self.slab.get(idx).order_id;
        self.order_index.remove(&id.0);
        assert(self.rest() =~= Self::retired(rest, idx));
    }

    fn splice(&mut self, head: SlabIndex, tail: SlabIndex, Ghost(chain): Ghost<Seq<SlabIndex>>) {
        let ghost nodes = self.nodes();
        let ghost rest = self.rest();
        proof {
            assert(chain.last() == tail);
            assert(in_range(nodes, chain[chain.len() - 1]));
            lemma_spliced(nodes, chain, self.slab.free@);
            self.slab.free@ = chain + self.slab.free@;
        }
        let i = tail.as_usize();
        let next = self.slab.free_head;
        self.slab.slots[i].next = next;
        self.slab.free_head = Some(head);
        assert(self.nodes() =~= nodes.update(
            tail.0 as int,
            Node { next, ..nodes[tail.0 as int] },
        ));
        assert(self.rest() =~= rest);
    }
}

/// One fill of a resting order.
#[derive(Debug)]
pub struct Fill {
    pub resting_id: OrderId,
    pub quantity: u64,
}

/// Where a book's fills go.
pub trait FillConsumer: Sized {
    /// Handing `fill` to `pre` may turn it into `post`.
    open spec fn fill_step(pre: Self, fill: Fill, post: Self) -> bool {
        true
    }

    /// Flushing `pre` may turn it into `post`.
    open spec fn flush_step(pre: Self, post: Self) -> bool {
        true
    }

    fn on_fill(&mut self, fill: Fill)
        ensures
            Self::fill_step(*old(self), fill, *final(self)),
    ;

    /// Called at the end of every limit and every market order, whatever came of
    /// it, after all of that operation's fills have been handed over. Consumers
    /// that buffer fills use this as their commit point; for others it does
    /// nothing.
    fn flush(&mut self)
        ensures
            Self::flush_step(*old(self), *final(self)),
    ;
}

impl<C: FillConsumer> FillSink<OrderId> for C {
    open spec fn fill_step(pre: Self, fill: Lot<OrderId>, post: Self) -> bool {
        <C as FillConsumer>::fill_step(
            pre,
            Fill { resting_id: fill.id, quantity: fill.quantity },
            post,
        )
    }

    fn deliver(&mut self, id: OrderId, quantity: u64) {
        self.on_fill(Fill { resting_id: id, quantity });
    }
}

/// Collects every fill.
pub struct VecConsumer {
    pub fills: Vec<Fill>,
}

impl Default for VecConsumer {
    fn default() -> (r: Self)
        ensures
            r.fills@ == Seq::<Fill>::empty(),
    {
        VecConsumer { fills: Vec::new() }
    }
}

impl FillConsumer for VecConsumer {
    open spec fn fill_step(pre: Self, fill: Fill, post: Self) -> bool {
        post.fills@ == pre.fills@.push(fill)
    }

    open spec fn flush_step(pre: Self, post: Self) -> bool {
        post.fills@ == pre.fills@
    }

    fn on_fill(&mut self, fill: Fill) {
        self.fills.push(fill);
    }

    fn flush(&mut self) {
    }
}

/// Handing `fills` to `pre`, one by one and in order, and then flushing it may
/// turn it into `post`.
pub open spec fn settled<C: FillConsumer>(pre: C, fills: Seq<Lot<OrderId>>, post: C) -> bool {
    exists|mid: C| #[trigger] delivered(pre, fills, mid) && C::flush_step(mid, post)
}

/// A resting order: the slot it lives in and the id it was given. Two orders
/// may have the same id, but never the same slot.
#[verifier::ext_equal]
pub struct Ticket {
    pub slot: SlabIndex,
    pub id: OrderId,
}

/// The slots of some orders.
pub open spec fn slots_of(tickets: Seq<Ticket>) -> Seq<SlabIndex> {
    tickets.map_values(|t: Ticket| t.slot)
}

/// The ids of some orders.
pub open spec fn keys_of(tickets: Seq<Ticket>) -> Set<u64> {
    tickets.map_values(|t: Ticket| t.id.0).to_set()
}

/// Fills named by order ids, as a consumer sees them.
pub open spec fn by_id(fills: Seq<Lot<Ticket>>) -> Seq<Lot<OrderId>> {
    rename(fills, |t: Ticket| t.id)
}

/// A book as seen from outside.
#[verifier::ext_equal]
pub struct BookView {
    /// The resting bids, by price.
    pub bids: Levels<Ticket>,
    /// The resting asks, by price.
    pub asks: Levels<Ticket>,
    /// The free slots, next one to be used first.
    pub free: Seq<SlabIndex>,
    /// Where the order with a given id is to be found. If an id has been used
    /// for two orders this is the later one, and neither once one of them has
    /// been filled completely.
    pub index: Map<u64, Place>,
}

impl BookView {
    /// A book with `capacity` free slots and nothing resting.
    pub open spec fn empty(capacity: nat) -> BookView {
        BookView {
            bids: Map::empty(),
            asks: Map::empty(),
            free: fresh(capacity),
            index: Map::empty(),
        }
    }

    /// What rests on the given side.
    pub open spec fn on(self, side: Side) -> Levels<Ticket> {
        match side {
            Side::Bid => self.bids,
            Side::Ask => self.asks,
        }
    }

    /// The book with what rests on the given side replaced.
    pub open spec fn put(self, side: Side, levels: Levels<Ticket>) -> BookView {
        match side {
            Side::Bid => BookView { bids: levels, ..self },
            Side::Ask => BookView { asks: levels, ..self },
        }
    }

    /// What an aggressor on `side` does to the other side.
    pub open spec fn taking(self, side: Side, limit: Option<u64>, quantity: u64) -> Swept<Ticket> {
        sweep(side.other(), self.on(side.other()), limit, quantity)
    }

    /// The book after an aggressor on `side` has taken what it could: the slots
    /// of the orders that were filled completely are free again, in the order
    /// in which they were filled, and their ids are no longer indexed.
    pub open spec fn taken(self, side: Side, limit: Option<u64>, quantity: u64) -> BookView {
        let s = self.taking(side, limit, quantity);
        BookView {
            free: slots_of(s.done()) + self.free,
            index: self.index.remove_keys(keys_of(s.done())),
            ..self.put(side.other(), s.levels)
        }
    }

    /// The book after an order has been put to rest.
    pub open spec fn rested(
        self,
        order_id: OrderId,
        side: Side,
        price: Price,
        quantity: u64,
    ) -> BookView {
        let slot = self.free[0];
        BookView {
            free: self.free.drop_first(),
            index: self.index.insert(order_id.0, (slot, side, price)),
            ..self.put(
                side,
                with_lot(
                    self.on(side),
                    price.0,
                    Lot { id: Ticket { slot, id: order_id }, quantity },
                ),
            )
        }
    }

    /// Each side is in order, no slot holds orders on both, every bid is below
    /// every ask, and the index only points at resting orders.
    pub open spec fn valid(self) -> bool {
        &&& sound(self.bids)
        &&& sound(self.asks)
        &&& uncrossed(self.bids, self.asks)
        &&& forall|t: Ticket| !(#[trigger] holds(self.bids, t) && #[trigger] holds(self.asks, t))
        &&& forall|key: u64| #[trigger]
            self.index.contains_key(key) ==> {
                let (slot, side, price) = self.index[key];
                holds(self.on(side), Ticket { slot, id: OrderId(key) })
            }
    }

    /// Every resting order can be cancelled by its id.
    pub open spec fn all_indexed(self) -> bool {
        forall|side: Side, t: Ticket| #[trigger]
            holds(self.on(side), t) ==> self.index.contains_key(t.id.0) && self.index[t.id.0].0
                == t.slot
    }

    /// The book after the indexed order with the given id has been cancelled.
    pub open spec fn cancelled(self, order_id: OrderId) -> BookView {
        let (slot, side, price) = self.index[order_id.0];
        BookView {
            free: seq![slot] + self.free,
            index: self.index.remove(order_id.0),
            ..self.put(side, without(self.on(side), Ticket { slot, id: order_id }))
        }
    }
}

/// Retiring slots one by one takes their ids out of the index.
proof fn lemma_retired_files(rest: Files, gone: Seq<SlabIndex>, tickets: Seq<Ticket>)
    requires
        tickets == gone.map_values(|idx: SlabIndex| Ticket { slot: idx, id: rest.ids[idx.0 as int] }),
    ensures
        retired_all::<Registry>(rest, gone) == (Files {
            ids: rest.ids,
            index: rest.index.remove_keys(keys_of(tickets)),
        }),
    decreases gone.len(),
{
    let keys = tickets.map_values(|t: Ticket| t.id.0);
    if gone.len() == 0 {
        assert(rest.index.remove_keys(keys_of(tickets)) =~= rest.index);
    } else {
        let front = gone.drop_last();
        let some = front.map_values(
            |idx: SlabIndex| Ticket { slot: idx, id: rest.ids[idx.0 as int] },
        );
        let last = rest.ids[gone.last().0 as int].0;
        lemma_retired_files(rest, front, some);
        let fewer = some.map_values(|t: Ticket| t.id.0);
        assert(keys =~= fewer.push(last));
        assert forall|k: u64| keys.contains(k) <==> fewer.contains(k) || k == last by {
            lemma_concat_contains(fewer, seq![last], k);
            assert(fewer + seq![last] =~= keys);
            assert(seq![last][0] == last);
        }
        assert(rest.index.remove_keys(keys_of(some)).remove(last) =~= rest.index.remove_keys(
            keys_of(tickets),
        ));
    }
}

/// The two sides of a book, and the slots that they share with the index of who
/// is where.
pub struct Resting {
    sides: Sides,
    registry: Registry,
}

/// A central-limit order book, matching by price and then by time, in which
/// orders go by ids that the caller chooses.
pub struct OrderBook<C: FillConsumer> {
    /// What rests. Its parts are private to the engine.
    pub resting: Resting,
    /// Where fills go.
    pub consumer: C,
}

impl<C: FillConsumer> View for OrderBook<C> {
    type V = BookView;

    closed spec fn view(&self) -> BookView {
        BookView {
            bids: self.levels(Side::Bid),
            asks: self.levels(Side::Ask),
            free: self.resting.registry.free_list(),
            index: self.resting.registry.order_index@,
        }
    }
}

impl<C: FillConsumer + Default> OrderBook<C> {
    /// A book with `slab_capacity` slots.
    pub fn new(slab_capacity: usize) -> (r: Self)
        requires
            0 < slab_capacity <= u32::MAX,
            slab_capacity < usize::MAX,
        ensures
            r.wf(),
            r@ == BookView::empty(slab_capacity as nat),
            call_ensures(C::default, (), r.sink()),
    {
        Self::with_consumer(slab_capacity, C::default())
    }
}

impl<C: FillConsumer> OrderBook<C> {
    spec fn slot_levels(self, side: Side) -> Levels<SlabIndex> {
        self.resting.sides.levels(self.resting.registry.nodes(), side)
    }

    spec fn name(self) -> spec_fn(SlabIndex) -> Ticket {
        |idx: SlabIndex| Ticket { slot: idx, id: self.resting.registry.rest().ids[idx.0 as int] }
    }

    spec fn levels(self, side: Side) -> Levels<Ticket> {
        renamed(self.slot_levels(side), self.name())
    }

    /// The order indexed under `key` rests where the index says.
    spec fn indexed(self, key: u64) -> bool {
        let (slot, side, price) = self.resting.registry.order_index@[key];
        &&& holds(self.slot_levels(side), slot)
        &&& self.resting.registry.rest().ids[slot.0 as int].0 == key
        &&& self.resting.registry.nodes()[slot.0 as int].price == price.0
    }

    /// The consumer that fills are handed to.
    pub open spec fn sink(self) -> C {
        self.consumer
    }

    /// Each slot either is free or holds a resting order, the index only points
    /// at resting orders, and the sides do not cross.
    pub closed spec fn wf(self) -> bool {
        &&& self.resting.registry.wf()
        &&& self.resting.sides.wf(self.resting.registry.nodes(), self.resting.registry.free_list())
        &&& forall|key: u64| #[trigger]
            self.resting.registry.order_index@.contains_key(key) ==> self.indexed(key)
    }

    /// What rests on a side, by slot and by ticket.
    proof fn lemma_view(self, side: Side)
        requires
            self.wf(),
        ensures
            distinct_ids(self.slot_levels(side)),
            distinct_ids(self.levels(side)),
            self.levels(side).dom() == self.slot_levels(side).dom(),
            self.slot_levels(side).dom().finite(),
            forall|p: u64| #[trigger]
                self.slot_levels(side).contains_key(p) ==> self.slot_levels(side)[p].len() > 0,
            forall|idx: SlabIndex| #[trigger]
                holds(self.slot_levels(side), idx) ==> in_range(self.resting.registry.nodes(), idx)
                    && !self.resting.registry.free_list().contains(idx) && !holds(
                    self.slot_levels(side.other()),
                    idx,
                ),
    {
        let by_slot = self.slot_levels(side);
        self.resting.sides.lemma_wf(self.resting.registry.nodes(), self.resting.registry.free_list());
        assert(self.resting.sides.levels(self.resting.registry.nodes(), side) == by_slot);
        assert forall|p: u64| #[trigger] by_slot.contains_key(p) implies by_slot[p].len() > 0 by {
            assert(self.resting.sides.levels(self.resting.registry.nodes(), side).contains_key(p));
        }
        lemma_distinct_renamed(by_slot, self.name());
        assert(self.levels(side).dom() =~= by_slot.dom());
    }

    /// What is kept of one side, in the slots given by `nodes`.
    pub closed spec fn half(self, side: Side) -> half_book::HalfBook {
        self.resting.sides.half(side)
    }

    /// The linkable part of the slots that the orders of a side live in.
    pub closed spec fn nodes(self, side: Side) -> Seq<Node> {
        self.resting.registry.nodes()
    }

    /// What a consistent book keeps of each side fits together and agrees with
    /// what it shows: its levels have orders and know how many and how much, the
    /// orders of a level are linked both ways, the sorted prices are those of
    /// the levels, and the best price is the best of them.
    pub proof fn law_in_shape(self, side: Side)
        requires
            self.wf(),
        ensures
            in_shape(self.half(side), self.nodes(side)),
            self.half(side).side() == side,
            tells(self.half(side), self@.on(side)),
    {
        let free = self.resting.registry.free_list();
        self.resting.sides.lemma_in_shape(self.nodes(side), free, side);
        lemma_tells_renamed(self.half(side), self.slot_levels(side), self.name());
    }

    /// What a consistent book shows is in order.
    pub proof fn lemma_valid(self)
        requires
            self.wf(),
        ensures
            self@.valid(),
    {
        let v = self@;
        self.lemma_view(Side::Bid);
        self.lemma_view(Side::Ask);
        self.resting.sides.lemma_wf(self.resting.registry.nodes(), self.resting.registry.free_list());
        assert(sound(self.slot_levels(Side::Bid)) && sound(self.slot_levels(Side::Ask)));
        lemma_sound_renamed(self.slot_levels(Side::Bid), self.name());
        lemma_sound_renamed(self.slot_levels(Side::Ask), self.name());
        assert forall|t: Ticket| !(#[trigger] holds(v.bids, t) && #[trigger] holds(v.asks, t)) by {
            if holds(v.bids, t) && holds(v.asks, t) {
                lemma_holds_renamed(self.slot_levels(Side::Bid), self.name(), t);
                lemma_holds_renamed(self.slot_levels(Side::Ask), self.name(), t);
                let a = choose|a: SlabIndex| #[trigger]
                    holds(self.slot_levels(Side::Bid), a) && (self.name())(a) == t;
                let b = choose|b: SlabIndex| #[trigger]
                    holds(self.slot_levels(Side::Ask), b) && (self.name())(b) == t;
                assert(a == b);
            }
        }
        assert forall|key: u64| #[trigger] v.index.contains_key(key) implies ({
            let (slot, side, price) = v.index[key];
            holds(v.on(side), Ticket { slot, id: OrderId(key) })
        }) by {
            assert(self.indexed(key));
            let (slot, side, price) = v.index[key];
            let t = Ticket { slot, id: OrderId(key) };
            assert((self.name())(slot) == t);
            lemma_holds_renamed(self.slot_levels(side), self.name(), t);
        }
    }

    /// A book with `slab_capacity` slots that hands its fills to `consumer`.
    pub fn with_consumer(slab_capacity: usize, consumer: C) -> (r: Self)
        requires
            0 < slab_capacity <= u32::MAX,
            slab_capacity < usize::MAX,
        ensures
            r.wf(),
            r@ == BookView::empty(slab_capacity as nat),
            r.sink() == consumer,
    {
        let slab = OrderSlab::with_capacity(slab_capacity);
        let registry = Registry { slab, order_index: HashMap::with_capacity(slab_capacity) };
        let r = OrderBook {
            resting: Resting { sides: Sides::new(), registry },
            consumer,
        };
        proof {
            let nodes = slab.nodes();
            slab.lemma_valid();
            assert forall|n: int| 1 <= n <= slab.room() implies (#[trigger] nodes[n]).next == (if n
                < slab.room() {
                Some(SlabIndex((n + 1) as u32))
            } else {
                None
            }) by {
                assert(nodes[n] == blank(n, slab.room()).node());
            }
            lemma_fresh(nodes, slab.room());
            assert(r.levels(Side::Bid) =~= Map::empty());
            assert(r.levels(Side::Ask) =~= Map::empty());
            assert(r.resting.sides.wf(nodes, slab.free_list()));
        }
        r
    }

    /// Sweep the side opposite to `side` until `quantity` is used up, the side
    /// is empty, or its best price no longer crosses `price_limit`. Without a
    /// limit every price crosses.
    fn match_against_opposite(
        &mut self,
        side: Side,
        price_limit: Option<Price>,
        quantity: u64,
    ) -> (r: BookResult<u64>)
        requires
            old(self).wf(),
        ensures
            final(self).wf(),
            in_shape(final(self).half(Side::Bid), final(self).nodes(Side::Bid)),
            in_shape(final(self).half(Side::Ask), final(self).nodes(Side::Ask)),
            ({
                let s = old(self)@.taking(side, ticks(price_limit), quantity);
                &&& r == Ok::<u64, BookError>(s.left)
                &&& final(self)@ == old(self)@.taken(side, ticks(price_limit), quantity)
                &&& final(self)@.on(side) == old(self)@.on(side)
                &&& delivered(old(self).sink(), by_id(s.fills), final(self).sink())
            }),
    {
        let ghost this = *self;
        let opposite = match side {
            Side::Bid => Side::Ask,
            Side::Ask => Side::Bid,
        };
        let remaining = self.resting.sides.take(
            opposite,
            &mut self.resting.registry,
            &mut self.consumer,
            price_limit,
            quantity,
        );
        proof {
            let limit = ticks(price_limit);
            let free = this.resting.registry.free_list();
            let rest = this.resting.registry.rest();
            let s = sweep(opposite, this.slot_levels(opposite), limit, quantity);
            let t = sweep(opposite, this.levels(opposite), limit, quantity);
            let gone = s.done();
            this.lemma_view(opposite);
            this.lemma_view(side);
            this.resting.registry.lemma_wf();
            self.resting.registry.lemma_wf();
            self.resting.sides.lemma_wf(self.resting.registry.nodes(), self.resting.registry.free_list());
            lemma_sweep_renamed(opposite, this.slot_levels(opposite), limit, quantity, this.name());
            lemma_sweep_leaves(opposite, this.slot_levels(opposite), limit, quantity);
            assert(by_id(t.fills) =~= named::<Registry>(rest, opposite, s.fills));
            assert(slots_of(t.done()) =~= gone);
            assert(t.done() =~= gone.map_values(
                |idx: SlabIndex| Ticket { slot: idx, id: rest.ids[idx.0 as int] },
            ));
            lemma_retired_files(rest, gone, t.done());
            assert(self.slot_levels(opposite) == s.levels);
            assert(self.slot_levels(side) == this.slot_levels(side));
            assert(self.name() =~= this.name());
            assert(self@ =~= this@.taken(side, limit, quantity));
            assert forall|key: u64| #[trigger]
                self.resting.registry.order_index@.contains_key(key) implies self.indexed(key) by {
                assert(self.resting.registry.rest().index == self.resting.registry.order_index@);
                assert(this.resting.registry.rest().index == this.resting.registry.order_index@);
                assert(this.resting.registry.order_index@.contains_key(key));
                assert(this.indexed(key));
                let (slot, sd, price) = this.resting.registry.order_index@[key];
                assert(self.resting.registry.order_index@[key] == (slot, sd, price));
                assert(holds(this.slot_levels(sd), slot));
                this.lemma_view(sd);
                assert(!gone.contains(slot)) by {
                    if gone.contains(slot) {
                        let i = gone.index_of(slot);
                        assert(t.done()[i].id.0 == key);
                        assert(t.done().map_values(|t: Ticket| t.id.0)[i] == key);
                    }
                }
                lemma_concat_contains(gone, free, slot);
                assert(in_range(self.resting.registry.nodes(), slot));
                assert(holds(self.slot_levels(Side::Bid), slot) || holds(
                    self.slot_levels(Side::Ask),
                    slot,
                ));
                if !holds(self.slot_levels(sd), slot) {
                    if sd == side {
                        lemma_swept_held(
                            opposite,
                            this.slot_levels(opposite),
                            limit,
                            quantity,
                            slot,
                        );
                    }
                    assert(holds(this.slot_levels(sd.other()), slot));
                }
            }
            self.law_in_shape(Side::Bid);
            self.law_in_shape(Side::Ask);
        }
        Ok(remaining)
    }

    /// Add a limit order: trade with the other side as far as `price` allows,
    /// then put what is left to rest under `order_id`.
    ///
    /// If there is no slot for what is left, the trades still stand.
    pub fn add_limit_order(
        &mut self,
        order_id: OrderId,
        side: Side,
        price: Price,
        quantity: u64,
    ) -> (r: BookResult<()>)
        requires
            old(self).wf(),
            old(self)@.taken(side, Some(price.0), quantity).free.len() > 0 ==> queue_total(
                lots_at(old(self)@.on(side), price.0),
            ) + old(self)@.taking(side, Some(price.0), quantity).left <= u64::MAX,
        ensures
            final(self).wf(),
            uncrossed(final(self)@.bids, final(self)@.asks),
            ({
                let s = old(self)@.taking(side, Some(price.0), quantity);
                let traded = old(self)@.taken(side, Some(price.0), quantity);
                &&& settled(old(self).sink(), by_id(s.fills), final(self).sink())
                &&& match r {
                    Ok(_) => {
                        &&& s.left > 0 ==> traded.free.len() > 0
                        &&& final(self)@ == (if s.left > 0 {
                            traded.rested(order_id, side, price, s.left)
                        } else {
                            traded
                        })
                    },
                    Err(e) => {
                        &&& e == BookError::SlabFull
                        &&& s.left > 0
                        &&& traded.free.len() == 0
                        &&& final(self)@ == traded
                    },
                }
            }),
    {
        proof {
            self.lemma_view(side.other());
            lemma_sweep_leaves(side.other(), self@.on(side.other()), Some(price.0), quantity);
        }
        let remaining = self.match_against_opposite(side, Some(price), quantity)?;
        if remaining > 0 {
            let ghost mid = *self;
            let ghost nodes = self.resting.registry.nodes();
            let ghost free = self.resting.registry.free_list();
            let ghost rest = self.resting.registry.rest();
            let idx = match self.resting.registry.slab.alloc_slot() {
                Ok(idx) => idx,
                Err(e) => {
                    self.consumer.flush();
                    proof {
                        self.lemma_valid();
                    }
                    return Err(e);
                },
            };
            proof {
                mid.resting.registry.lemma_wf();
                mid.lemma_view(side);
                mid.lemma_view(side.other());
                lemma_freelist_pop(nodes, free);
                assert(in_range(nodes, free[0]));
                assert(free.contains(free[0]));
            }
            let slot = self.resting.registry.slab.get_mut(idx);
            slot.order_id = order_id;
            slot.price = price;
            slot.quantity = remaining;
            slot.prev = None;
            slot.next = None;
            proof {
                assert(self.resting.registry.nodes() =~= nodes.update(
                    idx.0 as int,
                    Node { price: price.0, quantity: remaining, prev: None, next: None },
                ));
                assert(self.resting.registry.rest().ids =~= rest.ids.update(idx.0 as int, order_id));
                lemma_queue_total_rename(lots_at(mid.slot_levels(side), price.0), mid.name());
                assert(rename(lots_at(mid.slot_levels(side), price.0), mid.name()) =~= lots_at(
                    mid.levels(side),
                    price.0,
                ));
            }
            self.resting.sides.put(side, idx, &mut self.resting.registry, Ghost(nodes), Ghost(free));
            let ghost linked = self.resting.registry;
            self.resting.registry.order_index.insert(order_id.0, (idx, side, price));
            proof {
                let lot = Lot { id: idx, quantity: remaining };
                let other = side.other();
                assert(self.resting.registry.rest().ids == linked.rest().ids);
                assert(self.resting.registry.nodes() == linked.nodes());
                assert(linked.rest().index == mid.resting.registry.order_index@);
                assert(linked.order_index@ == linked.rest().index);
                assert(self.slot_levels(side) == with_lot(mid.slot_levels(side), price.0, lot));
                assert(self.slot_levels(other) == mid.slot_levels(other));
                assert forall|sd: Side, i: SlabIndex| #[trigger]
                    holds(mid.slot_levels(sd), i) implies (self.name())(i) == (mid.name())(i) by {
                    mid.lemma_view(sd);
                    assert(i != idx);
                }
                lemma_renamed_frame(mid.slot_levels(side), mid.name(), self.name());
                lemma_renamed_frame(mid.slot_levels(other), mid.name(), self.name());
                assert(rename(lots_at(mid.slot_levels(side), price.0).push(lot), self.name())
                    =~= lots_at(renamed(mid.slot_levels(side), self.name()), price.0).push(
                    Lot { id: Ticket { slot: idx, id: order_id }, quantity: remaining },
                ));
                assert(self.levels(side) =~= with_lot(
                    mid.levels(side),
                    price.0,
                    Lot { id: Ticket { slot: idx, id: order_id }, quantity: remaining },
                ));
                assert(self@ =~= mid@.rested(order_id, side, price, remaining));
                assert forall|key: u64| #[trigger]
                    self.resting.registry.order_index@.contains_key(key) implies self.indexed(key) by {
                    if key == order_id.0 {
                        lemma_holds_with_lot(mid.slot_levels(side), price.0, lot, idx);
                    } else {
                        assert(mid.resting.registry.order_index@.contains_key(key));
                        assert(mid.indexed(key));
                        let (slot, sd, price2) = mid.resting.registry.order_index@[key];
                        assert(holds(mid.slot_levels(sd), slot));
                        assert((self.name())(slot) == (mid.name())(slot));
                        mid.lemma_view(sd);
                        assert(slot != idx);
                        if sd == side {
                            lemma_holds_with_lot(mid.slot_levels(side), price.0, lot, slot);
                        }
                        assert(self.resting.registry.nodes()[slot.0 as int].price
                            == nodes[slot.0 as int].price);
                    }
                }
            }
        }
        self.consumer.flush();
        proof {
            self.lemma_valid();
        }
        Ok(())
    }

    /// Cancel the order that goes by `order_id`.
    pub fn cancel_limit_order(&mut self, order_id: OrderId) -> (r: BookResult<()>)
        requires
            old(self).wf(),
        ensures
            final(self).wf(),
            final(self).sink() == old(self).sink(),
            match r {
                Ok(_) => {
                    &&& old(self)@.index.contains_key(order_id.0)
                    &&& final(self)@ == old(self)@.cancelled(order_id)
                },
                Err(e) => {
                    &&& e == BookError::OrderNotFound
                    &&& !old(self)@.index.contains_key(order_id.0)
                    &&& final(self)@ == old(self)@
                },
            },
    {
        let ghost this = *self;
        let ghost nodes = self.resting.registry.nodes();
        let ghost free = self.resting.registry.free_list();
        let ghost rest = self.resting.registry.rest();
        let (idx, side, price) = match self.resting.registry.order_index.remove(&order_id.0) {
            Some(place) => place,
            None => {
                assert(self@ =~= this@);
                return Err(BookError::OrderNotFound);
            },
        };
        proof {
            assert(this.resting.registry.order_index@.contains_key(order_id.0));
            assert(this.indexed(order_id.0));
            this.lemma_view(side);
            this.lemma_view(side.other());
            assert(self.resting.registry.nodes() == nodes);
            assert(self.resting.registry.free_list() == free);
            assert(self.resting.registry.wf());
        }
        self.resting.sides.pull(side, idx, price, &mut self.resting.registry);
        let ghost mid = self.resting.registry;
        self.resting.registry.slab.free(idx);
        proof {
            let other = side.other();
            assert(mid.rest().index == this.resting.registry.order_index@.remove(order_id.0));
            assert(mid.rest().index == mid.order_index@);
            assert(mid.rest().ids == rest.ids);
            assert(self.resting.registry.rest().ids =~= mid.rest().ids);
            assert(self.resting.registry.nodes() =~= mid.nodes().update(
                idx.0 as int,
                Node { next: first(free), ..mid.nodes()[idx.0 as int] },
            ));
            self.resting.sides.lemma_freed(mid.nodes(), free, idx, self.resting.registry.nodes());
            assert(self.slot_levels(side) == without(this.slot_levels(side), idx));
            assert(self.slot_levels(other) == this.slot_levels(other));
            assert(self.name() =~= this.name());
            lemma_without_renamed(this.slot_levels(side), idx, this.name());
            assert((this.name())(idx) == Ticket { slot: idx, id: order_id });
            assert(self@ =~= this@.cancelled(order_id));
            assert forall|key: u64| #[trigger]
                self.resting.registry.order_index@.contains_key(key) implies self.indexed(key) by {
                assert(this.resting.registry.order_index@.contains_key(key) && key != order_id.0);
                assert(this.indexed(key));
                let (slot, sd, price2) = this.resting.registry.order_index@[key];
                assert(slot != idx);
                if sd == side {
                    lemma_holds_without(this.slot_levels(side), idx, slot);
                }
                this.lemma_view(sd);
                assert(mid.nodes()[slot.0 as int].price == nodes[slot.0 as int].price);
            }
        }
        Ok(())
    }

    /// Add a market order: trade with the other side at any price. Nothing is
    /// ever put to rest, so the id is not used. A fill-or-kill order that cannot
    /// be filled completely does nothing at all.
    pub fn add_market_order(
        &mut self,
        _order_id: OrderId,
        side: Side,
        quantity: u64,
        mode: MarketOrderMode,
    ) -> (r: BookResult<MarketOrderResult>)
        requires
            old(self).wf(),
        ensures
            final(self).wf(),
            ({
                let s = old(self)@.taking(side, None, quantity);
                if mode == MarketOrderMode::FillOrKill && total(old(self)@.on(side.other()))
                    < quantity {
                    &&& r == Ok::<MarketOrderResult, BookError>(
                        (MarketOrderResult { remaining: quantity }),
                    )
                    &&& final(self)@ == old(self)@
                    &&& settled(old(self).sink(), Seq::empty(), final(self).sink())
                } else {
                    &&& r == Ok::<MarketOrderResult, BookError>(
                        (MarketOrderResult { remaining: s.left }),
                    )
                    &&& final(self)@ == old(self)@.taken(side, None, quantity)
                    &&& settled(old(self).sink(), by_id(s.fills), final(self).sink())
                }
            }),
    {
        if mode == MarketOrderMode::FillOrKill {
            let opposite = match side {
                Side::Bid => Side::Ask,
                Side::Ask => Side::Bid,
            };
            proof {
                self.lemma_view(opposite);
                lemma_total_renamed(self.slot_levels(opposite), self.name());
            }
            let available = self.resting.sides.available(
                opposite,
                Ghost(self.resting.registry.nodes()),
                Ghost(self.resting.registry.free_list()),
            );
            if available < quantity as u128 {
                proof {
                    lemma_delivered_none::<OrderId, C>(self.sink());
                }
                self.consumer.flush();
                return Ok(MarketOrderResult { remaining: quantity });
            }
        }
        let remaining = self.match_against_opposite(side, None, quantity)?;
        self.consumer.flush();
        Ok(MarketOrderResult { remaining })
    }
}

/// As long as every resting order can be cancelled by its id, trading keeps it
/// that way, and the ids of the orders that were filled completely are unknown
/// afterwards.
pub proof fn law_filled_ids_are_unknown(
    v: BookView,
    side: Side,
    limit: Option<u64>,
    quantity: u64,
)
    requires
        v.valid(),
        v.all_indexed(),
    ensures
        v.taken(side, limit, quantity).all_indexed(),
        forall|t: Ticket|
            v.taking(side, limit, quantity).done().contains(t) ==> !(#[trigger] v.taken(
                side,
                limit,
                quantity,
            ).index.contains_key(t.id.0)),
{
    let s = v.taking(side, limit, quantity);
    let after = v.taken(side, limit, quantity);
    let opp = side.other();
    let done = s.done();
    let keys = done.map_values(|t: Ticket| t.id.0);
    law_filled_or_still_there(opp, v.on(opp), limit, quantity);
    assert forall|t: Ticket| done.contains(t) implies !(#[trigger] after.index.contains_key(
        t.id.0,
    )) by {
        let i = done.index_of(t);
        assert(keys[i] == t.id.0);
        assert(keys.contains(t.id.0));
    }
    assert forall|sd: Side, t: Ticket| #[trigger] holds(after.on(sd), t) implies after.index.contains_key(
        t.id.0,
    ) && after.index[t.id.0].0 == t.slot by {
        assert(holds(v.on(sd), t));
        if keys.contains(t.id.0) {
            let i = keys.index_of(t.id.0);
            let other = done[i];
            assert(other.id == t.id);
            assert(done.contains(other));
            assert(holds(v.on(opp), other));
            assert(other.slot == t.slot);
            assert(other == t);
            assert(!(holds(v.bids, t) && holds(v.asks, t)));
        }
    }
}

/// As long as every resting order can be cancelled by its id, an order under an
/// id that is not in use keeps it that way.
pub proof fn law_new_ids_can_be_cancelled(
    v: BookView,
    order_id: OrderId,
    side: Side,
    price: Price,
    quantity: u64,
)
    requires
        v.valid(),
        v.all_indexed(),
        !v.index.contains_key(order_id.0),
    ensures
        v.rested(order_id, side, price, quantity).all_indexed(),
        v.rested(order_id, side, price, quantity).index.contains_key(order_id.0),
{
    let after = v.rested(order_id, side, price, quantity);
    let lot = Lot { id: Ticket { slot: v.free[0], id: order_id }, quantity };
    assert forall|sd: Side, t: Ticket| #[trigger] holds(after.on(sd), t) implies after.index.contains_key(
        t.id.0,
    ) && after.index[t.id.0].0 == t.slot by {
        if sd == side {
            lemma_holds_with_lot(v.on(side), price.0, lot, t);
        }
        if t != lot.id {
            assert(holds(v.on(sd), t));
        }
    }
}

/// As long as every resting order can be cancelled by its id, cancelling one
/// takes it off the book and keeps it that way; its id is then unknown.
pub proof fn law_cancelled_id_is_unknown(v: BookView, order_id: OrderId)
    requires
        v.valid(),
        v.all_indexed(),
        v.index.contains_key(order_id.0),
    ensures
        v.cancelled(order_id).all_indexed(),
        !v.cancelled(order_id).index.contains_key(order_id.0),
        forall|side: Side, t: Ticket| #[trigger]
            holds(v.cancelled(order_id).on(side), t) ==> t.id != order_id,
{
    let after = v.cancelled(order_id);
    let (slot, side, price) = v.index[order_id.0];
    let gone = Ticket { slot, id: order_id };
    assert forall|sd: Side, t: Ticket| #[trigger] holds(after.on(sd), t) implies holds(
        v.on(sd),
        t,
    ) && t.id != order_id by {
        if sd == side {
            lemma_holds_without(v.on(side), gone, t);
        }
        assert(holds(v.on(sd), t));
        if t.id == order_id {
            assert(t == gone);
            assert(!(holds(v.bids, t) && holds(v.asks, t)));
        }
    }
}

/// How many orders the book can hold: those that rest, and one for each free
/// slot.
pub open spec fn size(v: BookView) -> nat {
    v.free.len() + crowd(v.bids) + crowd(v.asks)
}

/// No slot is lost: trading gives back the slots of the orders that it fills
/// completely, an order that comes to rest takes one slot, and a cancel gives
/// one back.
pub proof fn law_no_slot_is_lost(
    v: BookView,
    order_id: OrderId,
    side: Side,
    price: Price,
    limit: Option<u64>,
    quantity: u64,
)
    requires
        v.valid(),
    ensures
        size(v.taken(side, limit, quantity)) == size(v),
        v.free.len() > 0 ==> size(v.rested(order_id, side, price, quantity)) == size(v),
        v.index.contains_key(order_id.0) ==> size(v.cancelled(order_id)) == size(v),
{
    lemma_crowd_swept(side.other(), v.on(side.other()), limit, quantity);
    if v.free.len() > 0 {
        let id = Ticket { slot: v.free[0], id: order_id };
        lemma_crowd_with_lot(v.on(side), price.0, Lot { id, quantity });
    }
    if v.index.contains_key(order_id.0) {
        let (slot, half, at) = v.index[order_id.0];
        let t = Ticket { slot, id: order_id };
        let levels = v.on(half);
        assert(holds(levels, t));
        let (p, pos) = choose|p: u64, pos: int| rests_at(levels, p, pos, t);
        assert(rests_at(levels, p, pos, t));
        lemma_crowd_without(levels, p, pos, t);
    }
}

} // verus!
