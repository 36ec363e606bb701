//! The order book with one slab shared between bids and asks. A handle is
//! `(generation, slot)` and says nothing about the side.

use vstd::prelude::*;

use crate::api::{Depth, OrderBookApi};
use crate::arena::{
    first, freelist, fresh, in_range, last, lemma_freelist_frame, lemma_freelist_pop, lemma_fresh,
    lemma_margin, lemma_spliced, linked, margin, retired_all, Arena, Links, Node,
};
use crate::errors::{BookError, BookResult};
use crate::fills::{delivered, lemma_delivered_none, FillSink};
use crate::half_book::{self, in_shape, lemma_tells_renamed, tells, ticks};
use crate::laws::law_filled_or_still_there;
use crate::level::named;
use crate::model::{
    distinct_ids, holds, lemma_distinct_renamed, lemma_holds_renamed, lemma_holds_with_lot,
    lemma_holds_without, lemma_queue_total_rename, lemma_renamed_frame, lemma_sound_renamed,
    lemma_sweep_leaves, lemma_sweep_renamed, lemma_swept_held, lemma_total_renamed,
    lemma_without_renamed, lots_at, queue_total, rename, renamed, sound, sweep, total, uncrossed,
    with_lot, without, Levels, Lot, Swept,
};
use crate::two_sided::{lemma_concat_contains, Sides};

pub use crate::arena::SlabIndex;
pub use crate::half_book::HalfBook;
pub use crate::level::PriceLevel;
pub use crate::types::{MarketOrderMode, MarketOrderResult, Price, Side, SlabAllocator};

verus! {

/// A resting limit order. While a slot is free only `next`, the freelist link,
/// and `generation` mean anything.
#[derive(Debug, Clone, Copy)]
pub struct Order {
    pub price: Price,
    /// What is left of the quantity; less after a partial fill.
    pub quantity: u64,
    /// The order ahead in the queue (older, higher priority).
    pub prev: Option<SlabIndex>,
    /// The order behind in the queue (newer, lower priority).
    pub next: Option<SlabIndex>,
    /// Goes up each time the slot is given back, so that a handle to an earlier
    /// order in this slot is told apart from a current one.
    pub generation: u32,
    /// The side the order rests on.
    pub side: Side,
}

impl Order {
    /// The part of the order that queues are made of.
    pub open spec fn node(self) -> Node {
        Node { price: self.price.0, quantity: self.quantity, prev: self.prev, next: self.next }
    }
}

/// Engine-assigned, opaque order handle: generation in the high 32 bits, slab
/// index in the low 32, both non-zero.
///
/// A handle is got from `add_limit_order` and handed back to
/// `cancel_limit_order`; nothing else should be made of its bits.
#[derive(Debug, Clone, Copy, PartialEq, Eq, Hash, Structural)]
pub struct OrderHandle(u64);

/// The raw value of a handle.
pub open spec fn packed(idx: SlabIndex, generation: u32) -> int {
    generation * 0x1_0000_0000 + idx.0
}

impl OrderHandle {
    /// The handle of the order that occupies slot `idx` with the given
    /// generation.
    pub closed spec fn minted(idx: SlabIndex, generation: u32) -> OrderHandle {
        OrderHandle(packed(idx, generation) as u64)
    }

    /// The raw value.
    pub closed spec fn raw(self) -> u64 {
        self.0
    }

    /// The slot that the handle points at.
    pub open spec fn slot(self) -> SlabIndex {
        SlabIndex((self.raw() % 0x1_0000_0000) as u32)
    }

    /// The generation of the order that the handle points at.
    pub open spec fn era(self) -> u32 {
        (self.raw() / 0x1_0000_0000) as u32
    }

    /// A handle holds exactly what it was made from.
    pub proof fn lemma_minted(idx: SlabIndex, generation: u32)
        ensures
            ({
                let h = OrderHandle::minted(idx, generation);
                &&& h.raw() == packed(idx, generation)
                &&& h.slot() == idx
                &&& h.era() == generation
            }),
    {
    }

    /// A handle is determined by its slot and generation.
    pub proof fn lemma_handle(self)
        ensures
            self == OrderHandle::minted(self.slot(), self.era()),
    {
    }

    pub fn new(idx: SlabIndex, generation: u32) -> (r: Self)
        requires
            idx.0 != 0,
            generation != 0,
        ensures
            r == OrderHandle::minted(idx, generation),
            r.raw() == packed(idx, generation),
    {
        let i = idx.0;
        let packed = ((generation as u64) << 32) | (i as u64);
        proof {
            assert(((generation as u64) << 32) | (i as u64) == generation * 0x1_0000_0000 + i)
                by (bit_vector);
        }
        OrderHandle(packed)
    }

    pub fn idx(self) -> (r: SlabIndex)
        ensures
            r == self.slot(),
    {
        let raw = self.0;
        let lo = raw as u32;
        proof {
            assert(raw as u32 == raw % 0x1_0000_0000) by (bit_vector);
        }
        SlabIndex(lo)
    }

    pub fn generation(self) -> (r: u32)
        ensures
            r == self.era(),
    {
        let raw = self.0;
        let hi = (raw >> 32) as u32;
        proof {
            assert((raw >> 32) as u32 == raw / 0x1_0000_0000) by (bit_vector);
        }
        hi
    }

    /// Wire-friendly raw value.
    pub fn as_u64(self) -> (r: u64)
        ensures
            r == self.raw(),
    {
        self.0
    }
}

/// The generation after `generation`: 0 is skipped.
pub open spec fn bumped(generation: u32) -> u32 {
    if generation == u32::MAX {
        1
    } else {
        (generation + 1) as u32
    }
}

/// The linkable part of every slot.
pub open spec fn nodes_of(slots: Seq<Order>) -> Seq<Node> {
    slots.map_values(|o: Order| o.node())
}

/// What a slot holds besides its node.
#[verifier::ext_equal]
pub struct Tag {
    pub generation: u32,
    pub side: Side,
}

/// What every slot holds besides its node.
pub open spec fn tags_of(slots: Seq<Order>) -> Seq<Tag> {
    slots.map_values(|o: Order| Tag { generation: o.generation, side: o.side })
}

/// The generation of every slot.
pub open spec fn generations_in(tags: Seq<Tag>) -> Seq<u32> {
    tags.map_values(|t: Tag| t.generation)
}

/// A slot as it is in a fresh slab.
pub open spec fn blank(n: int, capacity: nat) -> Order {
    Order {
        price: Price(0),
        quantity: 0,
        prev: None,
        next: if 1 <= n < capacity {
            Some(SlabIndex((n + 1) as u32))
        } else {
            None
        },
        generation: 1,
        side: Side::Bid,
    }
}

/// Fixed-size storage for the orders of a book.
///
/// Slot 0 is never used. Slots that hold no order are on the freelist, which
/// runs through their `next` links.
pub struct OrderSlab {
    slots: Vec<Order>,
    free_head: Option<SlabIndex>,
    capacity: usize,
    /// The slots of the freelist, in order.
    free: Ghost<Seq<SlabIndex>>,
}

impl OrderSlab {
    /// The orders in all slots, slot 0 included.
    pub closed spec fn slots(self) -> Seq<Order> {
        self.slots@
    }

    /// The slots on the freelist, next one to hand out first.
    pub closed spec fn free_slots(self) -> Seq<SlabIndex> {
        self.free@
    }

    /// How many orders there is room for.
    pub closed spec fn room(self) -> nat {
        self.capacity as nat
    }

    /// The freelist is one, and every generation is in its range.
    pub closed spec fn valid(self) -> bool {
        &&& 0 < self.capacity <= u32::MAX
        &&& self.slots@.len() == self.capacity + 1
        &&& freelist(nodes_of(self.slots@), self.free@, self.free_head)
        &&& forall|n: int|
            0 <= n < self.slots@.len() ==> (#[trigger] self.slots@[n]).generation != 0
    }

    /// The slab is as it was made: every slot is free and blank.
    pub open spec fn is_fresh(self) -> bool {
        &&& self.free_slots() == fresh(self.room())
        &&& self.slots() == Seq::new(self.room() + 1, |n: int| blank(n, self.room()))
    }

    /// What a valid slab satisfies.
    pub proof fn lemma_valid(self)
        requires
            self.valid(),
        ensures
            self.slots().len() == self.room() + 1,
            0 < self.room() <= u32::MAX,
            freelist(nodes_of(self.slots()), self.free_slots(), first(self.free_slots())),
            forall|n: int|
                0 <= n < self.slots().len() ==> (#[trigger] self.slots()[n]).generation != 0,
    {
    }

    /// A slab with `capacity` free slots: slot 1 first, all in their first
    /// generation.
    pub fn with_capacity(capacity: usize) -> (r: Self)
        requires
            0 < capacity <= u32::MAX,
            capacity < usize::MAX,
        ensures
            r.valid(),
            r.room() == capacity,
            r.is_fresh(),
    {
        Self::with_storage(Vec::with_capacity(capacity + 1), capacity)
    }

    /// A slab with memory from the given allocator. Huge pages are for the
    /// caller to map: `mapped` is the still empty storage on them, or nothing if
    /// the platform has none or did not grant the mapping, and then the
    /// allocator is not supported. The system allocator needs no mapping and
    /// always succeeds.
    pub fn with_capacity_in(
        capacity: usize,
        alloc: SlabAllocator,
        mapped: Option<Vec<Order>>,
    ) -> (r: BookResult<Self>)
        requires
            0 < capacity <= u32::MAX,
            capacity < usize::MAX,
            mapped matches Some(storage) ==> storage@.len() == 0,
        ensures
            r is Ok <==> alloc == SlabAllocator::System || mapped is Some,
            match r {
                Ok(slab) => slab.valid() && slab.room() == capacity && slab.is_fresh(),
                Err(e) => e == BookError::UnsupportedAllocator,
            },
    {
        match alloc {
            SlabAllocator::System => Ok(Self::with_capacity(capacity)),
            SlabAllocator::MadvHugepage | SlabAllocator::Hugetlb => match mapped {
                Some(storage) => Ok(Self::with_storage(storage, capacity)),
                None => Err(BookError::UnsupportedAllocator),
            },
        }
    }

    /// A slab with `capacity` free slots in the given, still empty storage. The
    /// storage grows to `capacity + 1` elements and no further.
    pub fn with_storage(storage: Vec<Order>, capacity: usize) -> (r: Self)
        requires
            storage@.len() == 0,
            0 < capacity <= u32::MAX,
            capacity < usize::MAX,
        ensures
            r.valid(),
            r.room() == capacity,
            r.is_fresh(),
    {
        let mut slots = storage;
        slots.push(
            Order {
                price: Price(0),
                quantity: 0,
                prev: None,
                next: None,
                generation: 1,
                side: Side::Bid,
            },
        );
        let mut i: usize = 1;
        while i <= capacity
            invariant
                0 < capacity <= u32::MAX,
                capacity < usize::MAX,
                1 <= i <= capacity + 1,
                slots@.len() == i,
                forall|n: int|
                    0 <= n < i ==> (#[trigger] slots@[n]) == blank(n, capacity as nat),
            decreases capacity + 1 - i,
        {
            let next_free = if i < capacity {
                Some(SlabIndex::new((i + 1) as u32))
            } else {
                None
            };
            slots.push(
                Order {
                    price: Price(0),
                    quantity: 0,
                    prev: None,
                    next: next_free,
                    generation: 1,
                    side: Side::Bid,
                },
            );
            i = i + 1;
        }
        let ghost nodes = nodes_of(slots@);
        proof {
            assert forall|n: int| 1 <= n <= capacity implies (#[trigger] nodes[n]).next == (if n
                < capacity {
                Some(SlabIndex((n + 1) as u32))
            } else {
                None
            }) by {
                assert(nodes[n] == slots@[n].node());
            }
            lemma_fresh(nodes, capacity as nat);
        }
        assert(slots@ =~= Seq::new(capacity as nat + 1, |n: int| blank(n, capacity as nat)));
        OrderSlab {
            slots,
            free_head: Some(SlabIndex::new(1)),
            capacity,
            free: Ghost(fresh(capacity as nat)),
        }
    }

    /// The storage, for whoever has to give its memory back.
    pub fn into_storage(self) -> (r: Vec<Order>)
        ensures
            r@ == self.slots(),
    {
        self.slots
    }

    /// How many bytes `capacity` slots take, slot 0 included, if an order takes
    /// `order_size` of them. Storage that no address space can hold is not
    /// supported.
    pub fn storage_bytes(capacity: usize, order_size: usize) -> (r: BookResult<usize>)
        requires
            capacity < usize::MAX,
        ensures
            match r {
                Ok(bytes) => bytes == (capacity + 1) * order_size,
                Err(e) => e == BookError::UnsupportedAllocator && (capacity + 1) * order_size
                    > usize::MAX,
            },
    {
        match (capacity + 1).checked_mul(order_size) {
            Some(bytes) => Ok(bytes),
            None => Err(BookError::UnsupportedAllocator),
        }
    }

    pub fn get(&self, idx: SlabIndex) -> (r: &Order)
        requires
            idx.0 < self.slots().len(),
        ensures
            *r == self.slots()[idx.0 as int],
    {
        &self.slots[idx.as_usize()]
    }

    /// Write access to a slot. The slab stays valid if the generation that is
    /// written is not 0, and the link of a slot on the freelist is not changed.
    pub fn get_mut(&mut self, idx: SlabIndex) -> (r: &mut Order)
        requires
            idx.0 < old(self).slots().len(),
        ensures
            *r == old(self).slots()[idx.0 as int],
            final(self).slots() == old(self).slots().update(idx.0 as int, *final(r)),
            final(self).free_slots() == old(self).free_slots(),
            final(self).room() == old(self).room(),
            old(self).valid() && (!old(self).free_slots().contains(idx) || final(r).next == old(
                self,
            ).slots()[idx.0 as int].next) && final(r).generation != 0 ==> final(self).valid(),
    {
        proof {
            let a = nodes_of(self.slots@);
            let here = self.slots@[idx.0 as int];
            if freelist(a, self.free@, first(self.free@)) {
                assert forall|o: Order|
                    !self.free@.contains(idx) || o.next == here.next implies freelist(
                    nodes_of(#[trigger] self.slots@.update(idx.0 as int, o)),
                    self.free@,
                    first(self.free@),
                ) by {
                    let b = nodes_of(self.slots@.update(idx.0 as int, o));
                    assert forall|i: int| 0 <= i < self.free@.len() implies b[(
                    #[trigger] self.free@[i]).0 as int].next == a[self.free@[i].0 as int].next by {
                        assert(self.free@.contains(self.free@[i]));
                        assert(in_range(a, self.free@[i]));
                    }
                    lemma_freelist_frame(a, b, self.free@);
                }
            }
        }
        &mut self.slots[idx.as_usize()]
    }

    /// Move the slot on to its next generation, so that handles to its current
    /// order are no longer accepted.
    pub fn bump_generation(&mut self, idx: SlabIndex)
        requires
            idx.0 < old(self).slots().len(),
        ensures
            old(self).valid() ==> final(self).valid(),
            final(self).slots() == old(self).slots().update(
                idx.0 as int,
                Order {
                    generation: bumped(old(self).slots()[idx.0 as int].generation),
                    ..old(self).slots()[idx.0 as int]
                },
            ),
            final(self).free_slots() == old(self).free_slots(),
            final(self).room() == old(self).room(),
    {
        let ghost before = self.slots@;
        let i = idx.as_usize();
        let generation = self.slots[i].generation;
        let next = generation.wrapping_add(1);
        let new_gen = if next == 0 {
            1
        } else {
            next
        };
        self.slots[i].generation = new_gen;
        assert(nodes_of(self.slots@) =~= nodes_of(before));
    }

    /// Put the slot at the front of the freelist and move it on to its next
    /// generation.
    pub fn free(&mut self, idx: SlabIndex)
        requires
            old(self).valid(),
            0 < idx.0 < old(self).slots().len(),
            !old(self).free_slots().contains(idx),
        ensures
            final(self).valid(),
            final(self).slots() == old(self).slots().update(
                idx.0 as int,
                Order {
                    generation: bumped(old(self).slots()[idx.0 as int].generation),
                    next: first(old(self).free_slots()),
                    ..old(self).slots()[idx.0 as int]
                },
            ),
            final(self).free_slots() == seq![idx] + old(self).free_slots(),
            final(self).room() == old(self).room(),
    {
        self.bump_generation(idx);
        let ghost nodes = nodes_of(self.slots@);
        let ghost chain = seq![idx];
        proof {
            assert(linked(nodes, chain, nodes[idx.0 as int].next));
            lemma_spliced(nodes, chain, self.free@);
            self.free@ = chain + self.free@;
        }
        let i = idx.as_usize();
        let next = self.free_head;
        self.slots[i].next = next;
        self.free_head = Some(idx);
        assert(nodes_of(self.slots@) =~= nodes.update(
            idx.0 as int,
            Node { next: next, ..nodes[idx.0 as int] },
        ));
    }

    /// Take the first slot off the freelist. Its generation comes with it.
    pub fn alloc_slot(&mut self) -> (r: BookResult<(SlabIndex, u32)>)
        requires
            old(self).valid(),
        ensures
            final(self).valid(),
            final(self).slots() == old(self).slots(),
            final(self).room() == old(self).room(),
            match r {
                Ok((idx, generation)) => {
                    &&& old(self).free_slots().len() > 0
                    &&& idx == old(self).free_slots()[0]
                    &&& generation == old(self).slots()[idx.0 as int].generation
                    &&& final(self).free_slots() == old(self).free_slots().drop_first()
                },
                Err(e) => {
                    &&& e == BookError::SlabFull
                    &&& old(self).free_slots().len() == 0
                    &&& final(self).free_slots() == old(self).free_slots()
                },
            },
    {
        let idx = match self.free_head {
            Some(idx) => idx,
            None => {
                return Err(BookError::SlabFull);
            },
        };
        proof {
            lemma_freelist_pop(nodes_of(self.slots@), self.free@);
            assert(in_range(nodes_of(self.slots@), self.free@[0]));
            self.free@ = self.free@.drop_first();
        }
        let i = idx.as_usize();
        self.free_head = self.slots[i].next;
        Ok((idx, self.slots[i].generation))
    }

    pub fn capacity(&self) -> (r: usize)
        ensures
            r == self.room(),
    {
        self.capacity
    }
}
impl Links for OrderSlab {
    type Rest = Seq<Tag>;

    open spec fn nodes(&self) -> Seq<Node> {
        nodes_of(self.slots())
    }

    open spec fn free_list(&self) -> Seq<SlabIndex> {
        self.free_slots()
    }

    open spec fn rest(&self) -> Seq<Tag> {
        tags_of(self.slots())
    }

    open spec fn wf(&self) -> bool {
        self.valid()
    }

    proof fn lemma_wf(&self) {
    }

    fn node(&self, idx: SlabIndex) -> Node {
        let o = &self.slots[idx.as_usize()];
        Node { price: o.price.0, quantity: o.quantity, prev: o.prev, next: o.next }
    }

    fn set_prev(&mut self, idx: SlabIndex, prev: Option<SlabIndex>) {
        let ghost nodes = self.nodes();
        let ghost rest = self.rest();
        self.get_mut(idx).prev = prev;
        assert(self.nodes() =~= nodes.update(
            idx.0 as int,
            Node { prev, ..nodes[idx.0 as int] },
        ));
        assert(self.rest() =~= rest);
    }

    fn set_next(&mut self, idx: SlabIndex, next: Option<SlabIndex>) {
        let ghost nodes = self.nodes();
        let ghost rest = self.rest();
        self.get_mut(idx).next = next;
        assert(self.nodes() =~= nodes.update(
            idx.0 as int,
            Node { next, ..nodes[idx.0 as int] },
        ));
        assert(self.rest() =~= rest);
    }
}

impl Arena for OrderSlab {
    type Id = OrderHandle;

    open spec fn id_in(rest: Seq<Tag>, side: Side, idx: SlabIndex) -> OrderHandle {
        handle_in(generations_in(rest), idx)
    }

    open spec fn retired(rest: Seq<Tag>, idx: SlabIndex) -> Seq<Tag> {
        Seq::new(
            rest.len(),
            |n: int| if n == idx.0 {
                Tag { generation: bumped(rest[n].generation), ..rest[n] }
            } else {
                rest[n]
            },
        )
    }

    proof fn lemma_retired(rest: Seq<Tag>, side: Side, gone: SlabIndex, kept: SlabIndex) {
    }

    fn id(&self, side: Side, idx: SlabIndex) -> OrderHandle {
        OrderHandle::new(idx, self.slots[idx.as_usize()].generation)
    }

    fn set_quantity(&mut self, idx: SlabIndex, quantity: u64) {
        let ghost nodes = self.nodes();
        let ghost rest = self.rest();
        self.get_mut(idx).quantity = quantity;
        assert(self.nodes() =~= nodes.update(
            idx.0 as int,
            Node { quantity, ..nodes[idx.0 as int] },
        ));
        assert(self.rest() =~= rest);
    }

    fn retire(&mut self, idx: SlabIndex) {
        let ghost nodes = self.nodes();
        let ghost rest = self.rest();
        self.bump_generation(idx);
        assert(self.nodes() =~= nodes);
        assert(self.rest() =~= Self::retired(rest, idx));
    }

    fn splice(&mut self, head: SlabIndex, tail: SlabIndex, Ghost(chain): Ghost<Seq<SlabIndex>>) {
        let ghost nodes = self.nodes();
        let ghost rest = self.rest();
        proof {
            assert(chain.last() == tail);
            assert(in_range(nodes, chain[chain.len() - 1]));
            lemma_spliced(nodes, chain, self.free@);
            self.free@ = chain + self.free@;
        }
        let i = tail.as_usize();
        let next = self.free_head;
        self.slots[i].next = next;
        self.free_head = Some(head);
        assert(self.nodes() =~= nodes.update(
            tail.0 as int,
            Node { next, ..nodes[tail.0 as int] },
        ));
        assert(self.rest() =~= rest);
    }
}

/// The handle of the order in slot `idx` of a slab with these generations.
pub open spec fn handle_in(generations: Seq<u32>, idx: SlabIndex) -> OrderHandle {
    OrderHandle::minted(
        idx,
        if idx.0 < generations.len() {
            generations[idx.0 as int]
        } else {
            0
        },
    )
}

/// One fill of a resting order.
#[derive(Debug)]
pub struct Fill {
    pub resting_id: OrderHandle,
    pub quantity: u64,
}

/// Where a book's fills go.
pub trait FillConsumer: Sized {
    /// Handing `fill` to `pre` may turn it into `post`.
    open spec fn fill_step(pre: Self, fill: Fill, post: Self) -> bool {
        true
    }

    /// Flushing `pre` may turn it into `post`.
    open spec fn flush_step(pre: Self, post: Self) -> bool {
        true
    }

    fn on_fill(&mut self, fill: Fill)
        ensures
            Self::fill_step(*old(self), fill, *final(self)),
    ;

    /// Called at the end of every limit and every market order, whatever came of
    /// it, after all of that operation's fills have been handed over. Consumers
    /// that buffer fills use this as their commit point; for others it does
    /// nothing.
    fn flush(&mut self)
        ensures
            Self::flush_step(*old(self), *final(self)),
    ;
}

impl<C: FillConsumer> FillSink<OrderHandle> for C {
    open spec fn fill_step(pre: Self, fill: Lot<OrderHandle>, post: Self) -> bool {
        <C as FillConsumer>::fill_step(
            pre,
            Fill { resting_id: fill.id, quantity: fill.quantity },
            post,
        )
    }

    fn deliver(&mut self, id: OrderHandle, quantity: u64) {
        self.on_fill(Fill { resting_id: id, quantity });
    }
}

/// Collects every fill.
pub struct VecConsumer {
    pub fills: Vec<Fill>,
}

impl Default for VecConsumer {
    fn default() -> (r: Self)
        ensures
            r.fills@ == Seq::<Fill>::empty(),
    {
        VecConsumer { fills: Vec::new() }
    }
}

impl FillConsumer for VecConsumer {
    open spec fn fill_step(pre: Self, fill: Fill, post: Self) -> bool {
        post.fills@ == pre.fills@.push(fill)
    }

    open spec fn flush_step(pre: Self, post: Self) -> bool {
        post.fills@ == pre.fills@
    }

    fn on_fill(&mut self, fill: Fill) {
        self.fills.push(fill);
    }

    fn flush(&mut self) {
    }
}

/// The slots of some orders.
pub open spec fn slots_of(handles: Seq<OrderHandle>) -> Seq<SlabIndex> {
    handles.map_values(|h: OrderHandle| h.slot())
}

/// The generations of a slab once the orders in the slots `gone` are gone.
pub open spec fn aged(generations: Seq<u32>, gone: Seq<SlabIndex>) -> Seq<u32> {
    Seq::new(
        generations.len(),
        |n: int| if gone.contains(SlabIndex(n as u32)) {
            bumped(generations[n])
        } else {
            generations[n]
        },
    )
}

/// Retiring distinct slots one by one moves each of them on by one generation.
proof fn lemma_aged(tags: Seq<Tag>, gone: Seq<SlabIndex>)
    requires
        gone.no_duplicates(),
        tags.len() <= u32::MAX + 1,
    ensures
        ({
            let after = retired_all::<OrderSlab>(tags, gone);
            &&& generations_in(after) == aged(generations_in(tags), gone)
            &&& forall|n: int| 0 <= n < tags.len() ==> (#[trigger] after[n]).side == tags[n].side
        }),
    decreases gone.len(),
{
    let after = retired_all::<OrderSlab>(tags, gone);
    if gone.len() == 0 {
        assert(generations_in(after) =~= aged(generations_in(tags), gone));
    } else {
        let front = gone.drop_last();
        let last = gone.last();
        lemma_aged(tags, front);
        let mid = retired_all::<OrderSlab>(tags, front);
        assert(generations_in(mid).len() == tags.len());
        assert forall|idx: SlabIndex| gone.contains(idx) <==> front.contains(idx) || idx
            == last by {
            if gone.contains(idx) && idx != last {
                let i = gone.index_of(idx);
                assert(front[i] == idx);
            }
            if front.contains(idx) {
                let i = front.index_of(idx);
                assert(gone[i] == idx);
            }
            assert(gone[gone.len() - 1] == last);
        }
        assert(!front.contains(last)) by {
            if front.contains(last) {
                let i = front.index_of(last);
                assert(gone[i] == gone[gone.len() - 1]);
            }
        }
        assert forall|n: int| 0 <= n < tags.len() implies #[trigger] generations_in(after)[n]
            == aged(generations_in(tags), gone)[n] by {
            assert(generations_in(mid)[n] == aged(generations_in(tags), front)[n]);
        }
        assert(generations_in(after) =~= aged(generations_in(tags), gone));
    }
}

/// Handing `fills` to `pre`, one by one and in order, and then flushing it may
/// turn it into `post`.
pub open spec fn settled<C: FillConsumer>(pre: C, fills: Seq<Lot<OrderHandle>>, post: C) -> bool {
    exists|mid: C| #[trigger] delivered(pre, fills, mid) && C::flush_step(mid, post)
}

/// The generations of a slab are in their range.
pub open spec fn in_era(generations: Seq<u32>) -> bool {
    forall|n: int| 0 <= n < generations.len() ==> #[trigger] generations[n] != 0
}

/// A book as seen from outside.
#[verifier::ext_equal]
pub struct BookView {
    /// The resting bids, by price.
    pub bids: Levels<OrderHandle>,
    /// The resting asks, by price.
    pub asks: Levels<OrderHandle>,
    /// The free slots, next one to be used first.
    pub free: Seq<SlabIndex>,
    /// The generation of every slot.
    pub generations: Seq<u32>,
}

impl BookView {
    /// A book with `capacity` free slots and nothing resting.
    pub open spec fn empty(capacity: nat) -> BookView {
        BookView {
            bids: Map::empty(),
            asks: Map::empty(),
            free: fresh(capacity),
            generations: Seq::new(capacity + 1, |n: int| 1u32),
        }
    }

    /// What rests on the given side.
    pub open spec fn on(self, side: Side) -> Levels<OrderHandle> {
        match side {
            Side::Bid => self.bids,
            Side::Ask => self.asks,
        }
    }

    /// The book with what rests on the given side replaced.
    pub open spec fn put(self, side: Side, levels: Levels<OrderHandle>) -> BookView {
        match side {
            Side::Bid => BookView { bids: levels, ..self },
            Side::Ask => BookView { asks: levels, ..self },
        }
    }

    /// What an aggressor on `side` does to the other side.
    pub open spec fn taking(self, side: Side, limit: Option<u64>, quantity: u64) -> Swept<
        OrderHandle,
    > {
        sweep(side.other(), self.on(side.other()), limit, quantity)
    }

    /// The book after an aggressor on `side` has taken what it could: the slots
    /// of the orders that were filled completely are free again, in the order
    /// in which they were filled.
    pub open spec fn taken(self, side: Side, limit: Option<u64>, quantity: u64) -> BookView {
        let s = self.taking(side, limit, quantity);
        BookView {
            free: slots_of(s.done()) + self.free,
            generations: aged(self.generations, slots_of(s.done())),
            ..self.put(side.other(), s.levels)
        }
    }

    /// The handle that the next resting order will get.
    pub open spec fn next_handle(self) -> OrderHandle {
        handle_in(self.generations, self.free[0])
    }

    /// The book after an order has been put to rest.
    pub open spec fn rested(self, side: Side, price: u64, quantity: u64) -> BookView {
        BookView {
            free: self.free.drop_first(),
            ..self.put(
                side,
                with_lot(self.on(side), price, Lot { id: self.next_handle(), quantity }),
            )
        }
    }

    /// An order with handle `h` rests.
    pub open spec fn has(self, h: OrderHandle) -> bool {
        holds(self.bids, h) || holds(self.asks, h)
    }

    /// The side that the order with handle `h` rests on.
    pub open spec fn half(self, h: OrderHandle) -> Side {
        if holds(self.bids, h) {
            Side::Bid
        } else {
            Side::Ask
        }
    }

    /// The book after the resting order with handle `h` has been cancelled.
    pub open spec fn cancelled(self, h: OrderHandle) -> BookView {
        BookView {
            free: seq![h.slot()] + self.free,
            generations: aged(self.generations, seq![h.slot()]),
            ..self.put(self.half(h), without(self.on(self.half(h)), h))
        }
    }

    /// Each side is in order, and every bid is below every ask. Each slot either
    /// is free or holds one resting order, whose handle carries the slot's
    /// generation.
    pub open spec fn valid(self) -> bool {
        &&& sound(self.bids)
        &&& sound(self.asks)
        &&& uncrossed(self.bids, self.asks)
        &&& 1 <= self.generations.len() <= u32::MAX + 1
        &&& in_era(self.generations)
        &&& self.free.no_duplicates()
        &&& forall|idx: SlabIndex| #[trigger]
            self.free.contains(idx) ==> 0 < idx.0 < self.generations.len()
        &&& forall|h: OrderHandle| #[trigger]
            self.has(h) ==> {
                &&& 0 < h.slot().0 < self.generations.len()
                &&& h.era() == self.generations[h.slot().0 as int]
                &&& !self.free.contains(h.slot())
            }
        &&& forall|h: OrderHandle| !(#[trigger] holds(self.bids, h) && #[trigger] holds(self.asks, h))
        &&& forall|idx: SlabIndex|
            0 < idx.0 < self.generations.len() ==> self.free.contains(idx) || self.has(
                #[trigger] handle_in(self.generations, idx),
            )
    }

    /// `h` has been handed out: its slot is in a later generation, or in the
    /// handle's own and not free.
    pub open spec fn issued(self, h: OrderHandle) -> bool {
        &&& 0 < h.slot().0 < self.generations.len()
        &&& h.era() <= self.generations[h.slot().0 as int]
        &&& h.era() == self.generations[h.slot().0 as int] ==> !self.free.contains(h.slot())
    }

    /// How many times every slot can be moved on before one wraps round.
    pub open spec fn spare(self) -> nat {
        margin(self.generations, u32::MAX)
    }

    /// `h` points at a slot of this book, and not at the order that the slot
    /// will hold next while it is still free. This holds of every handle that
    /// the book has issued, until the slot's generation wraps round.
    pub open spec fn accepts(self, h: OrderHandle) -> bool {
        &&& 0 < h.slot().0 < self.generations.len()
        &&& !(self.free.contains(h.slot()) && self.generations[h.slot().0 as int] == h.era())
    }
}

/// The two sides of a book, and the slots that they share.
pub struct Resting {
    sides: Sides,
    slab: OrderSlab,
}

/// A central-limit order book, matching by price and then by time.
pub struct OrderBook<C: FillConsumer> {
    /// What rests. Its parts are private to the engine.
    pub resting: Resting,
    /// Where fills go.
    pub consumer: C,
}

impl<C: FillConsumer> View for OrderBook<C> {
    type V = BookView;

    closed spec fn view(&self) -> BookView {
        BookView {
            bids: self.levels(Side::Bid),
            asks: self.levels(Side::Ask),
            free: self.resting.slab.free_list(),
            generations: self.generations(),
        }
    }
}

impl<C: FillConsumer + Default> OrderBook<C> {
    /// A book with `slab_capacity` slots.
    pub fn new(slab_capacity: usize) -> (r: Self)
        requires
            0 < slab_capacity <= u32::MAX,
            slab_capacity < usize::MAX,
        ensures
            r.wf(),
            r@ == BookView::empty(slab_capacity as nat),
            call_ensures(C::default, (), r.sink()),
    {
        Self::with_consumer(slab_capacity, C::default())
    }

    /// A book with `slab_capacity` slots in memory from the given allocator;
    /// `mapped` is as for [`OrderSlab::with_capacity_in`].
    pub fn new_in(
        slab_capacity: usize,
        alloc: SlabAllocator,
        mapped: Option<Vec<Order>>,
    ) -> (r: BookResult<Self>)
        requires
            0 < slab_capacity <= u32::MAX,
            slab_capacity < usize::MAX,
            mapped matches Some(storage) ==> storage@.len() == 0,
        ensures
            r is Ok <==> alloc == SlabAllocator::System || mapped is Some,
            match r {
                Ok(book) => {
                    &&& book.wf()
                    &&& book@ == BookView::empty(slab_capacity as nat)
                    &&& call_ensures(C::default, (), book.sink())
                },
                Err(e) => e == BookError::UnsupportedAllocator,
            },
    {
        let slab = OrderSlab::with_capacity_in(slab_capacity, alloc, mapped)?;
        Ok(Self::with_slab(slab, C::default()))
    }
}

impl<C: FillConsumer> OrderBook<C> {
    spec fn generations(self) -> Seq<u32> {
        generations_in(self.resting.slab.rest())
    }

    spec fn slot_levels(self, side: Side) -> Levels<SlabIndex> {
        self.resting.sides.levels(self.resting.slab.nodes(), side)
    }

    spec fn name(self) -> spec_fn(SlabIndex) -> OrderHandle {
        |idx: SlabIndex| handle_in(self.generations(), idx)
    }

    spec fn levels(self, side: Side) -> Levels<OrderHandle> {
        renamed(self.slot_levels(side), self.name())
    }

    /// Every order rests on the side that its slot says.
    spec fn sides_agree(self) -> bool {
        forall|side: Side, idx: SlabIndex| #[trigger]
            holds(self.slot_levels(side), idx) ==> self.resting.slab.rest()[idx.0 as int].side == side
    }

    /// The consumer that fills are handed to.
    pub open spec fn sink(self) -> C {
        self.consumer
    }

    /// Each slot either is free or holds an order that rests on the side that
    /// the slot says. The sides do not cross.
    pub closed spec fn wf(self) -> bool {
        &&& self.resting.slab.wf()
        &&& self.resting.sides.wf(self.resting.slab.nodes(), self.resting.slab.free_list())
        &&& self.sides_agree()
    }

    /// What the consumer does is of no consequence for what rests.
    proof fn lemma_same(self, now: Self)
        requires
            self.wf(),
            now.resting == self.resting,
        ensures
            now.wf(),
            now@ == self@,
    {
        assert forall|side: Side, idx: SlabIndex| #[trigger]
            holds(now.slot_levels(side), idx) implies now.resting.slab.rest()[idx.0 as int].side
            == side by {
            assert(holds(self.slot_levels(side), idx));
        }
    }

    /// A live order's handle points back at its slot and generation.
    proof fn lemma_named(self, idx: SlabIndex)
        requires
            self.wf(),
            in_range(self.resting.slab.nodes(), idx),
        ensures
            ({
                let h = handle_in(self.generations(), idx);
                &&& h.slot() == idx
                &&& h.era() == self.generations()[idx.0 as int]
            }),
    {
        self.resting.slab.lemma_valid();
        OrderHandle::lemma_minted(idx, self.generations()[idx.0 as int]);
    }

    /// What rests on a side, by slot and by handle.
    proof fn lemma_view(self, side: Side)
        requires
            self.wf(),
        ensures
            distinct_ids(self.slot_levels(side)),
            distinct_ids(self.levels(side)),
            self.levels(side).dom() == self.slot_levels(side).dom(),
            self.slot_levels(side).dom().finite(),
            forall|p: u64| #[trigger]
                self.slot_levels(side).contains_key(p) ==> self.slot_levels(side)[p].len() > 0,
            forall|a: SlabIndex, b: SlabIndex|
                #![trigger holds(self.slot_levels(side), a), holds(self.slot_levels(side), b)]
                holds(self.slot_levels(side), a) && holds(self.slot_levels(side), b) && (
                self.name())(a) == (self.name())(b) ==> a == b,
            forall|idx: SlabIndex| #[trigger]
                holds(self.slot_levels(side), idx) ==> in_range(self.resting.slab.nodes(), idx)
                    && !self.resting.slab.free_list().contains(idx) && !holds(
                    self.slot_levels(side.other()),
                    idx,
                ),
    {
        let by_slot = self.slot_levels(side);
        self.resting.sides.lemma_wf(self.resting.slab.nodes(), self.resting.slab.free_list());
        assert(self.resting.sides.levels(self.resting.slab.nodes(), side) == by_slot);
        assert forall|p: u64| #[trigger] by_slot.contains_key(p) implies by_slot[p].len() > 0 by {
            assert(self.resting.sides.levels(self.resting.slab.nodes(), side).contains_key(p));
        }
        assert forall|a: SlabIndex, b: SlabIndex|
            #![trigger holds(by_slot, a), holds(by_slot, b)]
            holds(by_slot, a) && holds(by_slot, b) && (self.name())(a) == (self.name())(
                b,
            ) implies a == b by {
            self.lemma_named(a);
            self.lemma_named(b);
        }
        lemma_distinct_renamed(by_slot, self.name());
        assert(self.levels(side).dom() =~= by_slot.dom());
    }

    /// What is kept of one side, in the slots given by `nodes`.
    pub closed spec fn half(self, side: Side) -> half_book::HalfBook {
        self.resting.sides.half(side)
    }

    /// The linkable part of the slots that the orders of a side live in.
    pub closed spec fn nodes(self, side: Side) -> Seq<Node> {
        self.resting.slab.nodes()
    }

    /// What a consistent book keeps of each side fits together and agrees with
    /// what it shows: its levels have orders and know how many and how much, the
    /// orders of a level are linked both ways, the sorted prices are those of
    /// the levels, and the best price is the best of them.
    pub proof fn law_in_shape(self, side: Side)
        requires
            self.wf(),
        ensures
            in_shape(self.half(side), self.nodes(side)),
            self.half(side).side() == side,
            tells(self.half(side), self@.on(side)),
    {
        let free = self.resting.slab.free_list();
        self.resting.sides.lemma_in_shape(self.nodes(side), free, side);
        lemma_tells_renamed(self.half(side), self.slot_levels(side), self.name());
    }

    /// What a consistent book shows is in order.
    pub proof fn lemma_valid(self)
        requires
            self.wf(),
        ensures
            self@.valid(),
    {
        let nodes = self.resting.slab.nodes();
        let v = self@;
        self.lemma_view(Side::Bid);
        self.lemma_view(Side::Ask);
        self.resting.slab.lemma_valid();
        self.resting.slab.lemma_wf();
        self.resting.sides.lemma_wf(nodes, self.resting.slab.free_list());
        assert(sound(self.slot_levels(Side::Bid)) && sound(self.slot_levels(Side::Ask)));
        lemma_sound_renamed(self.slot_levels(Side::Bid), self.name());
        lemma_sound_renamed(self.slot_levels(Side::Ask), self.name());
        assert forall|n: int| 0 <= n < v.generations.len() implies #[trigger] v.generations[n]
            != 0 by {
            assert(self.resting.slab.slots()[n].generation == v.generations[n]);
        }
        assert forall|idx: SlabIndex| #[trigger] v.free.contains(idx) implies 0 < idx.0
            < v.generations.len() by {
            let i = v.free.index_of(idx);
            assert(in_range(nodes, self.resting.slab.free_list()[i]));
        }
        assert forall|side: Side, h: OrderHandle| #[trigger]
            holds(self.levels(side), h) implies holds(self.slot_levels(side), h.slot()) && 0
            < h.slot().0 < v.generations.len() && h.era() == v.generations[h.slot().0 as int]
            && !v.free.contains(h.slot()) by {
            self.lemma_view(side);
            lemma_holds_renamed(self.slot_levels(side), self.name(), h);
            let a = choose|a: SlabIndex| #[trigger]
                holds(self.slot_levels(side), a) && (self.name())(a) == h;
            self.lemma_named(a);
        }
        assert(v.bids == self.levels(Side::Bid) && v.asks == self.levels(Side::Ask));
        assert forall|h: OrderHandle| #[trigger] v.has(h) implies {
            &&& 0 < h.slot().0 < v.generations.len()
            &&& h.era() == v.generations[h.slot().0 as int]
            &&& !v.free.contains(h.slot())
        } by {
            assert(holds(self.levels(Side::Bid), h) || holds(self.levels(Side::Ask), h));
        }
        assert forall|h: OrderHandle| !(#[trigger] holds(v.bids, h) && #[trigger] holds(
            v.asks,
            h,
        )) by {
            if holds(v.bids, h) && holds(v.asks, h) {
                assert(holds(self.levels(Side::Bid), h) && holds(self.levels(Side::Ask), h));
                assert(holds(self.slot_levels(Side::Bid), h.slot()));
            }
        }
        assert forall|idx: SlabIndex|
            0 < idx.0 < v.generations.len() implies v.free.contains(idx) || v.has(
            #[trigger] handle_in(v.generations, idx),
        ) by {
            if !v.free.contains(idx) {
                assert(in_range(nodes, idx));
                assert(holds(self.slot_levels(Side::Bid), idx) || holds(
                    self.slot_levels(Side::Ask),
                    idx,
                ));
                let h = (self.name())(idx);
                lemma_holds_renamed(self.slot_levels(Side::Bid), self.name(), h);
                lemma_holds_renamed(self.slot_levels(Side::Ask), self.name(), h);
            }
        }
    }

    /// A book with `slab_capacity` slots that hands its fills to `consumer`.
    pub fn with_consumer(slab_capacity: usize, consumer: C) -> (r: Self)
        requires
            0 < slab_capacity <= u32::MAX,
            slab_capacity < usize::MAX,
        ensures
            r.wf(),
            r@ == BookView::empty(slab_capacity as nat),
            r.sink() == consumer,
    {
        Self::with_slab(OrderSlab::with_capacity(slab_capacity), consumer)
    }

    /// A book on a fresh slab.
    pub fn with_slab(slab: OrderSlab, consumer: C) -> (r: Self)
        requires
            slab.valid(),
            slab.is_fresh(),
        ensures
            r.wf(),
            r@ == BookView::empty(slab.room()),
            r.sink() == consumer,
    {
        let r = OrderBook { resting: Resting { sides: Sides::new(), slab }, consumer };
        proof {
            let nodes = slab.nodes();
            slab.lemma_valid();
            assert forall|n: int| 1 <= n <= slab.room() implies (#[trigger] nodes[n]).next == (if n
                < slab.room() {
                Some(SlabIndex((n + 1) as u32))
            } else {
                None
            }) by {
                assert(nodes[n] == blank(n, slab.room()).node());
            }
            lemma_fresh(nodes, slab.room());
            assert(r.levels(Side::Bid) =~= Map::empty());
            assert(r.levels(Side::Ask) =~= Map::empty());
            assert(r.generations() =~= Seq::new(slab.room() + 1, |n: int| 1u32));
            assert(r.resting.sides.wf(nodes, slab.free_list()));
            assert(r.resting.slab.wf());
            assert forall|side: Side, idx: SlabIndex| #[trigger]
                holds(r.slot_levels(side), idx) implies r.resting.slab.rest()[idx.0 as int].side == side by {
                assert(r.slot_levels(side) == Levels::<SlabIndex>::empty());
            }
        }
        r
    }

    /// The slab, for whoever has to give its memory back, and the consumer.
    pub fn into_parts(self) -> (r: (OrderSlab, C))
        ensures
            r.0.free_slots() == self@.free,
            generations_in(tags_of(r.0.slots())) == self@.generations,
            r.1 == self.sink(),
    {
        (self.resting.slab, self.consumer)
    }

    /// Sweep the side opposite to `side` until `quantity` is used up, the side
    /// is empty, or its best price no longer crosses `price_limit`. Without a
    /// limit every price crosses.
    fn match_against_opposite(
        &mut self,
        side: Side,
        price_limit: Option<Price>,
        quantity: u64,
    ) -> (r: BookResult<u64>)
        requires
            old(self).wf(),
        ensures
            final(self).wf(),
            in_shape(final(self).half(Side::Bid), final(self).nodes(Side::Bid)),
            in_shape(final(self).half(Side::Ask), final(self).nodes(Side::Ask)),
            ({
                let s = old(self)@.taking(side, ticks(price_limit), quantity);
                &&& r == Ok::<u64, BookError>(s.left)
                &&& final(self)@ == old(self)@.taken(side, ticks(price_limit), quantity)
                &&& final(self)@.on(side) == old(self)@.on(side)
                &&& delivered(old(self).sink(), s.fills, final(self).sink())
            }),
    {
        let ghost this = *self;
        let opposite = match side {
            Side::Bid => Side::Ask,
            Side::Ask => Side::Bid,
        };
        let remaining = self.resting.sides.take(
            opposite,
            &mut self.resting.slab,
            &mut self.consumer,
            price_limit,
            quantity,
        );
        proof {
            let limit = ticks(price_limit);
            let free = this.resting.slab.free_list();
            let rest = this.resting.slab.rest();
            let s = sweep(opposite, this.slot_levels(opposite), limit, quantity);
            let t = sweep(opposite, this.levels(opposite), limit, quantity);
            let gone = s.done();
            this.lemma_view(opposite);
            this.lemma_view(side);
            this.resting.slab.lemma_wf();
            self.resting.slab.lemma_wf();
            self.resting.sides.lemma_wf(self.resting.slab.nodes(), self.resting.slab.free_list());
            lemma_sweep_renamed(opposite, this.slot_levels(opposite), limit, quantity, this.name());
            lemma_sweep_leaves(opposite, this.slot_levels(opposite), limit, quantity);
            assert(t.fills =~= named::<OrderSlab>(rest, opposite, s.fills));
            assert(slots_of(t.done()) =~= gone) by {
                assert forall|i: int| 0 <= i < gone.len() implies #[trigger] slots_of(t.done())[i]
                    == gone[i] by {
                    assert(gone.contains(gone[i]));
                    this.lemma_named(gone[i]);
                    assert(t.fills[i].id == (this.name())(s.fills[i].id));
                }
            }
            lemma_aged(rest, gone);
            assert forall|sd: Side, idx: SlabIndex| #[trigger]
                holds(self.slot_levels(sd), idx) implies (this.name())(idx) == (self.name())(idx)
                && self.resting.slab.rest()[idx.0 as int].side == this.resting.slab.rest()[idx.0 as int].side by {
                assert(holds(self.resting.sides.levels(self.resting.slab.nodes(), sd), idx));
                assert(!(gone + free).contains(idx));
                lemma_concat_contains(gone, free, idx);
                assert(self.generations()[idx.0 as int] == aged(this.generations(), gone)[idx.0 as int]);
            }
            assert(self.slot_levels(opposite) == s.levels);
            assert(self.slot_levels(side) == this.slot_levels(side));
            lemma_renamed_frame(self.slot_levels(opposite), this.name(), self.name());
            lemma_renamed_frame(self.slot_levels(side), this.name(), self.name());
            assert(self@ =~= this@.taken(side, limit, quantity));
            assert forall|sd: Side, idx: SlabIndex| #[trigger]
                holds(self.slot_levels(sd), idx) implies self.resting.slab.rest()[idx.0 as int].side
                == sd by {
                assert(holds(this.slot_levels(sd), idx)) by {
                    if sd == opposite {
                        lemma_swept_held(opposite, this.slot_levels(opposite), limit, quantity, idx);
                    }
                }
            }
            self.law_in_shape(Side::Bid);
            self.law_in_shape(Side::Ask);
        }
        Ok(remaining)
    }

    /// Add a limit order: trade with the other side as far as `price` allows,
    /// then put what is left to rest. Gives the handle of the resting order, or
    /// nothing if nothing was left.
    ///
    /// If there is no slot for what is left, the trades still stand.
    pub fn add_limit_order(&mut self, side: Side, price: Price, quantity: u64) -> (r: BookResult<
        Option<OrderHandle>,
    >)
        requires
            old(self).wf(),
            old(self)@.taken(side, Some(price.0), quantity).free.len() > 0 ==> queue_total(
                lots_at(old(self)@.on(side), price.0),
            ) + old(self)@.taking(side, Some(price.0), quantity).left <= u64::MAX,
        ensures
            final(self).wf(),
            uncrossed(final(self)@.bids, final(self)@.asks),
            ({
                let s = old(self)@.taking(side, Some(price.0), quantity);
                let traded = old(self)@.taken(side, Some(price.0), quantity);
                &&& settled(old(self).sink(), s.fills, final(self).sink())
                &&& match r {
                    Ok(None) => {
                        &&& s.left == 0
                        &&& final(self)@ == traded
                    },
                    Ok(Some(h)) => {
                        &&& s.left > 0
                        &&& traded.free.len() > 0
                        &&& h == traded.next_handle()
                        &&& final(self)@ == traded.rested(side, price.0, s.left)
                    },
                    Err(e) => {
                        &&& e == BookError::SlabFull
                        &&& s.left > 0
                        &&& traded.free.len() == 0
                        &&& final(self)@ == traded
                    },
                }
            }),
    {
        proof {
            self.lemma_view(side.other());
            lemma_sweep_leaves(side.other(), self@.on(side.other()), Some(price.0), quantity);
        }
        let remaining = self.match_against_opposite(side, Some(price), quantity)?;
        let handle = if remaining > 0 {
            let ghost mid = *self;
            let ghost nodes = self.resting.slab.nodes();
            let ghost free = self.resting.slab.free_list();
            let ghost rest = self.resting.slab.rest();
            let (idx, generation) = match self.resting.slab.alloc_slot() {
                Ok(slot) => slot,
                Err(e) => {
                    self.consumer.flush();
                    proof {
                        self.lemma_valid();
                    }
                    return Err(e);
                },
            };
            proof {
                mid.resting.slab.lemma_wf();
                mid.resting.slab.lemma_valid();
                mid.lemma_view(side);
                mid.lemma_view(side.other());
                lemma_freelist_pop(nodes, free);
                assert(in_range(nodes, free[0]));
                assert(free.contains(free[0]));
                assert(mid.resting.slab.slots()[idx.0 as int].generation == generation);
            }
            let slot = self.resting.slab.get_mut(idx);
            slot.price = price;
            slot.quantity = remaining;
            slot.prev = None;
            slot.next = None;
            slot.side = side;
            proof {
                assert(self.resting.slab.nodes() =~= nodes.update(
                    idx.0 as int,
                    Node { price: price.0, quantity: remaining, prev: None, next: None },
                ));
                lemma_queue_total_rename(lots_at(mid.slot_levels(side), price.0), mid.name());
                assert(rename(lots_at(mid.slot_levels(side), price.0), mid.name()) =~= lots_at(
                    mid.levels(side),
                    price.0,
                ));
            }
            self.resting.sides.put(side, idx, &mut self.resting.slab, Ghost(nodes), Ghost(free));
            proof {
                let lot = Lot { id: idx, quantity: remaining };
                assert(self.generations() =~= mid.generations());
                assert(self.name() =~= mid.name());
                assert(rename(lots_at(mid.slot_levels(side), price.0).push(lot), mid.name())
                    =~= lots_at(mid.levels(side), price.0).push(
                    Lot { id: (mid.name())(idx), quantity: remaining },
                ));
                assert(self.levels(side) =~= with_lot(
                    mid.levels(side),
                    price.0,
                    Lot { id: mid@.next_handle(), quantity: remaining },
                ));
                assert(self@ =~= mid@.rested(side, price.0, remaining));
                assert forall|sd: Side, i: SlabIndex| #[trigger]
                    holds(self.slot_levels(sd), i) implies self.resting.slab.rest()[i.0 as int].side
                    == sd by {
                    if sd == side {
                        lemma_holds_with_lot(mid.slot_levels(side), price.0, lot, i);
                    }
                    if i != idx {
                        assert(holds(mid.slot_levels(sd), i));
                        assert(self.resting.slab.rest()[i.0 as int] == rest[i.0 as int]);
                    } else if sd != side {
                        assert(holds(mid.slot_levels(sd), i));
                    }
                }
            }
            Some(OrderHandle::new(idx, generation))
        } else {
            None
        };
        self.consumer.flush();
        proof {
            self.lemma_valid();
        }
        Ok(handle)
    }

    /// A handle rests exactly if its slot is in the handle's generation.
    proof fn lemma_holds(self, h: OrderHandle)
        requires
            self.wf(),
            self@.accepts(h),
        ensures
            self@.has(h) <==> self@.generations[h.slot().0 as int] == h.era(),
            self@.has(h) ==> {
                let side = self.resting.slab.rest()[h.slot().0 as int].side;
                &&& holds(self.slot_levels(side), h.slot())
                &&& self@.half(h) == side
                &&& (self.name())(h.slot()) == h
            },
    {
        let idx = h.slot();
        self.lemma_named(idx);
        h.lemma_handle();
        self.lemma_view(Side::Bid);
        self.lemma_view(Side::Ask);
        self.resting.sides.lemma_wf(self.resting.slab.nodes(), self.resting.slab.free_list());
        assert forall|side: Side| holds(#[trigger] self.levels(side), h) implies holds(
            self.slot_levels(side),
            idx,
        ) && (self.name())(idx) == h by {
            self.lemma_view(side);
            lemma_holds_renamed(self.slot_levels(side), self.name(), h);
            let a = choose|a: SlabIndex| #[trigger]
                holds(self.slot_levels(side), a) && (self.name())(a) == h;
            self.lemma_named(a);
        }
        if self@.generations[idx.0 as int] == h.era() {
            assert(holds(self.slot_levels(Side::Bid), idx) || holds(
                self.slot_levels(Side::Ask),
                idx,
            ));
            lemma_holds_renamed(self.slot_levels(Side::Bid), self.name(), h);
            lemma_holds_renamed(self.slot_levels(Side::Ask), self.name(), h);
            assert((self.name())(idx) == h);
        }
        assert(holds(self.levels(Side::Bid), h) == holds(self@.bids, h));
        assert(holds(self.levels(Side::Ask), h) == holds(self@.asks, h));
    }

    /// Cancel a resting order.
    pub fn cancel_limit_order(&mut self, handle: OrderHandle) -> (r: BookResult<()>)
        requires
            old(self).wf(),
            old(self)@.accepts(handle),
        ensures
            final(self).wf(),
            final(self).sink() == old(self).sink(),
            match r {
                Ok(_) => {
                    &&& old(self)@.has(handle)
                    &&& final(self)@ == old(self)@.cancelled(handle)
                },
                Err(e) => {
                    &&& e == BookError::OrderNotFound
                    &&& !old(self)@.has(handle)
                    &&& final(self)@ == old(self)@
                },
            },
    {
        let idx = handle.idx();
        let generation = handle.generation();
        let ghost this = *self;
        let ghost nodes = self.resting.slab.nodes();
        let ghost free = self.resting.slab.free_list();
        let ghost rest = self.resting.slab.rest();
        proof {
            self.lemma_holds(handle);
            self.lemma_view(Side::Bid);
            self.lemma_view(Side::Ask);
        }
        let slot = self.resting.slab.get(idx);
        if slot.generation != generation {
            return Err(BookError::OrderNotFound);
        }
        let side = slot.side;
        let price = slot.price;
        assert(this.resting.slab.slots()[idx.0 as int].node() == nodes[idx.0 as int]);
        self.resting.sides.pull(side, idx, price, &mut self.resting.slab);
        let ghost mid = self.resting.slab.nodes();
        self.resting.slab.free(idx);
        proof {
            assert(self.resting.slab.nodes() =~= mid.update(
                idx.0 as int,
                Node { next: first(free), ..mid[idx.0 as int] },
            ));
            self.resting.sides.lemma_freed(mid, free, idx, self.resting.slab.nodes());
            self.resting.sides.lemma_wf(self.resting.slab.nodes(), self.resting.slab.free_list());
            assert(self.generations() =~= aged(this.generations(), seq![idx])) by {
                assert(seq![idx][0] == idx);
            }
            assert(self.slot_levels(side) == without(this.slot_levels(side), idx));
            assert(self.slot_levels(side.other()) == this.slot_levels(side.other()));
            lemma_without_renamed(this.slot_levels(side), idx, this.name());
            assert forall|sd: Side, i: SlabIndex| #[trigger]
                holds(self.slot_levels(sd), i) implies (this.name())(i) == (self.name())(i)
                && self.resting.slab.rest()[i.0 as int].side == this.resting.slab.rest()[i.0 as int].side && i
                != idx by {
                assert(holds(self.resting.sides.levels(self.resting.slab.nodes(), sd), i));
                assert(self.resting.slab.free_list()[0] == idx);
                assert(self.resting.slab.free_list().contains(idx));
                assert(self.resting.slab.rest()[i.0 as int] == rest[i.0 as int]);
            }
            lemma_renamed_frame(self.slot_levels(side), this.name(), self.name());
            lemma_renamed_frame(self.slot_levels(side.other()), this.name(), self.name());
            assert(self@ =~= this@.cancelled(handle));
            assert forall|sd: Side, i: SlabIndex| #[trigger]
                holds(self.slot_levels(sd), i) implies self.resting.slab.rest()[i.0 as int].side == sd by {
                if sd == side {
                    lemma_holds_without(this.slot_levels(side), idx, i);
                }
                assert(holds(this.slot_levels(sd), i));
            }
        }
        Ok(())
    }

    /// Add a market order: trade with the other side at any price. Nothing is
    /// ever put to rest. A fill-or-kill order that cannot be filled completely
    /// does nothing at all.
    pub fn add_market_order(&mut self, side: Side, quantity: u64, mode: MarketOrderMode) -> (r:
        BookResult<MarketOrderResult>)
        requires
            old(self).wf(),
        ensures
            final(self).wf(),
            ({
                let s = old(self)@.taking(side, None, quantity);
                if mode == MarketOrderMode::FillOrKill && total(old(self)@.on(side.other()))
                    < quantity {
                    &&& r == Ok::<MarketOrderResult, BookError>(
                        (MarketOrderResult { remaining: quantity }),
                    )
                    &&& final(self)@ == old(self)@
                    &&& settled(old(self).sink(), Seq::empty(), final(self).sink())
                } else {
                    &&& r == Ok::<MarketOrderResult, BookError>(
                        (MarketOrderResult { remaining: s.left }),
                    )
                    &&& final(self)@ == old(self)@.taken(side, None, quantity)
                    &&& settled(old(self).sink(), s.fills, final(self).sink())
                }
            }),
    {
        if mode == MarketOrderMode::FillOrKill {
            let opposite = match side {
                Side::Bid => Side::Ask,
                Side::Ask => Side::Bid,
            };
            proof {
                self.lemma_view(opposite);
                lemma_total_renamed(self.slot_levels(opposite), self.name());
            }
            let available = self.resting.sides.available(
                opposite,
                Ghost(self.resting.slab.nodes()),
                Ghost(self.resting.slab.free_list()),
            );
            if available < quantity as u128 {
                let ghost this = *self;
                self.consumer.flush();
                proof {
                    lemma_delivered_none::<OrderHandle, C>(this.sink());
                    this.lemma_same(*self);
                }
                return Ok(MarketOrderResult { remaining: quantity });
            }
        }
        let remaining = self.match_against_opposite(side, None, quantity)?;
        self.consumer.flush();
        Ok(MarketOrderResult { remaining })
    }
}

/// Giving slots back makes handles to their orders stale, and no other handle.
proof fn lemma_given_back(before: BookView, gone: Seq<SlabIndex>, after: BookView)
    requires
        before.generations.len() <= u32::MAX + 1,
        after.generations == aged(before.generations, gone),
        after.free == gone + before.free,
    ensures
        forall|h: OrderHandle| before.issued(h) && before.spare() > 0 ==> #[trigger] after.issued(h),
        after.spare() + 1 >= before.spare(),
{
    let n = before.spare();
    if n > 0 {
        lemma_margin(before.generations, u32::MAX, n);
        assert forall|h: OrderHandle| before.issued(h) implies #[trigger] after.issued(h) by {
            lemma_concat_contains(gone, before.free, h.slot());
            assert(before.generations[h.slot().0 as int] + n <= u32::MAX);
        }
        assert forall|k: int| 0 <= k < after.generations.len() implies #[trigger] after.generations[k]
            + (n - 1) <= u32::MAX by {
            assert(before.generations[k] + n <= u32::MAX);
        }
        lemma_margin(after.generations, u32::MAX, (n - 1) as nat);
    }
}

/// The margin of slots that are all in their first generation.
proof fn lemma_new_margin(n: nat)
    requires
        n > 0,
    ensures
        margin(Seq::new(n, |k: int| 1u32), u32::MAX) == u32::MAX - 1,
{
    let ones = Seq::new(n, |k: int| 1u32);
    let top = (u32::MAX - 1) as nat;
    lemma_margin(ones, u32::MAX, top);
    lemma_margin(ones, u32::MAX, top + 1);
    assert(ones[0] == 1);
}

/// A cancelled order is gone for good: its handle rests no more, and the book
/// can still tell, so that cancelling it again reports that there is no such
/// order.
pub proof fn law_cancelled_is_stale(v: BookView, h: OrderHandle)
    requires
        v.valid(),
        v.has(h),
    ensures
        !v.cancelled(h).has(h),
        v.cancelled(h).accepts(h),
{
    lemma_holds_without(v.on(v.half(h)), h, h);
    assert(!(holds(v.bids, h) && holds(v.asks, h)));
    let g = v.generations[h.slot().0 as int];
    assert(g != 0);
    assert(seq![h.slot()][0] == h.slot());
    assert(seq![h.slot()].contains(h.slot()));
    assert(v.cancelled(h).generations[h.slot().0 as int] == bumped(g));
}

/// An order that has been filled completely is gone for good: its handle rests
/// no more, and the book can still tell.
pub proof fn law_filled_is_stale(
    v: BookView,
    side: Side,
    limit: Option<u64>,
    quantity: u64,
    h: OrderHandle,
)
    requires
        v.valid(),
        v.taking(side, limit, quantity).done().contains(h),
    ensures
        !v.taken(side, limit, quantity).has(h),
        v.taken(side, limit, quantity).accepts(h),
{
    let s = v.taking(side, limit, quantity);
    let gone = slots_of(s.done());
    assert(holds(v.on(side.other()), h) && !holds(s.levels, h)) by {
        law_filled_or_still_there(side.other(), v.on(side.other()), limit, quantity);
    }
    assert(v.has(h));
    assert(!(holds(v.bids, h) && holds(v.asks, h)));
    let i = s.done().index_of(h);
    assert(gone[i] == h.slot());
    assert(gone.contains(h.slot()));
    let g = v.generations[h.slot().0 as int];
    assert(g != 0);
    assert(v.taken(side, limit, quantity).generations[h.slot().0 as int] == bumped(g));
}

/// A slot that has been given back is the next one to be used, and the order
/// that then takes it gets a different handle.
pub proof fn law_cancel_reclaims_the_slot(v: BookView, h: OrderHandle)
    requires
        v.valid(),
        v.has(h),
    ensures
        v.cancelled(h).free.len() == v.free.len() + 1,
        v.cancelled(h).next_handle().slot() == h.slot(),
        v.cancelled(h).next_handle() != h,
{
    let after = v.cancelled(h);
    let g = v.generations[h.slot().0 as int];
    assert(g != 0);
    assert(seq![h.slot()][0] == h.slot());
    assert(seq![h.slot()].contains(h.slot()));
    assert(after.generations[h.slot().0 as int] == bumped(g));
    assert(after.free[0] == h.slot());
    OrderHandle::lemma_minted(h.slot(), bumped(g));
}

impl<C: FillConsumer + Default> OrderBook<C> {
    /// What a consistent book shows through the shared surface.
    proof fn lemma_shown(self)
        requires
            self.wf(),
        ensures
            self.depth().valid(),
            forall|h: OrderHandle| #[trigger] self.issued(h) ==> self.accepts(h),
            forall|h: OrderHandle| #[trigger] self.depth().has(h) ==> self.issued(h),
    {
        self.lemma_valid();
        assert forall|h: OrderHandle| #[trigger] self.depth().has(h) implies self.issued(h) by {
            assert(self@.has(h));
        }
    }
}

impl<C: FillConsumer + Default> OrderBookApi for OrderBook<C> {
    type Handle = OrderHandle;

    open spec fn fits(slab_capacity: usize) -> bool {
        0 < slab_capacity <= u32::MAX && slab_capacity < usize::MAX
    }

    open spec fn made(slab_capacity: usize) -> Depth<OrderHandle> {
        Depth::empty(slab_capacity as nat, slab_capacity as nat, true)
    }

    open spec fn wf(&self) -> bool {
        OrderBook::<C>::wf(*self)
    }

    open spec fn depth(&self) -> Depth<OrderHandle> {
        Depth {
            bids: self@.bids,
            asks: self@.asks,
            bid_room: self@.free.len(),
            ask_room: self@.free.len(),
            pooled: true,
        }
    }

    open spec fn accepts(&self, h: OrderHandle) -> bool {
        self@.accepts(h)
    }

    open spec fn issued(&self, h: OrderHandle) -> bool {
        self@.issued(h)
    }

    open spec fn spare(&self) -> nat {
        self@.spare()
    }

    open spec fn lifetime() -> nat {
        (u32::MAX - 1) as nat
    }

    fn new(slab_capacity: usize) -> (r: Self)
        ensures
            call_ensures(C::default, (), r.sink()),
    {
        let r: Self = OrderBook::new(slab_capacity);
        proof {
            r.lemma_shown();
            lemma_new_margin(slab_capacity as nat + 1);
        }
        r
    }

    /// Whether huge pages are to be had rests on the machine, so of them only
    /// what every outcome has in common is stated. Nothing is mapped here: who
    /// maps memory hands it to [`OrderBook::new_in`].
    fn new_with_alloc(slab_capacity: usize, alloc: SlabAllocator) -> (r: BookResult<Self>)
        ensures
            r matches Ok(book) ==> call_ensures(C::default, (), book.sink()),
    {
        let r: Self = OrderBook::new_in(slab_capacity, alloc, None)?;
        proof {
            r.lemma_shown();
            lemma_new_margin(slab_capacity as nat + 1);
        }
        Ok(r)
    }

    fn add_limit(&mut self, side: Side, price: Price, qty: u64) -> (r: BookResult<
        Option<OrderHandle>,
    >)
        ensures
            settled(
                old(self).sink(),
                old(self)@.taking(side, Some(price.0), qty).fills,
                final(self).sink(),
            ),
    {
        let ghost this = *self;
        proof {
            self.lemma_valid();
            assert(self.depth().taking(side, Some(price.0), qty) == self@.taking(
                side,
                Some(price.0),
                qty,
            ));
        }
        let r = self.add_limit_order(side, price, qty);
        proof {
            let s = this@.taking(side, Some(price.0), qty);
            let traded = this@.taken(side, Some(price.0), qty);
            let gone = slots_of(s.done());
            lemma_given_back(this@, gone, traded);
            if let Ok(Some(h)) = r {
                let idx = traded.free[0];
                assert(traded.free.contains(idx));
                lemma_concat_contains(gone, this@.free, idx);
                lemma_fresh_handle(this@, side, Some(price.0), qty);
                let fewer = traded.free.drop_first();
                assert forall|i: SlabIndex| fewer.contains(i) implies traded.free.contains(i) by {
                    let j = fewer.index_of(i);
                    assert(traded.free[j + 1] == i);
                }
            }
            assert(self.depth() =~= (match r {
                Ok(Some(h)) => this.depth().taken(side, Some(price.0), qty).rested(
                    side,
                    price.0,
                    h,
                    s.left,
                ),
                _ => this.depth().taken(side, Some(price.0), qty),
            }));
            assert forall|h: OrderHandle| this.issued(h) && this.spare() > 0 implies
                #[trigger] self.issued(h) by {
                assert(traded.issued(h));
            }
            if this.spare() > 0 && r is Ok && r->Ok_0 is Some {
                lemma_new_handle(this@, side, Some(price.0), qty);
            }
            self.lemma_shown();
        }
        r
    }

    fn add_market(&mut self, side: Side, qty: u64, mode: MarketOrderMode) -> (r: BookResult<
        MarketOrderResult,
    >)
        ensures
            settled(
                old(self).sink(),
                if mode == MarketOrderMode::FillOrKill && total(
                    old(self)@.on(side.other()),
                ) < qty {
                    Seq::empty()
                } else {
                    old(self)@.taking(side, None, qty).fills
                },
                final(self).sink(),
            ),
    {
        let ghost this = *self;
        proof {
            self.lemma_valid();
        }
        let r = self.add_market_order(side, qty, mode);
        proof {
            let s = this@.taking(side, None, qty);
            lemma_given_back(this@, slots_of(s.done()), this@.taken(side, None, qty));
            assert(this.depth().taking(side, None, qty) == s);
            if mode == MarketOrderMode::FillOrKill && total(this@.on(side.other())) < qty {
                assert(self.depth() =~= this.depth());
            } else {
                assert(self.depth() =~= this.depth().taken(side, None, qty));
            }
            assert forall|h: OrderHandle| this.issued(h) && this.spare() > 0 implies
                #[trigger] self.issued(h) by {
                assert(this@.taken(side, None, qty).issued(h));
            }
            self.lemma_shown();
        }
        r
    }

    fn cancel(&mut self, handle: OrderHandle) -> (r: BookResult<()>)
        ensures
            final(self).sink() == old(self).sink(),
    {
        let ghost this = *self;
        proof {
            self.lemma_valid();
        }
        let r = self.cancel_limit_order(handle);
        proof {
            lemma_given_back(this@, seq![handle.slot()], this@.cancelled(handle));
            if r is Ok {
                assert(self.depth() =~= this.depth().cancelled(handle));
            } else {
                assert(self.depth() =~= this.depth());
            }
            assert forall|h: OrderHandle| this.issued(h) && this.spare() > 0 implies
                #[trigger] self.issued(h) by {
                assert(this@.cancelled(handle).issued(h));
            }
            self.lemma_shown();
        }
        r
    }
}

/// The handle of an order that is put to rest after a trade is not that of any
/// order that still rests.
proof fn lemma_fresh_handle(v: BookView, side: Side, limit: Option<u64>, quantity: u64)
    requires
        v.valid(),
        v.taken(side, limit, quantity).free.len() > 0,
    ensures
        !v.taken(side, limit, quantity).has(v.taken(side, limit, quantity).next_handle()),
{
    let s = v.taking(side, limit, quantity);
    let after = v.taken(side, limit, quantity);
    let gone = slots_of(s.done());
    let idx = after.free[0];
    let h = after.next_handle();
    let opp = side.other();
    assert forall|x: OrderHandle| s.done().contains(x) implies holds(v.on(opp), x) && !holds(
        s.levels,
        x,
    ) by {
        law_filled_or_still_there(opp, v.on(opp), limit, quantity);
    }
    assert(after.free.contains(idx));
    lemma_concat_contains(gone, v.free, idx);
    assert(0 < idx.0 < v.generations.len()) by {
        if gone.contains(idx) {
            let i = gone.index_of(idx);
            assert(s.done().contains(s.done()[i]));
            assert(v.has(s.done()[i]));
        }
    }
    OrderHandle::lemma_minted(idx, after.generations[idx.0 as int]);
    if after.has(h) {
        assert(v.has(h)) by {
            if holds(s.levels, h) {
                lemma_swept_held(opp, v.on(opp), limit, quantity, h);
            }
        }
        assert(h.era() == v.generations[idx.0 as int]);
        assert(!v.free.contains(idx));
        assert(gone.contains(idx));
        let g = v.generations[idx.0 as int];
        assert(g != 0);
        assert(after.generations[idx.0 as int] == bumped(g));
    }
}

/// The handle of an order that is put to rest after a trade has not been handed
/// out before.
proof fn lemma_new_handle(v: BookView, side: Side, limit: Option<u64>, quantity: u64)
    requires
        v.valid(),
        v.spare() > 0,
        v.taken(side, limit, quantity).free.len() > 0,
    ensures
        !v.issued(v.taken(side, limit, quantity).next_handle()),
{
    let s = v.taking(side, limit, quantity);
    let after = v.taken(side, limit, quantity);
    let gone = slots_of(s.done());
    let idx = after.free[0];
    assert(after.free.contains(idx));
    lemma_concat_contains(gone, v.free, idx);
    if 0 < idx.0 < v.generations.len() {
        lemma_margin(v.generations, u32::MAX, 1);
        assert(v.generations[idx.0 as int] + 1 <= u32::MAX);
        assert(v.generations[idx.0 as int] != 0);
    }
    OrderHandle::lemma_minted(idx, after.generations[idx.0 as int]);
    OrderHandle::lemma_minted(idx, 0);
}

} // verus!
