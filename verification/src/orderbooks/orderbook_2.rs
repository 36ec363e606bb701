//! The order book with a slab per side and the side packed into the handle.

use vstd::prelude::*;

use crate::api::{Depth, OrderBookApi};
use crate::arena::{
    apart, first, freelist, fresh, in_range, last, lemma_freelist_frame, lemma_freelist_pop,
    lemma_fresh, lemma_margin, lemma_spliced, linked, margin, retired_all, Arena, Links, Node,
};
use crate::errors::{BookError, BookResult};
use crate::fills::{delivered, lemma_delivered_none, FillSink};
use crate::half_book::{
    self, all_apart, in_shape, lemma_dropped, lemma_rested, lemma_resting, lemma_tells_renamed,
    queue_at, resting, rests, swept_slots, tells, ticks,
};
use crate::laws::law_filled_or_still_there;
use crate::level::{lemma_lots_total, named};
use crate::model::{
    best, crosses, distinct_ids, holds, lemma_best_exists, lemma_distinct_renamed,
    lemma_holds_renamed, lemma_holds_without, lemma_queue_total_rename, lemma_renamed_frame,
    lemma_sound_renamed, lemma_sweep_leaves, lemma_sweep_renamed, lemma_swept_held,
    lemma_total_renamed, lemma_without_renamed, lots_at, queue_total, rename, renamed, sound,
    sweep, total, uncrossed, with_lot, without, Levels, Lot, Swept,
};
use crate::two_sided::lemma_concat_contains;

pub use crate::arena::SlabIndex;
pub use crate::level::PriceLevel;
pub use crate::types::{MarketOrderMode, MarketOrderResult, Price, Side};

verus! {

/// A resting limit order. While a slot is free only `next`, the freelist link,
/// and `generation` mean anything.
///
/// An order's side is not stored: each side of the book has a slab of its own.
#[derive(Debug, Clone, Copy)]
pub struct Order {
    pub price: Price,
    /// What is left of the quantity; less after a partial fill.
    pub quantity: u64,
    /// The order ahead in the queue (older, higher priority).
    pub prev: Option<SlabIndex>,
    /// The order behind in the queue (newer, lower priority).
    pub next: Option<SlabIndex>,
    /// Goes up each time the slot is given back, so that a handle to an earlier
    /// order in this slot is told apart from a current one.
    pub generation: u32,
}

impl Order {
    /// The part of the order that queues are made of.
    pub open spec fn node(self) -> Node {
        Node { price: self.price.0, quantity: self.quantity, prev: self.prev, next: self.next }
    }
}

/// Engine-assigned, opaque order handle.
///
/// Packed `[side: 1][generation: 31][slab_index: 32]`:
/// - bit 63: side (0 = bid, 1 = ask)
/// - bits 32..63: generation (31 bits, non-zero)
/// - bits 0..32: slab index (non-zero)
///
/// A handle is got from `add_limit_order` and handed back to
/// `cancel_limit_order`; nothing else should be made of its bits.
#[derive(Debug, Clone, Copy, PartialEq, Eq, Hash, Structural)]
pub struct OrderHandle(u64);

/// The greatest generation, and the mask for the generation field once it is
/// shifted into place.
pub const GEN_MASK: u32 = 0x7FFF_FFFF;

/// The raw value of a handle.
pub open spec fn packed(side: Side, idx: SlabIndex, generation: u32) -> int {
    (match side {
        Side::Bid => 0int,
        Side::Ask => 0x8000_0000_0000_0000,
    }) + generation * 0x1_0000_0000 + idx.0
}

impl OrderHandle {
    /// The handle of the order that occupies slot `idx` on `side` with the
    /// given generation.
    pub closed spec fn minted(side: Side, idx: SlabIndex, generation: u32) -> OrderHandle {
        OrderHandle(packed(side, idx, generation) as u64)
    }

    /// The raw value.
    pub closed spec fn raw(self) -> u64 {
        self.0
    }

    /// The slot that the handle points at.
    pub open spec fn slot(self) -> SlabIndex {
        SlabIndex((self.raw() % 0x1_0000_0000) as u32)
    }

    /// The generation of the order that the handle points at.
    pub open spec fn era(self) -> u32 {
        ((self.raw() / 0x1_0000_0000) % 0x8000_0000) as u32
    }

    /// The side that the handle points at.
    pub open spec fn half(self) -> Side {
        if self.raw() >= 0x8000_0000_0000_0000 {
            Side::Ask
        } else {
            Side::Bid
        }
    }

    /// A handle holds exactly what it was made from.
    pub proof fn lemma_minted(side: Side, idx: SlabIndex, generation: u32)
        requires
            generation <= GEN_MASK,
        ensures
            ({
                let h = OrderHandle::minted(side, idx, generation);
                &&& h.raw() == packed(side, idx, generation)
                &&& h.slot() == idx
                &&& h.era() == generation
                &&& h.half() == side
            }),
    {
        let i = idx.0;
        let ask = side is Ask;
        let raw = OrderHandle::minted(side, idx, generation).0;
        assert(raw == packed(side, idx, generation));
        assert(raw % 0x1_0000_0000 == i && (raw / 0x1_0000_0000) % 0x8000_0000 == generation) by {
            let top: int = if ask {
                0x8000_0000
            } else {
                0
            };
            assert(raw == (top + generation) * 0x1_0000_0000 + i);
        }
    }

    /// A handle is determined by its slot, generation and side.
    pub proof fn lemma_handle(self)
        ensures
            self == OrderHandle::minted(self.half(), self.slot(), self.era()),
            self.era() <= GEN_MASK,
    {
    }

    pub fn new(side: Side, idx: SlabIndex, generation: u32) -> (r: Self)
        requires
            idx.0 != 0,
            0 < generation <= GEN_MASK,
        ensures
            r == OrderHandle::minted(side, idx, generation),
            r.raw() == packed(side, idx, generation),
    {
        let i = idx.0;
        let side_bit: u64 = match side {
            Side::Bid => 0,
            Side::Ask => 1u64 << 63,
        };
        let packed = side_bit | ((generation as u64) << 32) | (i as u64);
        proof {
            assert(1u64 << 63 == 0x8000_0000_0000_0000) by (bit_vector);
            assert(side_bit | ((generation as u64) << 32) | (i as u64) == side_bit + generation
                * 0x1_0000_0000 + i) by (bit_vector)
                requires
                    side_bit == 0 || side_bit == 0x8000_0000_0000_0000,
                    generation <= 0x7FFF_FFFF,
            ;
        }
        OrderHandle(packed)
    }

    pub fn idx(self) -> (r: SlabIndex)
        ensures
            r == self.slot(),
    {
        let raw = self.0;
        let lo = raw as u32;
        proof {
            assert(raw as u32 == raw % 0x1_0000_0000) by (bit_vector);
        }
        SlabIndex(lo)
    }

    pub fn generation(self) -> (r: u32)
        ensures
            r == self.era(),
    {
        let raw = self.0;
        let hi = ((raw >> 32) as u32) & GEN_MASK;
        proof {
            assert(((raw >> 32) as u32) & 0x7FFF_FFFFu32 == (raw / 0x1_0000_0000) % 0x8000_0000)
                by (bit_vector);
        }
        hi
    }

    pub fn side(self) -> (r: Side)
        ensures
            r == self.half(),
    {
        let raw = self.0;
        proof {
            assert(raw & (1u64 << 63) != 0 <==> raw >= 0x8000_0000_0000_0000) by (bit_vector);
        }
        if raw & (1u64 << 63) != 0 {
            Side::Ask
        } else {
            Side::Bid
        }
    }

    /// Wire-friendly raw value.
    pub fn as_u64(self) -> (r: u64)
        ensures
            r == self.raw(),
    {
        self.0
    }
}

/// The generation after `generation`: it stays within 31 bits and skips 0.
pub open spec fn bumped(generation: u32) -> u32 {
    let n = (generation + 1) % 0x8000_0000;
    if n == 0 {
        1
    } else {
        n as u32
    }
}

/// The linkable part of every slot.
pub open spec fn nodes_of(slots: Seq<Order>) -> Seq<Node> {
    slots.map_values(|o: Order| o.node())
}

/// The generation of every slot.
pub open spec fn generations_of(slots: Seq<Order>) -> Seq<u32> {
    slots.map_values(|o: Order| o.generation)
}

/// Fixed-size storage for the orders of one side.
///
/// Slot 0 is never used. Slots that hold no order are on the freelist, which
/// runs through their `next` links.
pub struct OrderSlab {
    slots: Vec<Order>,
    free_head: Option<SlabIndex>,
    capacity: usize,
    /// The slots of the freelist, in order.
    free: Ghost<Seq<SlabIndex>>,
}

impl OrderSlab {
    /// The orders in all slots, slot 0 included.
    pub closed spec fn slots(self) -> Seq<Order> {
        self.slots@
    }

    /// The slots on the freelist, next one to hand out first.
    pub closed spec fn free_slots(self) -> Seq<SlabIndex> {
        self.free@
    }

    /// How many orders there is room for.
    pub closed spec fn room(self) -> nat {
        self.capacity as nat
    }

    /// The freelist is one, and every generation is in its range.
    pub closed spec fn valid(self) -> bool {
        &&& 0 < self.capacity <= u32::MAX
        &&& self.slots@.len() == self.capacity + 1
        &&& freelist(nodes_of(self.slots@), self.free@, self.free_head)
        &&& forall|n: int|
            0 <= n < self.slots@.len() ==> 1 <= (#[trigger] self.slots@[n]).generation <= GEN_MASK
    }

    /// What a valid slab satisfies.
    pub proof fn lemma_valid(self)
        requires
            self.valid(),
        ensures
            self.slots().len() == self.room() + 1,
            0 < self.room() <= u32::MAX,
            freelist(nodes_of(self.slots()), self.free_slots(), first(self.free_slots())),
            forall|n: int|
                0 <= n < self.slots().len() ==> 1 <= (#[trigger] self.slots()[n]).generation
                    <= GEN_MASK,
    {
    }

    /// A slab with `capacity` free slots: slot 1 first, all in their first
    /// generation.
    pub fn with_capacity(capacity: usize) -> (r: Self)
        requires
            0 < capacity <= u32::MAX,
            capacity < usize::MAX,
        ensures
            r.valid(),
            r.room() == capacity,
            r.free_slots() == fresh(capacity as nat),
            r.slots().len() == capacity + 1,
            forall|n: int|
                0 <= n <= capacity ==> (#[trigger] r.slots()[n]) == (Order {
                    price: Price(0),
                    quantity: 0,
                    prev: None,
                    next: if 1 <= n < capacity {
                        Some(SlabIndex((n + 1) as u32))
                    } else {
                        None
                    },
                    generation: 1,
                }),
    {
        let total_slots = capacity + 1;
        let mut slots: Vec<Order> = Vec::with_capacity(total_slots);
        slots.push(
            Order { price: Price(0), quantity: 0, prev: None, next: None, generation: 1 },
        );
        let mut i: usize = 1;
        while i <= capacity
            invariant
                0 < capacity <= u32::MAX,
                capacity < usize::MAX,
                1 <= i <= capacity + 1,
                slots@.len() == i,
                forall|n: int|
                    0 <= n < i ==> (#[trigger] slots@[n]) == (Order {
                        price: Price(0),
                        quantity: 0,
                        prev: None,
                        next: if 1 <= n < capacity {
                            Some(SlabIndex((n + 1) as u32))
                        } else {
                            None
                        },
                        generation: 1,
                    }),
            decreases capacity + 1 - i,
        {
            let next_free = if i < capacity {
                Some(SlabIndex::new((i + 1) as u32))
            } else {
                None
            };
            slots.push(
                Order { price: Price(0), quantity: 0, prev: None, next: next_free, generation: 1 },
            );
            i = i + 1;
        }
        let ghost nodes = nodes_of(slots@);
        proof {
            assert forall|n: int| 1 <= n <= capacity implies (#[trigger] nodes[n]).next == (if n
                < capacity {
                Some(SlabIndex((n + 1) as u32))
            } else {
                None
            }) by {
                assert(nodes[n] == slots@[n].node());
            }
            lemma_fresh(nodes, capacity as nat);
        }
        OrderSlab {
            slots,
            free_head: Some(SlabIndex::new(1)),
            capacity,
            free: Ghost(fresh(capacity as nat)),
        }
    }

    pub fn get(&self, idx: SlabIndex) -> (r: &Order)
        requires
            idx.0 < self.slots().len(),
        ensures
            *r == self.slots()[idx.0 as int],
    {
        &self.slots[idx.as_usize()]
    }

    /// Write access to a slot. The slab stays valid if the generation that is
    /// written is in range, and the link of a slot on the freelist is not changed.
    pub fn get_mut(&mut self, idx: SlabIndex) -> (r: &mut Order)
        requires
            idx.0 < old(self).slots().len(),
        ensures
            *r == old(self).slots()[idx.0 as int],
            final(self).slots() == old(self).slots().update(idx.0 as int, *final(r)),
            final(self).free_slots() == old(self).free_slots(),
            final(self).room() == old(self).room(),
            old(self).valid() && (!old(self).free_slots().contains(idx) || final(r).next == old(
                self,
            ).slots()[idx.0 as int].next) && 1 <= final(r).generation <= GEN_MASK
                ==> final(self).valid(),
    {
        proof {
            let a = nodes_of(self.slots@);
            let here = self.slots@[idx.0 as int];
            if freelist(a, self.free@, first(self.free@)) {
                assert forall|o: Order|
                    !self.free@.contains(idx) || o.next == here.next implies freelist(
                    nodes_of(#[trigger] self.slots@.update(idx.0 as int, o)),
                    self.free@,
                    first(self.free@),
                ) by {
                    let b = nodes_of(self.slots@.update(idx.0 as int, o));
                    assert forall|i: int| 0 <= i < self.free@.len() implies b[(
                    #[trigger] self.free@[i]).0 as int].next == a[self.free@[i].0 as int].next by {
                        assert(self.free@.contains(self.free@[i]));
                        assert(in_range(a, self.free@[i]));
                    }
                    lemma_freelist_frame(a, b, self.free@);
                }
            }
        }
        &mut self.slots[idx.as_usize()]
    }

    /// Move the slot on to its next generation, so that handles to its current
    /// order are no longer accepted.
    pub fn bump_generation(&mut self, idx: SlabIndex)
        requires
            idx.0 < old(self).slots().len(),
        ensures
            old(self).valid() ==> final(self).valid(),
            final(self).slots() == old(self).slots().update(
                idx.0 as int,
                Order {
                    generation: bumped(old(self).slots()[idx.0 as int].generation),
                    ..old(self).slots()[idx.0 as int]
                },
            ),
            final(self).free_slots() == old(self).free_slots(),
            final(self).room() == old(self).room(),
    {
        let ghost before = self.slots@;
        let i = idx.as_usize();
        let generation = self.slots[i].generation;
        let next = generation.wrapping_add(1) & GEN_MASK;
        let new_gen = if next == 0 {
            1
        } else {
            next
        };
        proof {
            let g = generation.wrapping_add(1);
            assert(g & 0x7FFF_FFFFu32 == g % 0x8000_0000) by (bit_vector);
            assert((generation + 1) % 0x8000_0000 == g % 0x8000_0000);
        }
        self.slots[i].generation = new_gen;
        assert(nodes_of(self.slots@) =~= nodes_of(before));
    }

    /// Put the slot at the front of the freelist and move it on to its next
    /// generation.
    pub fn free(&mut self, idx: SlabIndex)
        requires
            old(self).valid(),
            0 < idx.0 < old(self).slots().len(),
            !old(self).free_slots().contains(idx),
        ensures
            final(self).valid(),
            final(self).slots() == old(self).slots().update(
                idx.0 as int,
                Order {
                    generation: bumped(old(self).slots()[idx.0 as int].generation),
                    next: first(old(self).free_slots()),
                    ..old(self).slots()[idx.0 as int]
                },
            ),
            final(self).free_slots() == seq![idx] + old(self).free_slots(),
            final(self).room() == old(self).room(),
    {
        self.bump_generation(idx);
        let ghost nodes = nodes_of(self.slots@);
        let ghost chain = seq![idx];
        proof {
            assert(linked(nodes, chain, nodes[idx.0 as int].next));
            lemma_spliced(nodes, chain, self.free@);
            self.free@ = chain + self.free@;
        }
        let i = idx.as_usize();
        let next = self.free_head;
        self.slots[i].next = next;
        self.free_head = Some(idx);
        assert(nodes_of(self.slots@) =~= nodes.update(
            idx.0 as int,
            Node { next: next, ..nodes[idx.0 as int] },
        ));
    }

    /// Take the first slot off the freelist. Its generation comes with it.
    pub fn alloc_slot(&mut self) -> (r: BookResult<(SlabIndex, u32)>)
        requires
            old(self).valid(),
        ensures
            final(self).valid(),
            final(self).slots() == old(self).slots(),
            final(self).room() == old(self).room(),
            match r {
                Ok((idx, generation)) => {
                    &&& old(self).free_slots().len() > 0
                    &&& idx == old(self).free_slots()[0]
                    &&& generation == old(self).slots()[idx.0 as int].generation
                    &&& final(self).free_slots() == old(self).free_slots().drop_first()
                },
                Err(e) => {
                    &&& e == BookError::SlabFull
                    &&& old(self).free_slots().len() == 0
                    &&& final(self).free_slots() == old(self).free_slots()
                },
            },
    {
        let idx = match self.free_head {
            Some(idx) => idx,
            None => {
                return Err(BookError::SlabFull);
            },
        };
        proof {
            lemma_freelist_pop(nodes_of(self.slots@), self.free@);
            assert(in_range(nodes_of(self.slots@), self.free@[0]));
            self.free@ = self.free@.drop_first();
        }
        let i = idx.as_usize();
        self.free_head = self.slots[i].next;
        Ok((idx, self.slots[i].generation))
    }

    pub fn capacity(&self) -> (r: usize)
        ensures
            r == self.room(),
    {
        self.capacity
    }
}

impl Links for OrderSlab {
    type Rest = Seq<u32>;

    open spec fn nodes(&self) -> Seq<Node> {
        nodes_of(self.slots())
    }

    open spec fn free_list(&self) -> Seq<SlabIndex> {
        self.free_slots()
    }

    open spec fn rest(&self) -> Seq<u32> {
        generations_of(self.slots())
    }

    open spec fn wf(&self) -> bool {
        self.valid()
    }

    proof fn lemma_wf(&self) {
    }

    fn node(&self, idx: SlabIndex) -> Node {
        let o = &self.slots[idx.as_usize()];
        Node { price: o.price.0, quantity: o.quantity, prev: o.prev, next: o.next }
    }

    fn set_prev(&mut self, idx: SlabIndex, prev: Option<SlabIndex>) {
        let ghost nodes = self.nodes();
        let ghost rest = self.rest();
        self.get_mut(idx).prev = prev;
        assert(self.nodes() =~= nodes.update(
            idx.0 as int,
            Node { prev, ..nodes[idx.0 as int] },
        ));
        assert(self.rest() =~= rest);
    }

    fn set_next(&mut self, idx: SlabIndex, next: Option<SlabIndex>) {
        let ghost nodes = self.nodes();
        let ghost rest = self.rest();
        self.get_mut(idx).next = next;
        assert(self.nodes() =~= nodes.update(
            idx.0 as int,
            Node { next, ..nodes[idx.0 as int] },
        ));
        assert(self.rest() =~= rest);
    }
}

impl Arena for OrderSlab {
    type Id = OrderHandle;

    open spec fn id_in(rest: Seq<u32>, side: Side, idx: SlabIndex) -> OrderHandle {
        handle_in(rest, side, idx)
    }

    open spec fn retired(rest: Seq<u32>, idx: SlabIndex) -> Seq<u32> {
        Seq::new(
            rest.len(),
            |n: int| if n == idx.0 {
                bumped(rest[n])
            } else {
                rest[n]
            },
        )
    }

    proof fn lemma_retired(rest: Seq<u32>, side: Side, gone: SlabIndex, kept: SlabIndex) {
    }

    fn id(&self, side: Side, idx: SlabIndex) -> OrderHandle {
        OrderHandle::new(side, idx, self.slots[idx.as_usize()].generation)
    }

    fn set_quantity(&mut self, idx: SlabIndex, quantity: u64) {
        let ghost nodes = self.nodes();
        let ghost rest = self.rest();
        self.get_mut(idx).quantity = quantity;
        assert(self.nodes() =~= nodes.update(
            idx.0 as int,
            Node { quantity, ..nodes[idx.0 as int] },
        ));
        assert(self.rest() =~= rest);
    }

    fn retire(&mut self, idx: SlabIndex) {
        let ghost nodes = self.nodes();
        let ghost rest = self.rest();
        self.bump_generation(idx);
        assert(self.nodes() =~= nodes);
        assert(self.rest() =~= Self::retired(rest, idx));
    }

    fn splice(&mut self, head: SlabIndex, tail: SlabIndex, Ghost(chain): Ghost<Seq<SlabIndex>>) {
        let ghost nodes = self.nodes();
        let ghost rest = self.rest();
        proof {
            assert(chain.last() == tail);
            assert(in_range(nodes, chain[chain.len() - 1]));
            lemma_spliced(nodes, chain, self.free@);
            self.free@ = chain + self.free@;
        }
        let i = tail.as_usize();
        let next = self.free_head;
        self.slots[i].next = next;
        self.free_head = Some(head);
        assert(self.nodes() =~= nodes.update(
            tail.0 as int,
            Node { next, ..nodes[tail.0 as int] },
        ));
        assert(self.rest() =~= rest);
    }
}

/// The handle of the order in slot `idx` of a slab with these generations.
pub open spec fn handle_in(generations: Seq<u32>, side: Side, idx: SlabIndex) -> OrderHandle {
    OrderHandle::minted(
        side,
        idx,
        if idx.0 < generations.len() {
            generations[idx.0 as int]
        } else {
            0
        },
    )
}

/// One fill of a resting order.
#[derive(Debug)]
pub struct Fill {
    pub resting_id: OrderHandle,
    pub quantity: u64,
}

/// Where a book's fills go.
pub trait FillConsumer: Sized {
    /// Handing `fill` to `pre` may turn it into `post`.
    open spec fn fill_step(pre: Self, fill: Fill, post: Self) -> bool {
        true
    }

    /// Flushing `pre` may turn it into `post`.
    open spec fn flush_step(pre: Self, post: Self) -> bool {
        true
    }

    fn on_fill(&mut self, fill: Fill)
        ensures
            Self::fill_step(*old(self), fill, *final(self)),
    ;

    /// Called at the end of every limit and every market order, whatever came of
    /// it, after all of that operation's fills have been handed over. Consumers
    /// that buffer fills use this as their commit point; for others it does
    /// nothing.
    fn flush(&mut self)
        ensures
            Self::flush_step(*old(self), *final(self)),
    ;
}

impl<C: FillConsumer> FillSink<OrderHandle> for C {
    open spec fn fill_step(pre: Self, fill: Lot<OrderHandle>, post: Self) -> bool {
        <C as FillConsumer>::fill_step(
            pre,
            Fill { resting_id: fill.id, quantity: fill.quantity },
            post,
        )
    }

    fn deliver(&mut self, id: OrderHandle, quantity: u64) {
        self.on_fill(Fill { resting_id: id, quantity });
    }
}

/// Collects every fill.
pub struct VecConsumer {
    pub fills: Vec<Fill>,
}

impl Default for VecConsumer {
    fn default() -> (r: Self)
        ensures
            r.fills@ == Seq::<Fill>::empty(),
    {
        VecConsumer { fills: Vec::new() }
    }
}

impl FillConsumer for VecConsumer {
    open spec fn fill_step(pre: Self, fill: Fill, post: Self) -> bool {
        post.fills@ == pre.fills@.push(fill)
    }

    open spec fn flush_step(pre: Self, post: Self) -> bool {
        post.fills@ == pre.fills@
    }

    fn on_fill(&mut self, fill: Fill) {
        self.fills.push(fill);
    }

    fn flush(&mut self) {
    }
}

/// The slots of some orders.
pub open spec fn slots_of(handles: Seq<OrderHandle>) -> Seq<SlabIndex> {
    handles.map_values(|h: OrderHandle| h.slot())
}

/// The generations of a slab once the orders in the slots `gone` are gone.
pub open spec fn aged(generations: Seq<u32>, gone: Seq<SlabIndex>) -> Seq<u32> {
    Seq::new(
        generations.len(),
        |n: int| if gone.contains(SlabIndex(n as u32)) {
            bumped(generations[n])
        } else {
            generations[n]
        },
    )
}

/// Retiring distinct slots one by one moves each of them on by one generation.
proof fn lemma_aged(generations: Seq<u32>, gone: Seq<SlabIndex>)
    requires
        gone.no_duplicates(),
        generations.len() <= u32::MAX + 1,
    ensures
        retired_all::<OrderSlab>(generations, gone) == aged(generations, gone),
    decreases gone.len(),
{
    if gone.len() == 0 {
        assert(aged(generations, gone) =~= generations);
    } else {
        let front = gone.drop_last();
        let last = gone.last();
        lemma_aged(generations, front);
        assert forall|idx: SlabIndex| gone.contains(idx) <==> front.contains(idx) || idx
            == last by {
            if gone.contains(idx) && idx != last {
                let i = gone.index_of(idx);
                assert(front[i] == idx);
            }
            if front.contains(idx) {
                let i = front.index_of(idx);
                assert(gone[i] == idx);
            }
            assert(gone[gone.len() - 1] == last);
        }
        assert(!front.contains(last)) by {
            if front.contains(last) {
                let i = front.index_of(last);
                assert(gone[i] == gone[gone.len() - 1]);
            }
        }
        assert(retired_all::<OrderSlab>(generations, gone) =~= aged(generations, gone));
    }
}

/// One side of a book as seen from outside.
#[verifier::ext_equal]
pub struct SideView {
    /// What rests, by price.
    pub levels: Levels<OrderHandle>,
    /// The free slots, next one to be used first.
    pub free: Seq<SlabIndex>,
    /// The generation of every slot.
    pub generations: Seq<u32>,
}

impl SideView {
    /// A side with `capacity` free slots and nothing resting.
    pub open spec fn empty(capacity: nat) -> SideView {
        SideView {
            levels: Map::empty(),
            free: fresh(capacity),
            generations: Seq::new(capacity + 1, |n: int| 1u32),
        }
    }

    /// The handle that the next order resting on this side will get.
    pub open spec fn next_handle(self, side: Side) -> OrderHandle {
        handle_in(self.generations, side, self.free[0])
    }

    /// The side after an order has been put to rest on it.
    pub open spec fn rested(self, side: Side, price: u64, quantity: u64) -> SideView {
        SideView {
            levels: with_lot(self.levels, price, Lot { id: self.next_handle(side), quantity }),
            free: self.free.drop_first(),
            generations: self.generations,
        }
    }

    /// The side after a sweep over it: the slots of the orders that were filled
    /// completely are free again, in the order in which they were filled.
    pub open spec fn swept(self, s: Swept<OrderHandle>) -> SideView {
        SideView {
            levels: s.levels,
            free: slots_of(s.done()) + self.free,
            generations: aged(self.generations, slots_of(s.done())),
        }
    }

    /// The side after the order with handle `h` has been cancelled.
    pub open spec fn cancelled(self, h: OrderHandle) -> SideView {
        SideView {
            levels: without(self.levels, h),
            free: seq![h.slot()] + self.free,
            generations: aged(self.generations, seq![h.slot()]),
        }
    }

    /// What rests is in order. Each slot either is free or holds one resting
    /// order, whose handle carries the side and the slot's generation.
    pub open spec fn valid(self, side: Side) -> bool {
        &&& sound(self.levels)
        &&& 1 <= self.generations.len() <= u32::MAX + 1
        &&& in_era(self.generations)
        &&& self.free.no_duplicates()
        &&& forall|idx: SlabIndex| #[trigger]
            self.free.contains(idx) ==> 0 < idx.0 < self.generations.len()
        &&& forall|h: OrderHandle| #[trigger]
            holds(self.levels, h) ==> {
                &&& h.half() == side
                &&& 0 < h.slot().0 < self.generations.len()
                &&& h.era() == self.generations[h.slot().0 as int]
                &&& !self.free.contains(h.slot())
            }
        &&& forall|idx: SlabIndex|
            0 < idx.0 < self.generations.len() ==> self.free.contains(idx) || holds(
                self.levels,
                #[trigger] handle_in(self.generations, side, idx),
            )
    }

    /// `h` has been handed out: its slot is in a later generation, or in the
    /// handle's own and not free.
    pub open spec fn issued(self, h: OrderHandle) -> bool {
        &&& 0 < h.slot().0 < self.generations.len()
        &&& h.era() <= self.generations[h.slot().0 as int]
        &&& h.era() == self.generations[h.slot().0 as int] ==> !self.free.contains(h.slot())
    }

    /// How many times every slot can be moved on before one wraps round.
    pub open spec fn spare(self) -> nat {
        margin(self.generations, GEN_MASK)
    }

    /// `h` points at a slot of this side, and not at the order that the slot
    /// will hold next while it is still free. This holds of every handle that
    /// the book has issued, until the slot's generation wraps round.
    pub open spec fn accepts(self, h: OrderHandle) -> bool {
        &&& 0 < h.slot().0 < self.generations.len()
        &&& !(self.free.contains(h.slot()) && self.generations[h.slot().0 as int] == h.era())
    }
}

/// The generations of a side are in their range.
pub open spec fn in_era(generations: Seq<u32>) -> bool {
    forall|n: int| 0 <= n < generations.len() ==> 1 <= #[trigger] generations[n] <= GEN_MASK
}

/// Every slot either is free or has an order in its queue.
pub open spec fn no_leak(
    nodes: Seq<Node>,
    queues: half_book::Queues,
    free: Seq<SlabIndex>,
) -> bool {
    forall|idx: SlabIndex|
        in_range(nodes, idx) ==> free.contains(idx) || #[trigger] rests(nodes, queues, idx)
}

/// One side of a book, with the slab that its orders live in.
pub struct HalfBook {
    ladder: half_book::HalfBook,
    slab: OrderSlab,
}

impl View for HalfBook {
    type V = SideView;

    closed spec fn view(&self) -> SideView {
        SideView { levels: self.levels(), free: self.slab.free_list(), generations: self.slab.rest() }
    }
}

impl HalfBook {
    pub closed spec fn side(self) -> Side {
        self.ladder.side()
    }

    spec fn slot_levels(self) -> Levels<SlabIndex> {
        resting(self.slab.nodes(), self.ladder.queues())
    }

    spec fn name(self) -> spec_fn(SlabIndex) -> OrderHandle {
        |idx: SlabIndex| handle_in(self.slab.rest(), self.ladder.side(), idx)
    }

    spec fn levels(self) -> Levels<OrderHandle> {
        renamed(self.slot_levels(), self.name())
    }

    /// The queues run through the slab, apart from the freelist, and no slot is
    /// lost.
    pub closed spec fn wf(self) -> bool {
        &&& self.slab.wf()
        &&& self.ladder.wf(self.slab.nodes())
        &&& all_apart(self.ladder.queues(), self.slab.free_list())
        &&& no_leak(self.slab.nodes(), self.ladder.queues(), self.slab.free_list())
    }

    fn with_capacity(side: Side, capacity: usize) -> (r: Self)
        requires
            0 < capacity <= u32::MAX,
            capacity < usize::MAX,
        ensures
            r.wf(),
            r.side() == side,
            r@ == SideView::empty(capacity as nat),
    {
        let r = HalfBook {
            ladder: half_book::HalfBook::new(side),
            slab: OrderSlab::with_capacity(capacity),
        };
        proof {
            lemma_fresh(r.slab.nodes(), capacity as nat);
            assert(r.levels() =~= Map::empty());
            assert(r.slab.rest() =~= Seq::new(capacity as nat + 1, |n: int| 1u32));
        }
        r
    }

    /// A live order's handle points back at its slot and generation.
    proof fn lemma_named(self, idx: SlabIndex)
        requires
            self.wf(),
            in_range(self.slab.nodes(), idx),
        ensures
            ({
                let h = handle_in(self.slab.rest(), self.side(), idx);
                &&& h.slot() == idx
                &&& h.era() == self.slab.rest()[idx.0 as int]
                &&& h.half() == self.side()
            }),
    {
        self.slab.lemma_valid();
        assert(self.slab.slots()[idx.0 as int].generation <= GEN_MASK);
        OrderHandle::lemma_minted(self.side(), idx, self.slab.rest()[idx.0 as int]);
    }

    /// What rests on a consistent side, by slot and by handle.
    proof fn lemma_view(self)
        requires
            self.wf(),
        ensures
            distinct_ids(self.slot_levels()),
            distinct_ids(self.levels()),
            self.levels().dom() == self.slot_levels().dom(),
            self.slot_levels().dom().finite(),
            forall|p: u64| #[trigger]
                self.slot_levels().contains_key(p) ==> self.slot_levels()[p].len() > 0,
            forall|a: SlabIndex, b: SlabIndex|
                #![trigger holds(self.slot_levels(), a), holds(self.slot_levels(), b)]
                holds(self.slot_levels(), a) && holds(self.slot_levels(), b) && (self.name())(a)
                    == (self.name())(b) ==> a == b,
            forall|idx: SlabIndex| #[trigger]
                holds(self.slot_levels(), idx) ==> in_range(self.slab.nodes(), idx) && rests(
                    self.slab.nodes(),
                    self.ladder.queues(),
                    idx,
                ) && !self.slab.free_list().contains(idx),
    {
        let nodes = self.slab.nodes();
        let queues = self.ladder.queues();
        let by_slot = self.slot_levels();
        self.ladder.lemma_wf(nodes);
        lemma_resting(nodes, queues);
        assert forall|a: SlabIndex, b: SlabIndex|
            #![trigger holds(by_slot, a), holds(by_slot, b)]
            holds(by_slot, a) && holds(by_slot, b) && (self.name())(a) == (self.name())(
                b,
            ) implies a == b by {
            self.lemma_named(a);
            self.lemma_named(b);
        }
        lemma_distinct_renamed(by_slot, self.name());
        assert(self.levels().dom() =~= by_slot.dom());
        assert forall|idx: SlabIndex| #[trigger] holds(by_slot, idx) implies !self.slab.free_list().contains(
            idx,
        ) by {
            let p = nodes[idx.0 as int].price;
            let i = queues[p].index_of(idx);
            assert(queues.contains_key(p));
            assert(queues[p][i] == idx);
        }
    }

    /// What a consistent side shows is in order.
    proof fn lemma_valid(self)
        requires
            self.wf(),
        ensures
            self@.valid(self.side()),
    {
        let nodes = self.slab.nodes();
        let queues = self.ladder.queues();
        let v = self@;
        self.lemma_view();
        self.slab.lemma_valid();
        self.slab.lemma_wf();
        self.ladder.lemma_wf(nodes);
        self.ladder.lemma_sound(nodes);
        lemma_resting(nodes, queues);
        lemma_sound_renamed(self.slot_levels(), self.name());
        assert forall|n: int| 0 <= n < v.generations.len() implies 1 <= #[trigger] v.generations[n]
            <= GEN_MASK by {
            assert(self.slab.slots()[n].generation == v.generations[n]);
        }
        assert forall|idx: SlabIndex| #[trigger] v.free.contains(idx) implies 0 < idx.0
            < v.generations.len() by {
            let i = v.free.index_of(idx);
            assert(in_range(nodes, self.slab.free_list()[i]));
        }
        assert forall|h: OrderHandle| #[trigger] holds(v.levels, h) implies {
            &&& h.half() == self.side()
            &&& 0 < h.slot().0 < v.generations.len()
            &&& h.era() == v.generations[h.slot().0 as int]
            &&& !v.free.contains(h.slot())
        } by {
            lemma_holds_renamed(self.slot_levels(), self.name(), h);
            let a = choose|a: SlabIndex| #[trigger]
                holds(self.slot_levels(), a) && (self.name())(a) == h;
            self.lemma_named(a);
        }
        assert forall|idx: SlabIndex|
            0 < idx.0 < v.generations.len() implies v.free.contains(idx) || holds(
            v.levels,
            #[trigger] handle_in(v.generations, self.side(), idx),
        ) by {
            if !v.free.contains(idx) {
                assert(in_range(nodes, idx));
                assert(rests(nodes, queues, idx));
                assert(holds(self.slot_levels(), idx));
                let h = (self.name())(idx);
                lemma_holds_renamed(self.slot_levels(), self.name(), h);
            }
        }
    }

    /// Put an order to rest: take a slot, fill it in and queue it. Gives the
    /// slot and its generation.
    fn alloc_and_rest(&mut self, price: Price, quantity: u64) -> (r: BookResult<(SlabIndex, u32)>)
        requires
            old(self).wf(),
            quantity > 0,
            old(self)@.free.len() > 0 ==> queue_total(lots_at(old(self)@.levels, price.0))
                + quantity <= u64::MAX,
        ensures
            final(self).wf(),
            final(self).side() == old(self).side(),
            match r {
                Ok((idx, generation)) => {
                    &&& old(self)@.free.len() > 0
                    &&& idx == old(self)@.free[0]
                    &&& 0 < idx.0 < old(self)@.generations.len()
                    &&& generation == old(self)@.generations[idx.0 as int]
                    &&& 0 < generation <= GEN_MASK
                    &&& final(self)@ == old(self)@.rested(old(self).side(), price.0, quantity)
                },
                Err(e) => {
                    &&& e == BookError::SlabFull
                    &&& old(self)@.free.len() == 0
                    &&& final(self)@ == old(self)@
                },
            },
    {
        let ghost this = *self;
        let ghost nodes = self.slab.nodes();
        let ghost queues = self.ladder.queues();
        let ghost free = self.slab.free_list();
        let ghost rest = self.slab.rest();
        let (idx, generation) = match self.slab.alloc_slot() {
            Ok(slot) => slot,
            Err(e) => {
                return Err(e);
            },
        };
        proof {
            this.slab.lemma_wf();
            this.slab.lemma_valid();
            this.lemma_view();
            self.ladder.lemma_wf(nodes);
            lemma_resting(nodes, queues);
            lemma_freelist_pop(nodes, free);
            assert(in_range(nodes, free[0]));
            assert(free.contains(free[0]));
            assert(this.slab.slots()[idx.0 as int].generation == generation);
        }
        let slot = self.slab.get_mut(idx);
        slot.price = price;
        slot.quantity = quantity;
        slot.prev = None;
        slot.next = None;
        let ghost mid = self.slab.nodes();
        proof {
            assert(!holds(this.slot_levels(), idx));
            assert(mid =~= nodes.update(
                idx.0 as int,
                Node { price: price.0, quantity, prev: None, next: None },
            ));
            assert(self.slab.rest() =~= rest);
            self.ladder.lemma_frame(nodes, mid);
            self.ladder.lemma_wf(mid);
            lemma_resting(mid, queues);
            assert(!rests(mid, queues, idx)) by {
                assert(!holds(resting(mid, queues), idx));
            }
            assert(all_apart(queues, self.slab.free_list())) by {
                assert forall|p: u64| #[trigger] queues.contains_key(p) implies apart(
                    queues[p],
                    free.drop_first(),
                ) by {
                    assert(apart(queues[p], free));
                    assert forall|i: int| 0 <= i < queues[p].len() implies !free.drop_first().contains(
                        #[trigger] queues[p][i],
                    ) by {
                        assert(!free.contains(queues[p][i]));
                        if free.drop_first().contains(queues[p][i]) {
                            let j = free.drop_first().index_of(queues[p][i]);
                            assert(free[j + 1] == queues[p][i]);
                        }
                    }
                }
            }
            let q = queue_at(queues, price.0);
            lemma_lots_total(mid, q);
            lemma_queue_total_rename(lots_at(this.slot_levels(), price.0), this.name());
            assert(crate::level::lots(mid, q) =~= lots_at(this.slot_levels(), price.0));
            assert(rename(lots_at(this.slot_levels(), price.0), this.name()) =~= lots_at(
                this.levels(),
                price.0,
            ));
        }
        self.ladder.push_order_to_l2_book_and_update_slab_links(idx, &mut self.slab);
        proof {
            lemma_rested(mid, queues, idx);
            let lot = Lot { id: idx, quantity };
            assert(self.slot_levels() == with_lot(this.slot_levels(), price.0, lot));
            assert(self.name() =~= this.name());
            assert(rename(lots_at(this.slot_levels(), price.0).push(lot), this.name()) =~= lots_at(
                this.levels(),
                price.0,
            ).push(Lot { id: (this.name())(idx), quantity }));
            assert(self.levels() =~= with_lot(
                this.levels(),
                price.0,
                Lot { id: this@.next_handle(this.side()), quantity },
            ));
            let q = queue_at(queues, price.0);
            assert(all_apart(self.ladder.queues(), self.slab.free_list())) by {
                assert forall|p: u64| #[trigger] self.ladder.queues().contains_key(p) implies apart(
                    self.ladder.queues()[p],
                    free.drop_first(),
                ) by {
                    if p == price.0 {
                        assert forall|i: int| 0 <= i < q.push(idx).len() implies !free.drop_first().contains(
                            #[trigger] q.push(idx)[i],
                        ) by {
                            if i < q.len() {
                                assert(apart(queues[p], free.drop_first()));
                                assert(q.push(idx)[i] == queues[p][i]);
                            }
                        }
                    } else {
                        assert(queues.contains_key(p));
                    }
                }
            }
            assert(no_leak(self.slab.nodes(), self.ladder.queues(), self.slab.free_list())) by {
                assert forall|i: SlabIndex| in_range(mid, i) implies free.drop_first().contains(i)
                    || #[trigger] rests(self.slab.nodes(), self.ladder.queues(), i) by {
                    if free.contains(i) && i != idx {
                        let j = free.index_of(i);
                        assert(free.drop_first()[j - 1] == i);
                    } else if i != idx {
                        assert(rests(nodes, queues, i));
                        assert(rests(mid, queues, i));
                    }
                }
            }
        }
        Ok((idx, generation))
    }

    /// Take `quantity` out of the orders resting on this side, best price
    /// first, oldest first within a price, none beyond `limit`. Gives what is
    /// left of the quantity.
    fn take<C: FillConsumer>(
        &mut self,
        consumer: &mut C,
        limit: Option<Price>,
        quantity: u64,
    ) -> (remaining: u64)
        requires
            old(self).wf(),
        ensures
            final(self).wf(),
            final(self).side() == old(self).side(),
            ({
                let s = sweep(old(self).side(), old(self)@.levels, ticks(limit), quantity);
                &&& remaining == s.left
                &&& final(self)@ == old(self)@.swept(s)
                &&& delivered(*old(consumer), s.fills, *final(consumer))
            }),
    {
        let ghost this = *self;
        let remaining = self.ladder.sweep(&mut self.slab, consumer, limit, quantity);
        proof {
            let side = this.side();
            let nodes = this.slab.nodes();
            let queues = this.ladder.queues();
            let free = this.slab.free_list();
            let rest = this.slab.rest();
            let s = sweep(side, this.slot_levels(), ticks(limit), quantity);
            let t = sweep(side, this.levels(), ticks(limit), quantity);
            let gone = s.done();
            this.lemma_view();
            this.slab.lemma_wf();
            self.slab.lemma_wf();
            self.ladder.lemma_wf(self.slab.nodes());
            lemma_resting(self.slab.nodes(), self.ladder.queues());
            lemma_sweep_renamed(side, this.slot_levels(), ticks(limit), quantity, this.name());
            lemma_sweep_leaves(side, this.slot_levels(), ticks(limit), quantity);
            assert(t.fills =~= named::<OrderSlab>(rest, side, s.fills));
            reveal(swept_slots);
            assert(slots_of(t.done()) =~= gone) by {
                assert forall|i: int| 0 <= i < gone.len() implies #[trigger] slots_of(t.done())[i]
                    == gone[i] by {
                    assert(gone.contains(gone[i]));
                    this.lemma_named(gone[i]);
                    assert(t.fills[i].id == (this.name())(s.fills[i].id));
                }
            }
            assert(gone.no_duplicates()) by {
                assert forall|i: int, j: int| 0 <= i < gone.len() && 0 <= j < gone.len() && i
                    != j implies gone[i] != gone[j] by {
                    assert((gone + free)[i] == gone[i]);
                    assert((gone + free)[j] == gone[j]);
                }
            }
            lemma_aged(rest, gone);
            assert forall|idx: SlabIndex| #[trigger] holds(s.levels, idx) implies (this.name())(idx)
                == (self.name())(idx) by {
                assert(rests(self.slab.nodes(), self.ladder.queues(), idx));
                assert(!gone.contains(idx));
            }
            lemma_renamed_frame(s.levels, this.name(), self.name());
            assert(self@ =~= this@.swept(t));
            assert(all_apart(self.ladder.queues(), self.slab.free_list())) by {
                assert forall|p: u64| #[trigger] self.ladder.queues().contains_key(p) implies apart(
                    self.ladder.queues()[p],
                    gone + free,
                ) by {
                    let q = self.ladder.queues()[p];
                    assert forall|i: int| 0 <= i < q.len() implies !(gone + free).contains(
                        #[trigger] q[i],
                    ) by {
                        let idx = q[i];
                        assert(in_range(self.slab.nodes(), idx));
                        assert(q.contains(idx));
                        assert(rests(self.slab.nodes(), self.ladder.queues(), idx));
                        assert(rests(nodes, queues, idx));
                        assert(!gone.contains(idx));
                        assert(holds(this.slot_levels(), idx)) by {
                            this.ladder.lemma_wf(nodes);
                            lemma_resting(nodes, queues);
                        }
                        if (gone + free).contains(idx) {
                            let j = (gone + free).index_of(idx);
                            if j < gone.len() {
                                assert(gone[j] == idx);
                            } else {
                                assert(free[j - gone.len()] == idx);
                            }
                        }
                    }
                }
            }
            assert(no_leak(self.slab.nodes(), self.ladder.queues(), self.slab.free_list())) by {
                assert forall|idx: SlabIndex| in_range(self.slab.nodes(), idx) implies (gone
                    + free).contains(idx) || #[trigger] rests(
                    self.slab.nodes(),
                    self.ladder.queues(),
                    idx,
                ) by {
                    assert(in_range(nodes, idx));
                    if free.contains(idx) {
                        let j = free.index_of(idx);
                        assert((gone + free)[j + gone.len()] == idx);
                    } else {
                        assert(rests(nodes, queues, idx));
                        if gone.contains(idx) {
                            let j = gone.index_of(idx);
                            assert((gone + free)[j] == idx);
                        }
                    }
                }
            }
        }
        remaining
    }

    /// A handle that rests is one that this side issued and still knows.
    proof fn lemma_holds(self, h: OrderHandle)
        requires
            self.wf(),
            h.half() == self.side(),
            self@.accepts(h),
        ensures
            holds(self@.levels, h) <==> self@.generations[h.slot().0 as int] == h.era(),
            holds(self@.levels, h) ==> {
                &&& rests(self.slab.nodes(), self.ladder.queues(), h.slot())
                &&& holds(self.slot_levels(), h.slot())
                &&& (self.name())(h.slot()) == h
            },
    {
        let nodes = self.slab.nodes();
        let queues = self.ladder.queues();
        let idx = h.slot();
        self.lemma_view();
        self.ladder.lemma_wf(nodes);
        lemma_resting(nodes, queues);
        lemma_holds_renamed(self.slot_levels(), self.name(), h);
        self.lemma_named(idx);
        h.lemma_handle();
        if holds(self@.levels, h) {
            let a = choose|a: SlabIndex| #[trigger]
                holds(self.slot_levels(), a) && (self.name())(a) == h;
            self.lemma_named(a);
            assert(a == idx);
        }
        if self@.generations[idx.0 as int] == h.era() {
            assert(rests(nodes, queues, idx));
            assert(holds(self.slot_levels(), idx));
            assert((self.name())(idx) == h);
        }
    }

    /// Cancel the order that `handle` points at, if it still rests.
    fn cancel(&mut self, handle: OrderHandle) -> (r: BookResult<()>)
        requires
            old(self).wf(),
            old(self).side() == handle.half(),
            old(self)@.accepts(handle),
        ensures
            final(self).wf(),
            final(self).side() == old(self).side(),
            match r {
                Ok(_) => {
                    &&& holds(old(self)@.levels, handle)
                    &&& final(self)@ == old(self)@.cancelled(handle)
                },
                Err(e) => {
                    &&& e == BookError::OrderNotFound
                    &&& !holds(old(self)@.levels, handle)
                    &&& final(self)@ == old(self)@
                },
            },
    {
        let idx = handle.idx();
        let generation = handle.generation();
        let ghost this = *self;
        let ghost nodes = self.slab.nodes();
        let ghost queues = self.ladder.queues();
        let ghost free = self.slab.free_list();
        let ghost rest = self.slab.rest();
        proof {
            self.lemma_holds(handle);
            self.lemma_view();
            self.ladder.lemma_wf(nodes);
            lemma_resting(nodes, queues);
        }
        let slot = self.slab.get(idx);
        if slot.generation != generation {
            return Err(BookError::OrderNotFound);
        }
        let price = slot.price;
        assert(this.slab.slots()[idx.0 as int].node() == nodes[idx.0 as int]);
        self.ladder.remove_order_from_l2_book_and_update_slab_links(idx, price, &mut self.slab);
        let ghost mid = self.slab.nodes();
        self.slab.free(idx);
        proof {
            let fewer = self.ladder.queues();
            lemma_dropped(nodes, queues, idx);
            self.slab.lemma_wf();
            assert(self.slab.nodes() =~= mid.update(
                idx.0 as int,
                Node { next: first(free), ..mid[idx.0 as int] },
            ));
            self.ladder.lemma_wf(mid);
            self.ladder.lemma_frame(mid, self.slab.nodes());
            self.ladder.lemma_wf(self.slab.nodes());
            assert(self.slab.rest() =~= aged(rest, seq![idx])) by {
                assert(seq![idx][0] == idx);
            }
            let by_slot = without(this.slot_levels(), idx);
            assert(self.slot_levels() == by_slot);
            lemma_without_renamed(this.slot_levels(), idx, this.name());
            lemma_resting(self.slab.nodes(), fewer);
            assert forall|i: SlabIndex| #[trigger] holds(by_slot, i) implies (this.name())(i) == (
            self.name())(i) by {
                assert(rests(self.slab.nodes(), fewer, i));
                assert(rests(mid, fewer, i));
            }
            lemma_renamed_frame(by_slot, this.name(), self.name());
            assert(self@ =~= this@.cancelled(handle));
            assert(all_apart(fewer, self.slab.free_list())) by {
                assert forall|p: u64| #[trigger] fewer.contains_key(p) implies apart(
                    fewer[p],
                    seq![idx] + free,
                ) by {
                    assert forall|i: int| 0 <= i < fewer[p].len() implies !(seq![idx]
                        + free).contains(#[trigger] fewer[p][i]) by {
                        let x = fewer[p][i];
                        assert(in_range(self.slab.nodes(), x));
                        assert(fewer[p].contains(x));
                        assert(rests(self.slab.nodes(), fewer, x));
                        assert(rests(mid, fewer, x));
                        assert(rests(nodes, queues, x) && x != idx);
                        assert(holds(this.slot_levels(), x));
                        if (seq![idx] + free).contains(x) {
                            let j = (seq![idx] + free).index_of(x);
                            assert(j > 0);
                            assert(free[j - 1] == x);
                        }
                    }
                }
            }
            assert(no_leak(self.slab.nodes(), fewer, self.slab.free_list())) by {
                assert forall|i: SlabIndex| in_range(nodes, i) implies (seq![idx] + free).contains(
                    i,
                ) || #[trigger] rests(self.slab.nodes(), fewer, i) by {
                    if i == idx {
                        assert((seq![idx] + free)[0] == i);
                    } else if free.contains(i) {
                        let j = free.index_of(i);
                        assert((seq![idx] + free)[j + 1] == i);
                    } else {
                        assert(rests(nodes, queues, i));
                        assert(rests(mid, fewer, i));
                    }
                }
            }
        }
        Ok(())
    }

    /// Total quantity resting on this side.
    fn available(&self) -> (r: u128)
        requires
            self.wf(),
        ensures
            r == total(self@.levels),
    {
        proof {
            self.lemma_view();
            lemma_total_renamed(self.slot_levels(), self.name());
        }
        self.ladder.available(Ghost(self.slab.nodes()))
    }
}

/// Handing `fills` to `pre`, one by one and in order, and then flushing it may
/// turn it into `post`.
pub open spec fn settled<C: FillConsumer>(pre: C, fills: Seq<Lot<OrderHandle>>, post: C) -> bool {
    exists|mid: C| #[trigger] delivered(pre, fills, mid) && C::flush_step(mid, post)
}

/// A book as seen from outside.
#[verifier::ext_equal]
pub struct BookView {
    pub bids: SideView,
    pub asks: SideView,
}

impl BookView {
    /// The given side.
    pub open spec fn on(self, side: Side) -> SideView {
        match side {
            Side::Bid => self.bids,
            Side::Ask => self.asks,
        }
    }

    /// The book with the given side replaced.
    pub open spec fn put(self, side: Side, v: SideView) -> BookView {
        match side {
            Side::Bid => BookView { bids: v, asks: self.asks },
            Side::Ask => BookView { bids: self.bids, asks: v },
        }
    }

    /// What an aggressor on `side` does to the other side.
    pub open spec fn taking(self, side: Side, limit: Option<u64>, quantity: u64) -> Swept<
        OrderHandle,
    > {
        sweep(side.other(), self.on(side.other()).levels, limit, quantity)
    }

    /// The book after an aggressor on `side` has taken what it could.
    pub open spec fn taken(self, side: Side, limit: Option<u64>, quantity: u64) -> BookView {
        self.put(
            side.other(),
            self.on(side.other()).swept(self.taking(side, limit, quantity)),
        )
    }

    /// Adding a limit order gives `r` and turns the book into `post`: what it
    /// could take is taken, and what is left rests, or is refused if there is no
    /// slot for it.
    pub open spec fn limited(
        self,
        side: Side,
        price: u64,
        quantity: u64,
        r: BookResult<Option<OrderHandle>>,
        post: BookView,
    ) -> bool {
        let own = self.on(side);
        let s = self.taking(side, Some(price), quantity);
        let traded = self.taken(side, Some(price), quantity);
        match r {
            Ok(None) => s.left == 0 && post == traded,
            Ok(Some(h)) => {
                &&& s.left > 0
                &&& own.free.len() > 0
                &&& h == own.next_handle(side)
                &&& post == traded.put(side, own.rested(side, price, s.left))
            },
            Err(e) => {
                &&& e == BookError::SlabFull
                &&& s.left > 0
                &&& own.free.len() == 0
                &&& post == traded
            },
        }
    }

    /// Each side is in order, and every bid is below every ask.
    pub open spec fn valid(self) -> bool {
        &&& self.bids.valid(Side::Bid)
        &&& self.asks.valid(Side::Ask)
        &&& uncrossed(self.bids.levels, self.asks.levels)
    }
}

/// The two sides of a book, each with its own slots.
pub struct Resting {
    bids: HalfBook,
    asks: HalfBook,
}

/// A central-limit order book, matching by price and then by time.
///
/// Each side has a slab of its own, so that the orders of one side lie next to
/// each other.
pub struct OrderBook<C: FillConsumer> {
    /// What rests. Its parts are private to the engine.
    pub resting: Resting,
    /// Where fills go.
    pub consumer: C,
}

impl<C: FillConsumer> View for OrderBook<C> {
    type V = BookView;

    closed spec fn view(&self) -> BookView {
        BookView { bids: self.resting.bids@, asks: self.resting.asks@ }
    }
}

impl<C: FillConsumer + Default> OrderBook<C> {
    /// A book with `slab_capacity` slots in all, half of them for each side.
    pub fn new(slab_capacity: usize) -> (r: Self)
        requires
            0 < slab_capacity / 2 <= u32::MAX,
        ensures
            r.wf(),
            r@.bids == SideView::empty((slab_capacity / 2) as nat),
            r@.asks == SideView::empty((slab_capacity / 2) as nat),
            call_ensures(C::default, (), r.sink()),
    {
        Self::with_consumer(slab_capacity, C::default())
    }

    /// A book with the given number of slots for each side.
    pub fn with_capacities(bid_capacity: usize, ask_capacity: usize) -> (r: Self)
        requires
            0 < bid_capacity <= u32::MAX,
            0 < ask_capacity <= u32::MAX,
            bid_capacity < usize::MAX,
            ask_capacity < usize::MAX,
        ensures
            r.wf(),
            r@.bids == SideView::empty(bid_capacity as nat),
            r@.asks == SideView::empty(ask_capacity as nat),
            call_ensures(C::default, (), r.sink()),
    {
        Self::with_consumer_capacities(bid_capacity, ask_capacity, C::default())
    }
}

impl<C: FillConsumer> OrderBook<C> {
    /// The consumer that fills are handed to.
    pub open spec fn sink(self) -> C {
        self.consumer
    }

    /// Both sides are consistent, and they do not cross.
    pub closed spec fn wf(self) -> bool {
        &&& self.resting.bids.wf()
        &&& self.resting.asks.wf()
        &&& self.resting.bids.side() == Side::Bid
        &&& self.resting.asks.side() == Side::Ask
        &&& uncrossed(self@.bids.levels, self@.asks.levels)
    }

    /// What is kept of one side, in the slots given by `nodes`.
    pub closed spec fn half(self, side: Side) -> half_book::HalfBook {
        match side {
            Side::Bid => self.resting.bids.ladder,
            Side::Ask => self.resting.asks.ladder,
        }
    }

    /// The linkable part of the slots that the orders of a side live in.
    pub closed spec fn nodes(self, side: Side) -> Seq<Node> {
        match side {
            Side::Bid => self.resting.bids.slab.nodes(),
            Side::Ask => self.resting.asks.slab.nodes(),
        }
    }

    /// What a consistent book keeps of each side fits together and agrees with
    /// what it shows: its levels have orders and know how many and how much, the
    /// orders of a level are linked both ways, the sorted prices are those of
    /// the levels, and the best price is the best of them.
    pub proof fn law_in_shape(self, side: Side)
        requires
            self.wf(),
        ensures
            in_shape(self.half(side), self.nodes(side)),
            self.half(side).side() == side,
            tells(self.half(side), self@.on(side).levels),
    {
        let half = match side {
            Side::Bid => self.resting.bids,
            Side::Ask => self.resting.asks,
        };
        half.ladder.law_in_shape(half.slab.nodes());
        lemma_tells_renamed(half.ladder, half.slot_levels(), half.name());
    }

    /// What a consistent book shows is in order.
    pub proof fn lemma_valid(self)
        requires
            self.wf(),
        ensures
            self@.valid(),
    {
        self.resting.bids.lemma_valid();
        self.resting.asks.lemma_valid();
    }

    /// A book with `slab_capacity` slots in all that hands its fills to
    /// `consumer`.
    pub fn with_consumer(slab_capacity: usize, consumer: C) -> (r: Self)
        requires
            0 < slab_capacity / 2 <= u32::MAX,
        ensures
            r.wf(),
            r@.bids == SideView::empty((slab_capacity / 2) as nat),
            r@.asks == SideView::empty((slab_capacity / 2) as nat),
            r.sink() == consumer,
    {
        let half = slab_capacity / 2;
        Self::with_consumer_capacities(half, half, consumer)
    }

    /// A book with the given number of slots for each side that hands its fills
    /// to `consumer`.
    pub fn with_consumer_capacities(
        bid_capacity: usize,
        ask_capacity: usize,
        consumer: C,
    ) -> (r: Self)
        requires
            0 < bid_capacity <= u32::MAX,
            0 < ask_capacity <= u32::MAX,
            bid_capacity < usize::MAX,
            ask_capacity < usize::MAX,
        ensures
            r.wf(),
            r@.bids == SideView::empty(bid_capacity as nat),
            r@.asks == SideView::empty(ask_capacity as nat),
            r.sink() == consumer,
    {
        let resting = Resting {
            bids: HalfBook::with_capacity(Side::Bid, bid_capacity),
            asks: HalfBook::with_capacity(Side::Ask, ask_capacity),
        };
        OrderBook { resting, consumer }
    }

    /// Sweep the side opposite to the aggressor's until `quantity` is used up,
    /// the side is empty, or its best price no longer crosses `price_limit`.
    /// Without a limit every price crosses.
    ///
    /// `OPP_IS_ASK` says which side that is: with `true` the aggressor is a bid
    /// and the asks are swept, with `false` the other way round.
    fn match_against<const OPP_IS_ASK: bool>(
        &mut self,
        price_limit: Option<Price>,
        quantity: u64,
    ) -> (r: BookResult<u64>)
        requires
            old(self).wf(),
        ensures
            final(self).wf(),
            in_shape(final(self).half(Side::Bid), final(self).nodes(Side::Bid)),
            in_shape(final(self).half(Side::Ask), final(self).nodes(Side::Ask)),
            ({
                let side = if OPP_IS_ASK {
                    Side::Bid
                } else {
                    Side::Ask
                };
                let s = old(self)@.taking(side, ticks(price_limit), quantity);
                &&& r == Ok::<u64, BookError>(s.left)
                &&& final(self)@ == old(self)@.taken(side, ticks(price_limit), quantity)
                &&& final(self)@.on(side) == old(self)@.on(side)
                &&& delivered(old(self).sink(), s.fills, final(self).sink())
            }),
    {
        let ghost this = *self;
        let remaining = if OPP_IS_ASK {
            proof {
                self.resting.asks.lemma_view();
                lemma_sweep_leaves(Side::Ask, self.resting.asks@.levels, ticks(price_limit), quantity);
            }
            self.resting.asks.take(&mut self.consumer, price_limit, quantity)
        } else {
            proof {
                self.resting.bids.lemma_view();
                lemma_sweep_leaves(Side::Bid, self.resting.bids@.levels, ticks(price_limit), quantity);
            }
            self.resting.bids.take(&mut self.consumer, price_limit, quantity)
        };
        proof {
            assert forall|p: u64, q: u64| #[trigger]
                self@.bids.levels.contains_key(p) && #[trigger] self@.asks.levels.contains_key(
                    q,
                ) implies p < q by {
                assert(this@.bids.levels.contains_key(p));
                assert(this@.asks.levels.contains_key(q));
            }
            self.law_in_shape(Side::Bid);
            self.law_in_shape(Side::Ask);
        }
        Ok(remaining)
    }

    /// Add a limit order: trade with the other side as far as `price` allows,
    /// then put what is left to rest. Gives the handle of the resting order, or
    /// nothing if nothing was left.
    ///
    /// If there is no slot for what is left, the trades still stand.
    pub fn add_limit_order(&mut self, side: Side, price: Price, quantity: u64) -> (r: BookResult<
        Option<OrderHandle>,
    >)
        requires
            old(self).wf(),
            old(self)@.on(side).free.len() > 0 ==> queue_total(
                lots_at(old(self)@.on(side).levels, price.0),
            ) + old(self)@.taking(side, Some(price.0), quantity).left <= u64::MAX,
        ensures
            final(self).wf(),
            uncrossed(final(self)@.bids.levels, final(self)@.asks.levels),
            old(self)@.limited(side, price.0, quantity, r, final(self)@),
            settled(
                old(self).sink(),
                old(self)@.taking(side, Some(price.0), quantity).fills,
                final(self).sink(),
            ),
    {
        proof {
            self.resting.asks.lemma_view();
            self.resting.bids.lemma_view();
            lemma_sweep_leaves(
                side.other(),
                self@.on(side.other()).levels,
                Some(price.0),
                quantity,
            );
        }
        let remaining = match side {
            Side::Bid => self.match_against::<true>(Some(price), quantity)?,
            Side::Ask => self.match_against::<false>(Some(price), quantity)?,
        };
        let handle = if remaining > 0 {
            match side {
                Side::Bid => {
                    let (idx, generation) = match self.resting.bids.alloc_and_rest(price, remaining) {
                        Ok(slot) => slot,
                        Err(e) => {
                            self.consumer.flush();
                            return Err(e);
                        },
                    };
                    Some(OrderHandle::new(Side::Bid, idx, generation))
                },
                Side::Ask => {
                    let (idx, generation) = match self.resting.asks.alloc_and_rest(price, remaining) {
                        Ok(slot) => slot,
                        Err(e) => {
                            self.consumer.flush();
                            return Err(e);
                        },
                    };
                    Some(OrderHandle::new(Side::Ask, idx, generation))
                },
            }
        } else {
            None
        };
        self.consumer.flush();
        Ok(handle)
    }

    /// Cancel a resting order.
    pub fn cancel_limit_order(&mut self, handle: OrderHandle) -> (r: BookResult<()>)
        requires
            old(self).wf(),
            old(self)@.on(handle.half()).accepts(handle),
        ensures
            final(self).wf(),
            final(self).sink() == old(self).sink(),
            ({
                let own = old(self)@.on(handle.half());
                match r {
                    Ok(_) => {
                        &&& holds(own.levels, handle)
                        &&& final(self)@ == old(self)@.put(handle.half(), own.cancelled(handle))
                    },
                    Err(e) => {
                        &&& e == BookError::OrderNotFound
                        &&& !holds(own.levels, handle)
                        &&& final(self)@ == old(self)@
                    },
                }
            }),
    {
        let ghost this = *self;
        let r = match handle.side() {
            Side::Bid => self.resting.bids.cancel(handle),
            Side::Ask => self.resting.asks.cancel(handle),
        };
        proof {
            assert forall|p: u64, q: u64| #[trigger]
                self@.bids.levels.contains_key(p) && #[trigger] self@.asks.levels.contains_key(
                    q,
                ) implies p < q by {
                assert(this@.bids.levels.contains_key(p));
                assert(this@.asks.levels.contains_key(q));
            }
        }
        r
    }

    /// Add a market order: trade with the other side at any price. Nothing is
    /// ever put to rest. A fill-or-kill order that cannot be filled completely
    /// does nothing at all.
    pub fn add_market_order(&mut self, side: Side, quantity: u64, mode: MarketOrderMode) -> (r:
        BookResult<MarketOrderResult>)
        requires
            old(self).wf(),
        ensures
            final(self).wf(),
            ({
                let s = old(self)@.taking(side, None, quantity);
                if mode == MarketOrderMode::FillOrKill && total(
                    old(self)@.on(side.other()).levels,
                ) < quantity {
                    &&& r == Ok::<MarketOrderResult, BookError>(
                        (MarketOrderResult { remaining: quantity }),
                    )
                    &&& final(self)@ == old(self)@
                    &&& settled(old(self).sink(), Seq::empty(), final(self).sink())
                } else {
                    &&& r == Ok::<MarketOrderResult, BookError>(
                        (MarketOrderResult { remaining: s.left }),
                    )
                    &&& final(self)@ == old(self)@.taken(side, None, quantity)
                    &&& settled(old(self).sink(), s.fills, final(self).sink())
                }
            }),
    {
        if mode == MarketOrderMode::FillOrKill {
            let available = match side {
                Side::Bid => self.resting.asks.available(),
                Side::Ask => self.resting.bids.available(),
            };
            if available < quantity as u128 {
                proof {
                    lemma_delivered_none::<OrderHandle, C>(self.sink());
                }
                self.consumer.flush();
                return Ok(MarketOrderResult { remaining: quantity });
            }
        }
        let remaining = match side {
            Side::Bid => self.match_against::<true>(None, quantity)?,
            Side::Ask => self.match_against::<false>(None, quantity)?,
        };
        self.consumer.flush();
        Ok(MarketOrderResult { remaining })
    }
}

/// Giving slots back makes handles to their orders stale, and no other handle.
proof fn lemma_given_back(before: SideView, gone: Seq<SlabIndex>, after: SideView)
    requires
        in_era(before.generations),
        before.generations.len() <= u32::MAX + 1,
        after.generations == aged(before.generations, gone),
        after.free == gone + before.free,
    ensures
        forall|h: OrderHandle| before.issued(h) && before.spare() > 0 ==> #[trigger] after.issued(h),
        after.spare() + 1 >= before.spare(),
{
    let n = before.spare();
    if n > 0 {
        lemma_margin(before.generations, GEN_MASK, n);
        assert forall|h: OrderHandle| before.issued(h) implies #[trigger] after.issued(h) by {
            lemma_concat_contains(gone, before.free, h.slot());
            assert(before.generations[h.slot().0 as int] + n <= GEN_MASK);
        }
        assert forall|k: int| 0 <= k < after.generations.len() implies #[trigger] after.generations[k]
            <= GEN_MASK && after.generations[k] + (n - 1) <= GEN_MASK by {
            assert(before.generations[k] + n <= GEN_MASK);
        }
        lemma_margin(after.generations, GEN_MASK, (n - 1) as nat);
    }
}

/// A cancelled order is gone for good: its handle rests no more, and the book
/// can still tell, so that cancelling it again reports that there is no such
/// order.
pub proof fn law_cancelled_is_stale(v: SideView, side: Side, h: OrderHandle)
    requires
        v.valid(side),
        holds(v.levels, h),
    ensures
        !holds(v.cancelled(h).levels, h),
        v.cancelled(h).accepts(h),
{
    lemma_holds_without(v.levels, h, h);
    let g = v.generations[h.slot().0 as int];
    assert(1 <= g <= GEN_MASK);
    assert(seq![h.slot()][0] == h.slot());
    assert(seq![h.slot()].contains(h.slot()));
    assert(v.cancelled(h).generations[h.slot().0 as int] == bumped(g));
}

/// An order that has been filled completely is gone for good: its handle rests
/// no more, and the book can still tell.
pub proof fn law_filled_is_stale(
    v: SideView,
    side: Side,
    limit: Option<u64>,
    quantity: u64,
    h: OrderHandle,
)
    requires
        v.valid(side),
        sweep(side, v.levels, limit, quantity).done().contains(h),
    ensures
        ({
            let after = v.swept(sweep(side, v.levels, limit, quantity));
            &&& !holds(after.levels, h)
            &&& after.accepts(h)
        }),
{
    let s = sweep(side, v.levels, limit, quantity);
    let gone = slots_of(s.done());
    assert(holds(v.levels, h) && !holds(s.levels, h)) by {
        law_filled_or_still_there(side, v.levels, limit, quantity);
    }
    let i = s.done().index_of(h);
    assert(gone[i] == h.slot());
    assert(gone.contains(h.slot()));
    let g = v.generations[h.slot().0 as int];
    assert(1 <= g <= GEN_MASK);
    assert(v.swept(s).generations[h.slot().0 as int] == bumped(g));
}

/// A slot that has been given back is the next one to be used, and the order
/// that then takes it gets a different handle.
pub proof fn law_cancel_reclaims_the_slot(v: SideView, side: Side, h: OrderHandle)
    requires
        v.valid(side),
        holds(v.levels, h),
    ensures
        v.cancelled(h).free.len() == v.free.len() + 1,
        v.cancelled(h).next_handle(side).slot() == h.slot(),
        v.cancelled(h).next_handle(side) != h,
{
    let after = v.cancelled(h);
    let g = v.generations[h.slot().0 as int];
    assert(1 <= g <= GEN_MASK);
    assert(seq![h.slot()][0] == h.slot());
    assert(seq![h.slot()].contains(h.slot()));
    assert(after.generations[h.slot().0 as int] == bumped(g));
    assert(after.free[0] == h.slot());
    OrderHandle::lemma_minted(side, h.slot(), bumped(g));
}

/// `states` are the books gone through while limit orders on `side`, given by
/// price and quantity, are added in order with the results `rs`.
pub open spec fn adds_through(
    states: Seq<BookView>,
    side: Side,
    orders: Seq<(u64, u64)>,
    rs: Seq<BookResult<Option<OrderHandle>>>,
) -> bool {
    &&& states.len() == orders.len() + 1
    &&& rs.len() == orders.len()
    &&& forall|i: int|
        0 <= i < orders.len() ==> states[i].limited(
            side,
            (#[trigger] orders[i]).0,
            orders[i].1,
            rs[i],
            states[i + 1],
        )
}

/// The slots of a new book are split evenly: each side takes exactly half as
/// many resting orders as there are slots, whatever rests on the other side.
/// Of limit orders on one side that do not cross, so many come to rest, and the
/// ones after that are refused.
pub proof fn law_each_side_takes_half_the_slots(
    slab_capacity: usize,
    states: Seq<BookView>,
    side: Side,
    orders: Seq<(u64, u64)>,
    rs: Seq<BookResult<Option<OrderHandle>>>,
)
    requires
        states[0].on(side) == SideView::empty((slab_capacity / 2) as nat),
        states[0].on(side.other()).levels.dom().finite(),
        adds_through(states, side, orders, rs),
        forall|i: int| 0 <= i < orders.len() ==> (#[trigger] orders[i]).1 > 0,
        forall|i: int, p: u64|
            0 <= i < orders.len() && #[trigger] states[0].on(side.other()).levels.contains_key(p)
                ==> !crosses(side.other(), Some((#[trigger] orders[i]).0), p),
    ensures
        forall|i: int|
            0 <= i < orders.len() && i < slab_capacity / 2 ==> (#[trigger] rs[i]) is Ok
                && rs[i]->Ok_0 is Some,
        forall|i: int|
            slab_capacity / 2 <= i < orders.len() ==> #[trigger] rs[i] == Err::<
                Option<OrderHandle>,
                BookError,
            >(BookError::SlabFull),
        forall|i: int|
            0 <= i < states.len() ==> (#[trigger] states[i]).on(side.other()) == states[0].on(
                side.other(),
            ),
{
    assert forall|i: int| 0 <= i < states.len() implies (#[trigger] states[i]).on(side.other())
        == states[0].on(side.other()) by {
        lemma_adds(states, side, orders, rs, i as nat);
    }
    assert forall|i: int| 0 <= i < orders.len() implies (if i < slab_capacity / 2 {
        (#[trigger] rs[i]) is Ok && rs[i]->Ok_0 is Some
    } else {
        rs[i] == Err::<Option<OrderHandle>, BookError>(BookError::SlabFull)
    }) by {
        lemma_adds(states, side, orders, rs, i as nat);
        let (price, quantity) = orders[i];
        assert(states[i].limited(side, orders[i].0, orders[i].1, rs[i], states[i + 1]));
        lemma_nothing_taken(states[i], side, price, quantity);
    }
}

/// Nothing is taken where nothing crosses.
proof fn lemma_nothing_taken(v: BookView, side: Side, price: u64, quantity: u64)
    requires
        v.on(side.other()).levels.dom().finite(),
        forall|p: u64| #[trigger]
            v.on(side.other()).levels.contains_key(p) ==> !crosses(side.other(), Some(price), p),
    ensures
        v.taking(side, Some(price), quantity).left == quantity,
        v.taken(side, Some(price), quantity) == v,
{
    let opp = v.on(side.other());
    let s = v.taking(side, Some(price), quantity);
    lemma_best_exists(side.other(), opp.levels.dom());
    if let Some(p) = best(side.other(), opp.levels.dom()) {
        assert(opp.levels.contains_key(p));
    }
    assert(slots_of(s.done()) =~= Seq::empty());
    assert(opp.swept(s) =~= opp);
    assert(v.taken(side, Some(price), quantity) =~= v);
}

/// How a book stands after the first `n` orders.
proof fn lemma_adds(
    states: Seq<BookView>,
    side: Side,
    orders: Seq<(u64, u64)>,
    rs: Seq<BookResult<Option<OrderHandle>>>,
    n: nat,
)
    requires
        states[0].on(side.other()).levels.dom().finite(),
        adds_through(states, side, orders, rs),
        forall|i: int| 0 <= i < orders.len() ==> (#[trigger] orders[i]).1 > 0,
        forall|i: int, p: u64|
            0 <= i < orders.len() && #[trigger] states[0].on(side.other()).levels.contains_key(p)
                ==> !crosses(side.other(), Some((#[trigger] orders[i]).0), p),
        n <= orders.len(),
    ensures
        states[n as int].on(side.other()) == states[0].on(side.other()),
        states[n as int].on(side).free.len() == (if n < states[0].on(side).free.len() {
            states[0].on(side).free.len() - n
        } else {
            0
        }),
    decreases n,
{
    if n > 0 {
        let i = n - 1;
        lemma_adds(states, side, orders, rs, i as nat);
        assert(states[i].limited(side, orders[i].0, orders[i].1, rs[i], states[i + 1]));
        lemma_nothing_taken(states[i], side, orders[i].0, orders[i].1);
    }
}

impl<C: FillConsumer + Default> OrderBook<C> {
    /// What a consistent book shows through the shared surface.
    proof fn lemma_shown(self)
        requires
            self.wf(),
        ensures
            self.depth().valid(),
            forall|h: OrderHandle| #[trigger] self.issued(h) ==> self.accepts(h),
            forall|h: OrderHandle| #[trigger] self.depth().has(h) ==> self.issued(h),
    {
        self.lemma_valid();
    }
}

impl<C: FillConsumer + Default> OrderBookApi for OrderBook<C> {
    type Handle = OrderHandle;

    open spec fn fits(slab_capacity: usize) -> bool {
        0 < slab_capacity / 2 <= u32::MAX
    }

    open spec fn made(slab_capacity: usize) -> Depth<OrderHandle> {
        Depth::empty((slab_capacity / 2) as nat, (slab_capacity / 2) as nat, false)
    }

    open spec fn wf(&self) -> bool {
        OrderBook::<C>::wf(*self)
    }

    open spec fn depth(&self) -> Depth<OrderHandle> {
        Depth {
            bids: self@.bids.levels,
            asks: self@.asks.levels,
            bid_room: self@.bids.free.len(),
            ask_room: self@.asks.free.len(),
            pooled: false,
        }
    }

    open spec fn accepts(&self, h: OrderHandle) -> bool {
        self@.on(h.half()).accepts(h)
    }

    open spec fn issued(&self, h: OrderHandle) -> bool {
        self@.on(h.half()).issued(h)
    }

    open spec fn spare(&self) -> nat {
        if self@.bids.spare() < self@.asks.spare() {
            self@.bids.spare()
        } else {
            self@.asks.spare()
        }
    }

    open spec fn lifetime() -> nat {
        (GEN_MASK - 1) as nat
    }

    fn new(slab_capacity: usize) -> (r: Self)
        ensures
            call_ensures(C::default, (), r.sink()),
    {
        let r: Self = OrderBook::new(slab_capacity);
        proof {
            r.lemma_shown();
            lemma_new_margin((slab_capacity / 2) as nat + 1);
        }
        r
    }

    fn add_limit(&mut self, side: Side, price: Price, qty: u64) -> (r: BookResult<
        Option<OrderHandle>,
    >)
        ensures
            settled(
                old(self).sink(),
                old(self)@.taking(side, Some(price.0), qty).fills,
                final(self).sink(),
            ),
    {
        let ghost this = *self;
        proof {
            self.lemma_valid();
        }
        let r = self.add_limit_order(side, price, qty);
        proof {
            let s = this@.taking(side, Some(price.0), qty);
            let opp = this@.on(side.other());
            let own = this@.on(side);
            lemma_given_back(opp, slots_of(s.done()), opp.swept(s));
            assert(this.depth().taking(side, Some(price.0), qty) == s);
            if let Ok(Some(h)) = r {
                assert(own.free.contains(own.free[0]));
                let g = own.generations[own.free[0].0 as int];
                assert(1 <= g <= GEN_MASK);
                OrderHandle::lemma_minted(side, own.free[0], g);
                assert(!holds(own.levels, h));
                if holds(s.levels, h) {
                    lemma_swept_held(side.other(), opp.levels, Some(price.0), qty, h);
                }
                let fewer = own.free.drop_first();
                assert forall|idx: SlabIndex| fewer.contains(idx) implies own.free.contains(
                    idx,
                ) by {
                    let i = fewer.index_of(idx);
                    assert(own.free[i + 1] == idx);
                }
            }
            assert(self.depth() =~= (match r {
                Ok(Some(h)) => this.depth().taken(side, Some(price.0), qty).rested(
                    side,
                    price.0,
                    h,
                    s.left,
                ),
                _ => this.depth().taken(side, Some(price.0), qty),
            }));
            assert forall|h: OrderHandle| this.issued(h) && this.spare() > 0 implies
                #[trigger] self.issued(h) by {
                assert(opp.issued(h) ==> opp.swept(s).issued(h));
            }
            if let Ok(Some(h)) = r {
                assert(!this.issued(h));
            }
            self.lemma_shown();
        }
        r
    }

    fn add_market(&mut self, side: Side, qty: u64, mode: MarketOrderMode) -> (r: BookResult<
        MarketOrderResult,
    >)
        ensures
            settled(
                old(self).sink(),
                if mode == MarketOrderMode::FillOrKill && total(
                    old(self)@.on(side.other()).levels,
                ) < qty {
                    Seq::empty()
                } else {
                    old(self)@.taking(side, None, qty).fills
                },
                final(self).sink(),
            ),
    {
        let ghost this = *self;
        proof {
            self.lemma_valid();
        }
        let r = self.add_market_order(side, qty, mode);
        proof {
            let s = this@.taking(side, None, qty);
            let opp = this@.on(side.other());
            lemma_given_back(opp, slots_of(s.done()), opp.swept(s));
            assert(this.depth().taking(side, None, qty) == s);
            if mode == MarketOrderMode::FillOrKill && total(opp.levels) < qty {
                assert(self.depth() =~= this.depth());
            } else {
                assert(self.depth() =~= this.depth().taken(side, None, qty));
            }
            assert forall|h: OrderHandle| this.issued(h) && this.spare() > 0 implies
                #[trigger] self.issued(h) by {
                assert(opp.issued(h) ==> opp.swept(s).issued(h));
            }
            self.lemma_shown();
        }
        r
    }

    fn cancel(&mut self, handle: OrderHandle) -> (r: BookResult<()>)
        ensures
            final(self).sink() == old(self).sink(),
    {
        let ghost this = *self;
        proof {
            self.lemma_valid();
        }
        let r = self.cancel_limit_order(handle);
        proof {
            let side = handle.half();
            let own = this@.on(side);
            let other = this@.on(side.other());
            lemma_given_back(own, seq![handle.slot()], own.cancelled(handle));
            if r is Ok {
                assert(self.depth() =~= this.depth().cancelled(handle));
            } else {
                assert(self.depth() =~= this.depth());
            }
            assert forall|h: OrderHandle| this.issued(h) && this.spare() > 0 implies
                #[trigger] self.issued(h) by {
                assert(own.issued(h) ==> own.cancelled(handle).issued(h));
            }
            self.lemma_shown();
        }
        r
    }
}

/// The margin of slots that are all in their first generation.
proof fn lemma_new_margin(n: nat)
    requires
        n > 0,
    ensures
        margin(Seq::new(n, |k: int| 1u32), GEN_MASK) == GEN_MASK - 1,
{
    let ones = Seq::new(n, |k: int| 1u32);
    let top = (GEN_MASK - 1) as nat;
    lemma_margin(ones, GEN_MASK, top);
    lemma_margin(ones, GEN_MASK, top + 1);
    assert(ones[0] == 1);
}

} // verus!
