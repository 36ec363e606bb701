//! Handles, slots and levels.

use vstd::prelude::*;

use crate::arena::{
    follows, in_range, leads, lemma_slots_total_frame, lemma_slots_total_push,
    lemma_slots_total_remove, Links, SlabIndex,
};
use crate::errors::BookResult;
use crate::hmap_book;
use crate::level::{lemma_appended, lemma_bypassed, PriceLevel};
use crate::orderbooks::{orderbook_2, orderbook_legacy};
use crate::types::Side;

verus! {

/// A handle of the engine with a slab per side has the side in its top bit, then
/// 31 bits of generation and 32 bits of slot, and gives each of them back.
pub proof fn law_sided_handle_holds_its_parts(
    side: Side,
    slot: SlabIndex,
    generation: u32,
    h: orderbook_2::OrderHandle,
    raw: u64,
    idx: SlabIndex,
    era: u32,
    half: Side,
)
    requires
        generation <= 0x7FFF_FFFF,
        call_ensures(orderbook_2::OrderHandle::new, (side, slot, generation), h),
        call_ensures(orderbook_2::OrderHandle::as_u64, (h,), raw),
        call_ensures(orderbook_2::OrderHandle::idx, (h,), idx),
        call_ensures(orderbook_2::OrderHandle::generation, (h,), era),
        call_ensures(orderbook_2::OrderHandle::side, (h,), half),
    ensures
        side is Bid ==> raw == generation * 0x1_0000_0000 + slot.0,
        side is Ask ==> raw == 0x8000_0000_0000_0000 + generation * 0x1_0000_0000 + slot.0,
        idx == slot,
        era == generation,
        half == side,
{
    orderbook_2::OrderHandle::lemma_minted(side, slot, generation);
}

/// Handles of the engine with a slab per side differ if they were made from
/// different parts.
pub proof fn law_sided_handles_differ(
    side: Side,
    slot: SlabIndex,
    generation: u32,
    h: orderbook_2::OrderHandle,
    other_side: Side,
    other_slot: SlabIndex,
    other_generation: u32,
    other: orderbook_2::OrderHandle,
)
    requires
        generation <= 0x7FFF_FFFF,
        other_generation <= 0x7FFF_FFFF,
        call_ensures(orderbook_2::OrderHandle::new, (side, slot, generation), h),
        call_ensures(
            orderbook_2::OrderHandle::new,
            (other_side, other_slot, other_generation),
            other,
        ),
        h == other,
    ensures
        side == other_side,
        slot == other_slot,
        generation == other_generation,
{
    orderbook_2::OrderHandle::lemma_minted(side, slot, generation);
    orderbook_2::OrderHandle::lemma_minted(other_side, other_slot, other_generation);
}

/// A handle of the engine with one slab has its generation in the upper 32 bits
/// and its slot in the lower ones, and gives both back.
pub proof fn law_handle_holds_its_parts(
    slot: SlabIndex,
    generation: u32,
    h: orderbook_legacy::OrderHandle,
    raw: u64,
    idx: SlabIndex,
    era: u32,
)
    requires
        call_ensures(orderbook_legacy::OrderHandle::new, (slot, generation), h),
        call_ensures(orderbook_legacy::OrderHandle::as_u64, (h,), raw),
        call_ensures(orderbook_legacy::OrderHandle::idx, (h,), idx),
        call_ensures(orderbook_legacy::OrderHandle::generation, (h,), era),
    ensures
        raw == generation * 0x1_0000_0000 + slot.0,
        idx == slot,
        era == generation,
{
    orderbook_legacy::OrderHandle::lemma_minted(slot, generation);
}

/// A new slab hands out its slots from 1 on, each of them once.
pub proof fn law_new_slabs_hand_out_every_slot(
    capacity: usize,
    a: orderbook_2::OrderSlab,
    b: orderbook_legacy::OrderSlab,
    c: hmap_book::OrderSlab,
    i: int,
)
    requires
        capacity <= u32::MAX,
        call_ensures(orderbook_2::OrderSlab::with_capacity, (capacity,), a),
        call_ensures(orderbook_legacy::OrderSlab::with_capacity, (capacity,), b),
        call_ensures(hmap_book::OrderSlab::with_capacity, (capacity,), c),
        0 <= i < capacity,
    ensures
        a.free_slots().len() == capacity,
        b.free_slots().len() == capacity,
        c.free_slots().len() == capacity,
        a.free_slots()[i].0 == i + 1,
        b.free_slots()[i].0 == i + 1,
        c.free_slots()[i].0 == i + 1,
        a.slots()[i + 1].generation == 1,
        b.slots()[i + 1].generation == 1,
{
}

/// In the engine with a slab per side, a slot that is given back is
/// the next one to be handed out, in the generation after the one it was in. No
/// other slot comes or goes.
pub proof fn law_sided_slot_comes_back(
    slab: &mut orderbook_2::OrderSlab,
    idx: SlabIndex,
    later: &mut orderbook_2::OrderSlab,
    r: BookResult<(SlabIndex, u32)>,
)
    requires
        old(slab).valid(),
        0 < idx.0 < old(slab).slots().len(),
        call_ensures(orderbook_2::OrderSlab::free, (slab, idx), ()),
        *old(later) == *final(slab),
        call_ensures(orderbook_2::OrderSlab::alloc_slot, (later,), r),
    ensures
        r is Ok,
        r->Ok_0.0 == idx,
        ({
            let before = old(slab).slots()[idx.0 as int].generation;
            let after = r->Ok_0.1;
            &&& after != before
            &&& after == (if before == 0x7FFF_FFFF {
                1
            } else {
                before + 1
            })
        }),
        final(later).free_slots() == old(slab).free_slots(),
        forall|n: int|
            0 <= n < old(slab).slots().len() && n != idx.0 ==> #[trigger] final(later).slots()[n]
                == old(slab).slots()[n],
        final(later).slots()[idx.0 as int].price == old(slab).slots()[idx.0 as int].price,
        final(later).slots()[idx.0 as int].quantity == old(slab).slots()[idx.0 as int].quantity,
{
    old(slab).lemma_valid();
    assert(final(slab).free_slots().drop_first() =~= old(slab).free_slots());
    let before = old(slab).slots()[idx.0 as int].generation;
    assert(1 <= before <= 0x7FFF_FFFF);
}

/// In the engine with one slab, a slot that is given back is
/// the next one to be handed out, in the generation after the one it was in. No
/// other slot comes or goes.
pub proof fn law_shared_slot_comes_back(
    slab: &mut orderbook_legacy::OrderSlab,
    idx: SlabIndex,
    later: &mut orderbook_legacy::OrderSlab,
    r: BookResult<(SlabIndex, u32)>,
)
    requires
        old(slab).valid(),
        0 < idx.0 < old(slab).slots().len(),
        call_ensures(orderbook_legacy::OrderSlab::free, (slab, idx), ()),
        *old(later) == *final(slab),
        call_ensures(orderbook_legacy::OrderSlab::alloc_slot, (later,), r),
    ensures
        r is Ok,
        r->Ok_0.0 == idx,
        ({
            let before = old(slab).slots()[idx.0 as int].generation;
            let after = r->Ok_0.1;
            &&& after != before
            &&& after == (if before == u32::MAX {
                1
            } else {
                before + 1
            })
        }),
        final(later).free_slots() == old(slab).free_slots(),
        forall|n: int|
            0 <= n < old(slab).slots().len() && n != idx.0 ==> #[trigger] final(later).slots()[n]
                == old(slab).slots()[n],
        final(later).slots()[idx.0 as int].price == old(slab).slots()[idx.0 as int].price,
        final(later).slots()[idx.0 as int].quantity == old(slab).slots()[idx.0 as int].quantity,
{
    old(slab).lemma_valid();
    assert(final(slab).free_slots().drop_first() =~= old(slab).free_slots());
    let before = old(slab).slots()[idx.0 as int].generation;
}

/// In the engine in which callers name the orders, a slot that is given back is
/// the next one to be handed out. No
/// other slot comes or goes.
pub proof fn law_indexed_slot_comes_back(
    slab: &mut hmap_book::OrderSlab,
    idx: SlabIndex,
    later: &mut hmap_book::OrderSlab,
    r: BookResult<SlabIndex>,
)
    requires
        old(slab).valid(),
        0 < idx.0 < old(slab).slots().len(),
        call_ensures(hmap_book::OrderSlab::free, (slab, idx), ()),
        *old(later) == *final(slab),
        call_ensures(hmap_book::OrderSlab::alloc_slot, (later,), r),
    ensures
        r is Ok,
        r->Ok_0 == idx,
        final(later).free_slots() == old(slab).free_slots(),
        forall|n: int|
            0 <= n < old(slab).slots().len() && n != idx.0 ==> #[trigger] final(later).slots()[n]
                == old(slab).slots()[n],
        final(later).slots()[idx.0 as int].price == old(slab).slots()[idx.0 as int].price,
        final(later).slots()[idx.0 as int].quantity == old(slab).slots()[idx.0 as int].quantity,
{
    old(slab).lemma_valid();
    assert(final(slab).free_slots().drop_first() =~= old(slab).free_slots());
}

/// An order that joins a level stands at its back, and adds itself and its
/// quantity to what the level counts.
pub proof fn law_order_joins_the_back_of_its_level<A: Links>(
    level: &mut PriceLevel,
    idx: SlabIndex,
    slab: &mut A,
)
    requires
        old(level).wf(old(slab).nodes()),
        in_range(old(slab).nodes(), idx),
        !old(level).slots@.contains(idx),
        old(slab).nodes()[idx.0 as int].next is None,
        call_ensures(
            PriceLevel::push_order_to_l2_level_and_update_slab_links::<A>,
            (level, idx, slab),
            (),
        ),
    ensures
        final(level).price == old(level).price,
        final(level).tail == Some(idx),
        final(level).head == (if old(level).head is None {
            Some(idx)
        } else {
            old(level).head
        }),
        final(level).order_count == old(level).order_count + 1,
        final(level).quantity == old(level).quantity + old(slab).nodes()[idx.0 as int].quantity,
        final(slab).nodes()[idx.0 as int].prev == old(level).tail,
        final(slab).nodes()[idx.0 as int].next is None,
        old(level).tail matches Some(t) ==> final(slab).nodes()[t.0 as int].next == Some(idx),
{
    let (nodes, after, q) = (old(slab).nodes(), final(slab).nodes(), old(level).slots@);
    lemma_appended(nodes, q, idx);
    lemma_slots_total_push(after, q, idx);
    assert forall|i: int| 0 <= i < q.len() implies nodes[(#[trigger] q[i]).0 as int].quantity
        == after[q[i].0 as int].quantity by {
        assert(in_range(nodes, q[i]));
    }
    lemma_slots_total_frame(nodes, after, q);
    let more = q.push(idx);
    assert(leads(after, more, q.len() as int, None));
    assert(follows(after, more, q.len() as int));
    if q.len() > 0 {
        assert(leads(after, more, q.len() - 1, None));
        assert(more[q.len() as int] == idx && more[q.len() - 1] == q[q.len() - 1]);
        assert(more[0] == q[0]);
    }
}

/// An order that leaves a level takes itself and its quantity off what the level
/// counts, and its neighbours then stand next to each other.
pub proof fn law_order_leaves_its_level<A: Links>(
    level: &mut PriceLevel,
    idx: SlabIndex,
    slab: &mut A,
)
    requires
        old(level).wf(old(slab).nodes()),
        old(level).slots@.contains(idx),
        call_ensures(PriceLevel::remove::<A>, (level, idx, slab), ()),
    ensures
        final(level).price == old(level).price,
        final(level).order_count + 1 == old(level).order_count,
        final(level).quantity + old(slab).nodes()[idx.0 as int].quantity == old(level).quantity,
        ({
            let node = old(slab).nodes()[idx.0 as int];
            &&& match node.prev {
                Some(p) => final(slab).nodes()[p.0 as int].next == node.next,
                None => final(level).head == node.next,
            }
            &&& match node.next {
                Some(n) => final(slab).nodes()[n.0 as int].prev == node.prev,
                None => final(level).tail == node.prev,
            }
        }),
{
    let (nodes, after, q) = (old(slab).nodes(), final(slab).nodes(), old(level).slots@);
    let pos = q.index_of(idx);
    let fewer = q.remove(pos);
    lemma_bypassed(nodes, q, pos);
    lemma_slots_total_remove(nodes, q, pos);
    assert forall|i: int| 0 <= i < fewer.len() implies nodes[(#[trigger] fewer[i]).0 as int].quantity
        == after[fewer[i].0 as int].quantity by {
        let j = if i < pos {
            i
        } else {
            i + 1
        };
        assert(fewer[i] == q[j]);
        assert(in_range(nodes, q[j]));
    }
    lemma_slots_total_frame(nodes, after, fewer);
    assert(leads(nodes, q, pos, None));
    assert(follows(nodes, q, pos));
    if pos > 0 {
        assert(fewer[pos - 1] == q[pos - 1]);
        assert(leads(after, fewer, pos - 1, None));
    }
    if pos < q.len() - 1 {
        assert(fewer[pos] == q[pos + 1]);
        assert(follows(after, fewer, pos));
    }
}

} // verus!
