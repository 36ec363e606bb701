//! The engines one by one, and what holds of all of them.

use calvera_books::api::OrderBookApi;
use calvera_books::arena::SlabIndex;
use calvera_books::errors::BookError;
use calvera_books::hmap_book;
use calvera_books::hmap_book::OrderId;
use calvera_books::level::PriceLevel;
use calvera_books::orderbook;
use calvera_books::orderbook_2;
use calvera_books::types::{MarketOrderMode, MarketOrderResult, Price, Side, SlabAllocator};
use calvera_books::u64_map::U64Mixer;
use calvera_books::workloads::{mixed_workload_ops, Harness, Op};

type V1 = orderbook::OrderBook<orderbook::VecConsumer>;
type V2 = orderbook_2::OrderBook<orderbook_2::VecConsumer>;
type ById = hmap_book::OrderBook<hmap_book::VecConsumer>;

const IOC: MarketOrderMode = MarketOrderMode::ImmediateOrCancel;
const FOK: MarketOrderMode = MarketOrderMode::FillOrKill;

fn fills_v2(book: &V2) -> Vec<(u64, u64)> {
    book.consumer
        .fills
        .iter()
        .map(|f| (f.resting_id.as_u64(), f.quantity))
        .collect()
}

fn fills_by_id(book: &ById) -> Vec<(u64, u64)> {
    book.consumer
        .fills
        .iter()
        .map(|f| (f.resting_id.0, f.quantity))
        .collect()
}

fn rest<B: OrderBookApi>(book: &mut B, side: Side, price: u64, qty: u64) -> B::Handle {
    book.add_limit(side, Price(price), qty)
        .expect("there is room")
        .expect("something rests")
}

fn market<B: OrderBookApi>(book: &mut B, side: Side, qty: u64, mode: MarketOrderMode) -> u64 {
    book.add_market(side, qty, mode).unwrap().remaining
}

#[test]
fn handle_packs_side_generation_and_slot() {
    let h = orderbook_2::OrderHandle::new(Side::Ask, SlabIndex::new(7), 0x7FFF_FFFF);
    assert_eq!(h.as_u64(), 0xFFFF_FFFF_0000_0007);
    assert_eq!(h.side(), Side::Ask);
    assert_eq!(h.generation(), 0x7FFF_FFFF);
    assert_eq!(h.idx(), SlabIndex::new(7));
    let h = orderbook_2::OrderHandle::new(Side::Bid, SlabIndex::new(u32::MAX), 1);
    assert_eq!(h.as_u64(), 0x0000_0001_FFFF_FFFF);
    assert_eq!(h.side(), Side::Bid);
    assert_eq!(h.generation(), 1);
    assert_eq!(h.idx().as_usize(), u32::MAX as usize);
}

#[test]
fn shared_slab_handle_packs_generation_and_slot() {
    let h = orderbook::OrderHandle::new(SlabIndex::new(9), 0xFFFF_FFFE);
    assert_eq!(h.as_u64(), 0xFFFF_FFFE_0000_0009);
    assert_eq!(h.generation(), 0xFFFF_FFFE);
    assert_eq!(h.idx(), SlabIndex::new(9));
}

#[test]
fn generations_wrap_round_past_zero() {
    let mut slab = orderbook_2::OrderSlab::with_capacity(2);
    let (idx, generation) = slab.alloc_slot().unwrap();
    assert_eq!((idx, generation), (SlabIndex::new(1), 1));
    slab.get_mut(idx).generation = 0x7FFF_FFFF;
    slab.bump_generation(idx);
    assert_eq!(slab.get(idx).generation, 1);
    slab.bump_generation(idx);
    assert_eq!(slab.get(idx).generation, 2);

    let mut slab = orderbook::OrderSlab::with_capacity(2);
    let (idx, _) = slab.alloc_slot().unwrap();
    slab.get_mut(idx).generation = u32::MAX;
    slab.bump_generation(idx);
    assert_eq!(slab.get(idx).generation, 1);
    slab.get_mut(idx).generation = 0x7FFF_FFFF;
    slab.bump_generation(idx);
    assert_eq!(slab.get(idx).generation, 0x8000_0000);
}

#[test]
fn freed_slot_is_the_next_to_be_used() {
    let mut slab = orderbook::OrderSlab::with_capacity(3);
    let (a, _) = slab.alloc_slot().unwrap();
    let (b, _) = slab.alloc_slot().unwrap();
    slab.free(a);
    slab.free(b);
    assert_eq!(slab.alloc_slot().unwrap(), (b, 2));
    assert_eq!(slab.alloc_slot().unwrap(), (a, 2));
    assert_eq!(slab.alloc_slot().unwrap(), (SlabIndex::new(3), 1));
    assert_eq!(slab.alloc_slot(), Err(BookError::SlabFull));
    assert_eq!(slab.capacity(), 3);
}

#[test]
fn slab_by_id_hands_out_slots_in_order() {
    let mut slab = hmap_book::OrderSlab::with_capacity(2);
    assert_eq!(slab.capacity(), 2);
    let a = slab.alloc_slot().unwrap();
    slab.get_mut(a).order_id = OrderId(5);
    assert_eq!(slab.get(a).order_id, OrderId(5));
    assert_eq!(slab.alloc_slot(), Ok(SlabIndex::new(2)));
    assert_eq!(slab.alloc_slot(), Err(BookError::SlabFull));
    slab.free(a);
    assert_eq!(slab.alloc_slot(), Ok(a));
}

#[test]
fn slab_on_given_storage_never_outgrows_it() {
    let mut storage = Vec::with_capacity(4);
    let before = storage.as_ptr();
    storage.clear();
    let slab = orderbook::OrderSlab::with_storage(storage, 3);
    assert_eq!(slab.capacity(), 3);
    let mut book = orderbook::OrderBook::with_slab(slab, orderbook::VecConsumer::default());
    for price in 1..=3 {
        assert!(book.add_limit_order(Side::Bid, Price(price), 1).unwrap().is_some());
    }
    assert_eq!(
        book.add_limit_order(Side::Bid, Price(4), 1),
        Err(BookError::SlabFull)
    );
    let (slab, consumer) = book.into_parts();
    assert!(consumer.fills.is_empty());
    let storage = slab.into_storage();
    assert_eq!(storage.len(), 4);
    assert_eq!(storage.as_ptr(), before);
}

#[test]
fn storage_bytes_count_slot_zero() {
    assert_eq!(orderbook::OrderSlab::storage_bytes(7, 32), Ok(256));
    assert_eq!(
        orderbook::OrderSlab::storage_bytes(usize::MAX - 1, 2),
        Err(BookError::UnsupportedAllocator)
    );
}

#[test]
fn huge_pages_are_supported_where_they_are_mapped() {
    let system = SlabAllocator::System;
    assert!(orderbook::OrderSlab::with_capacity_in(8, system, None).is_ok());
    assert!(V1::new_in(8, system, None).is_ok());
    for alloc in [SlabAllocator::MadvHugepage, SlabAllocator::Hugetlb] {
        assert!(matches!(
            orderbook::OrderSlab::with_capacity_in(8, alloc, None),
            Err(BookError::UnsupportedAllocator)
        ));
        assert!(matches!(
            V1::new_in(8, alloc, None),
            Err(BookError::UnsupportedAllocator)
        ));
        // Any storage will do for the library.
        let storage = Vec::with_capacity(3);
        let at = storage.as_ptr();
        let slab = orderbook::OrderSlab::with_capacity_in(2, alloc, Some(storage)).unwrap();
        assert_eq!(slab.capacity(), 2);
        assert_eq!(slab.into_storage().as_ptr(), at);
        let mut book = V1::new_in(2, alloc, Some(Vec::with_capacity(3))).unwrap();
        rest(&mut book, Side::Bid, 100, 1);
        rest(&mut book, Side::Ask, 101, 1);
        assert_eq!(
            book.add_limit_order(Side::Bid, Price(99), 1),
            Err(BookError::SlabFull)
        );
        // Left to itself, the library either has huge pages or says that it
        // does not support them.
        assert!(matches!(
            V1::new_with_alloc(8, alloc),
            Ok(_) | Err(BookError::UnsupportedAllocator)
        ));
    }
}

#[test]
fn price_level_links_and_unlinks() {
    let mut slab = orderbook_2::OrderSlab::with_capacity(3);
    let mut level = PriceLevel::new(Price(100));
    assert!(level.is_empty());
    let mut slots = Vec::new();
    for quantity in [4, 5, 6] {
        let (idx, _) = slab.alloc_slot().unwrap();
        let slot = slab.get_mut(idx);
        slot.price = Price(100);
        slot.quantity = quantity;
        slot.prev = None;
        slot.next = None;
        level.push_order_to_l2_level_and_update_slab_links(idx, &mut slab);
        slots.push(idx);
    }
    assert_eq!((level.quantity, level.order_count), (15, 3));
    assert_eq!((level.head, level.tail), (Some(slots[0]), Some(slots[2])));
    level.remove(slots[1], &mut slab);
    assert_eq!((level.quantity, level.order_count), (10, 2));
    assert_eq!(slab.get(slots[0]).next, Some(slots[2]));
    assert_eq!(slab.get(slots[2]).prev, Some(slots[0]));
    level.remove(slots[0], &mut slab);
    assert_eq!((level.head, level.tail), (Some(slots[2]), Some(slots[2])));
    level.remove(slots[2], &mut slab);
    assert!(level.is_empty());
    assert_eq!((level.quantity, level.order_count), (0, 0));
}

#[test]
fn result_splits_the_request() {
    let r = MarketOrderResult { remaining: 3 };
    assert_eq!(r.filled(10), 7);
    assert!(r.cancelled());
    let r = MarketOrderResult { remaining: 0 };
    assert_eq!(r.filled(10), 10);
    assert!(!r.cancelled());
}

fn best_price_goes_down_the_ladder<B: OrderBookApi>() {
    let mut book = B::new(32);
    for price in [103, 101, 102] {
        rest(&mut book, Side::Ask, price, 1);
    }
    for price in [98, 100, 99] {
        rest(&mut book, Side::Bid, price, 1);
    }
    // The limit only lets the best level through each time.
    for (limit, left) in [(100, true), (101, false), (101, true), (102, false)] {
        let r = book.add_limit(Side::Bid, Price(limit), 1).unwrap();
        assert_eq!(r.is_some(), left);
        if let Some(h) = r {
            book.cancel(h).unwrap();
        }
    }
    for (limit, left) in [(101, true), (100, false), (100, true), (99, false)] {
        let r = book.add_limit(Side::Ask, Price(limit), 1).unwrap();
        assert_eq!(r.is_some(), left);
        if let Some(h) = r {
            book.cancel(h).unwrap();
        }
    }
    assert_eq!(market(&mut book, Side::Bid, 5, IOC), 4);
    assert_eq!(market(&mut book, Side::Ask, 5, IOC), 4);
}

#[test]
fn v1_best_price_goes_down_the_ladder() {
    best_price_goes_down_the_ladder::<V1>();
}

#[test]
fn v2_best_price_goes_down_the_ladder() {
    best_price_goes_down_the_ladder::<V2>();
}

fn quantity_is_conserved<B: OrderBookApi>() {
    let mut book = B::new(32);
    for (price, qty) in [(101, 4), (102, 5), (103, 6)] {
        rest(&mut book, Side::Ask, price, qty);
    }
    assert_eq!(market(&mut book, Side::Bid, 6, FOK), 0);
    assert_eq!(market(&mut book, Side::Bid, 10, FOK), 10);
    assert_eq!(market(&mut book, Side::Bid, 10, IOC), 1);
    assert_eq!(market(&mut book, Side::Bid, 1, IOC), 1);
    assert_eq!(market(&mut book, Side::Bid, 0, FOK), 0);
}

#[test]
fn v1_quantity_is_conserved() {
    quantity_is_conserved::<V1>();
}

#[test]
fn v2_quantity_is_conserved() {
    quantity_is_conserved::<V2>();
}

fn fill_or_kill_counts_past_64_bits<B: OrderBookApi>() {
    let mut book = B::new(32);
    for price in 1..=3 {
        rest(&mut book, Side::Ask, price, u64::MAX);
    }
    assert_eq!(market(&mut book, Side::Bid, u64::MAX, FOK), 0);
    assert_eq!(market(&mut book, Side::Bid, u64::MAX, IOC), 0);
    assert_eq!(market(&mut book, Side::Bid, u64::MAX, FOK), 0);
    assert_eq!(market(&mut book, Side::Bid, 1, FOK), 1);
}

#[test]
fn v1_fill_or_kill_counts_past_64_bits() {
    fill_or_kill_counts_past_64_bits::<V1>();
}

#[test]
fn v2_fill_or_kill_counts_past_64_bits() {
    fill_or_kill_counts_past_64_bits::<V2>();
}

fn nothing_rests_of_nothing<B: OrderBookApi>() {
    let mut book = B::new(4);
    assert!(matches!(book.add_limit(Side::Bid, Price(100), 0), Ok(None)));
    assert_eq!(market(&mut book, Side::Ask, 1, IOC), 1);
}

#[test]
fn v1_nothing_rests_of_nothing() {
    nothing_rests_of_nothing::<V1>();
}

#[test]
fn v2_nothing_rests_of_nothing() {
    nothing_rests_of_nothing::<V2>();
}

fn cancelled_order_is_stale<B: OrderBookApi>() {
    let mut book = B::new(4);
    let a = rest(&mut book, Side::Bid, 100, 1);
    assert!(book.cancel(a).is_ok());
    assert!(matches!(book.cancel(a), Err(BookError::OrderNotFound)));
    let b = rest(&mut book, Side::Bid, 100, 1);
    assert!(matches!(book.cancel(a), Err(BookError::OrderNotFound)));
    assert_eq!(market(&mut book, Side::Ask, 1, FOK), 0);
    assert!(matches!(book.cancel(b), Err(BookError::OrderNotFound)));
}

#[test]
fn v1_cancelled_order_is_stale() {
    cancelled_order_is_stale::<V1>();
}

#[test]
fn v2_cancelled_order_is_stale() {
    cancelled_order_is_stale::<V2>();
}

#[test]
fn v2_trades_stand_when_the_rest_finds_no_slot() {
    let mut book = V2::with_capacities(1, 2);
    let ask = rest(&mut book, Side::Ask, 101, 2);
    rest(&mut book, Side::Bid, 100, 1);
    assert_eq!(
        book.add_limit_order(Side::Bid, Price(101), 5),
        Err(BookError::SlabFull)
    );
    assert_eq!(fills_v2(&book), vec![(ask.as_u64(), 2)]);
    assert_eq!(book.cancel_limit_order(ask), Err(BookError::OrderNotFound));
    assert_eq!(market(&mut book, Side::Ask, 2, IOC), 1);
}

#[test]
fn v1_trade_frees_the_slot_that_the_rest_takes() {
    let mut book = V1::new(1);
    let ask = rest(&mut book, Side::Ask, 101, 2);
    let bid = book
        .add_limit_order(Side::Bid, Price(101), 5)
        .unwrap()
        .expect("three are left");
    assert_eq!(bid.idx(), ask.idx());
    assert_eq!(bid.generation(), ask.generation() + 1);
    assert_eq!(book.consumer.fills.len(), 1);
    assert_eq!(market(&mut book, Side::Ask, 4, IOC), 1);
}

#[test]
fn orders_by_id_match_and_cancel() {
    let mut book = ById::new(8);
    book.add_limit_order(OrderId(1), Side::Ask, Price(101), 2).unwrap();
    book.add_limit_order(OrderId(2), Side::Ask, Price(100), 3).unwrap();
    book.add_limit_order(OrderId(3), Side::Ask, Price(100), 4).unwrap();
    book.add_limit_order(OrderId(9), Side::Bid, Price(101), 8).unwrap();
    assert_eq!(fills_by_id(&book), vec![(2, 3), (3, 4), (1, 1)]);
    assert_eq!(
        book.cancel_limit_order(OrderId(2)),
        Err(BookError::OrderNotFound)
    );
    assert_eq!(
        book.cancel_limit_order(OrderId(9)),
        Err(BookError::OrderNotFound)
    );
    assert_eq!(book.cancel_limit_order(OrderId(1)), Ok(()));
    assert_eq!(
        book.cancel_limit_order(OrderId(1)),
        Err(BookError::OrderNotFound)
    );
    let r = book.add_market_order(OrderId(10), Side::Bid, 1, IOC).unwrap();
    assert_eq!(r.remaining, 1);
}

#[test]
fn orders_by_id_market_modes() {
    let mut book = ById::new(8);
    book.add_limit_order(OrderId(1), Side::Bid, Price(100), 2).unwrap();
    book.add_limit_order(OrderId(2), Side::Bid, Price(99), 2).unwrap();
    let r = book.add_market_order(OrderId(3), Side::Ask, 5, FOK).unwrap();
    assert_eq!(r, MarketOrderResult { remaining: 5 });
    assert!(book.consumer.fills.is_empty());
    let r = book.add_market_order(OrderId(4), Side::Ask, 3, FOK).unwrap();
    assert_eq!(r, MarketOrderResult { remaining: 0 });
    let r = book.add_market_order(OrderId(5), Side::Ask, 3, IOC).unwrap();
    assert_eq!(r, MarketOrderResult { remaining: 2 });
    assert_eq!(fills_by_id(&book), vec![(1, 2), (2, 1), (2, 1)]);
}

#[test]
fn later_order_takes_over_an_id() {
    let mut book = ById::new(4);
    book.add_limit_order(OrderId(7), Side::Bid, Price(100), 1).unwrap();
    book.add_limit_order(OrderId(7), Side::Bid, Price(99), 2).unwrap();
    assert_eq!(book.cancel_limit_order(OrderId(7)), Ok(()));
    assert_eq!(
        book.cancel_limit_order(OrderId(7)),
        Err(BookError::OrderNotFound)
    );
    let r = book.add_market_order(OrderId(8), Side::Ask, 9, IOC).unwrap();
    assert_eq!(r.remaining, 8);
}

#[test]
fn orders_by_id_run_out_of_slots() {
    let mut book = ById::new(1);
    book.add_limit_order(OrderId(1), Side::Ask, Price(100), 1).unwrap();
    assert_eq!(
        book.add_limit_order(OrderId(2), Side::Ask, Price(101), 1),
        Err(BookError::SlabFull)
    );
    assert_eq!(
        book.cancel_limit_order(OrderId(2)),
        Err(BookError::OrderNotFound)
    );
    book.add_limit_order(OrderId(3), Side::Bid, Price(100), 2).unwrap();
    assert_eq!(book.cancel_limit_order(OrderId(3)), Ok(()));
}

/// Counts flushes and the fills since the last one.
#[derive(Default)]
struct Batches {
    pending: u64,
    committed: Vec<u64>,
}

impl Batches {
    fn take(&mut self, quantity: u64) {
        self.pending += quantity;
    }

    fn commit(&mut self) {
        self.committed.push(self.pending);
        self.pending = 0;
    }
}

impl orderbook_2::FillConsumer for Batches {
    fn on_fill(&mut self, fill: orderbook_2::Fill) {
        self.take(fill.quantity);
    }

    fn flush(&mut self) {
        self.commit();
    }
}

impl orderbook::FillConsumer for Batches {
    fn on_fill(&mut self, fill: orderbook::Fill) {
        self.take(fill.quantity);
    }

    fn flush(&mut self) {
        self.commit();
    }
}

impl hmap_book::FillConsumer for Batches {
    fn on_fill(&mut self, fill: hmap_book::Fill) {
        self.take(fill.quantity);
    }

    fn flush(&mut self) {
        self.commit();
    }
}

/// Two asks; a bid that takes one and part of the other; a killed order; one
/// that takes the rest and more.
fn trade<B: OrderBookApi>(book: &mut B) {
    book.add_limit(Side::Ask, Price(100), 2).unwrap();
    book.add_limit(Side::Ask, Price(101), 3).unwrap();
    book.add_limit(Side::Bid, Price(101), 4).unwrap();
    assert_eq!(market(book, Side::Bid, 2, FOK), 2);
    assert_eq!(market(book, Side::Bid, 2, IOC), 1);
}

#[test]
fn v2_flush_ends_every_order() {
    let mut book = orderbook_2::OrderBook::<Batches>::with_capacities(1, 2);
    trade(&mut book);
    assert_eq!(book.consumer.committed, vec![0, 0, 4, 0, 1]);
    // Nothing happens on a cancel.
    let a = book.add_limit_order(Side::Ask, Price(101), 3).unwrap().unwrap();
    book.cancel_limit_order(a).unwrap();
    assert_eq!(book.consumer.committed.len(), 6);
    // What is left of an order is refused after it has traded.
    book.add_limit_order(Side::Bid, Price(99), 1).unwrap();
    book.add_limit_order(Side::Ask, Price(101), 3).unwrap();
    assert!(book.add_limit_order(Side::Bid, Price(101), 5).is_err());
    assert_eq!(book.consumer.committed[6..], [0, 0, 3]);
    assert_eq!(book.consumer.pending, 0);
}

#[test]
fn v1_flush_ends_every_order() {
    let mut book = orderbook::OrderBook::<Batches>::new(2);
    trade(&mut book);
    assert_eq!(book.consumer.committed, vec![0, 0, 4, 0, 1]);
    rest(&mut book, Side::Ask, 101, 3);
    rest(&mut book, Side::Ask, 102, 3);
    // Part of the first ask is taken, so no slot is free for what is refused.
    assert!(book.add_limit_order(Side::Bid, Price(101), 2).unwrap().is_none());
    assert!(book.add_limit_order(Side::Ask, Price(103), 1).is_err());
    assert_eq!(book.consumer.committed[5..], [0, 0, 2, 0]);
    assert_eq!(book.consumer.pending, 0);
}

#[test]
fn orders_by_id_flush_ends_every_order() {
    let mut book = hmap_book::OrderBook::<Batches>::new(2);
    book.add_limit_order(OrderId(1), Side::Ask, Price(100), 2).unwrap();
    book.add_limit_order(OrderId(2), Side::Ask, Price(101), 3).unwrap();
    book.add_limit_order(OrderId(3), Side::Bid, Price(101), 4).unwrap();
    book.add_market_order(OrderId(4), Side::Bid, 2, FOK).unwrap();
    book.add_market_order(OrderId(5), Side::Bid, 2, IOC).unwrap();
    assert_eq!(book.consumer.committed, vec![0, 0, 4, 0, 1]);
    book.add_limit_order(OrderId(6), Side::Ask, Price(101), 3).unwrap();
    book.add_limit_order(OrderId(7), Side::Ask, Price(102), 3).unwrap();
    assert!(book.add_limit_order(OrderId(8), Side::Ask, Price(103), 1).is_err());
    assert_eq!(book.consumer.committed[5..], [0, 0, 0]);
    assert_eq!(book.consumer.pending, 0);
}

#[test]
fn fills_reach_the_consumer_through_the_shared_surface() {
    let mut a = V1::new_with_alloc(8, SlabAllocator::System).unwrap();
    let mut b = V2::new_with_alloc(8, SlabAllocator::System).unwrap();
    assert!(a.consumer.fills.is_empty() && b.consumer.fills.is_empty());
    trade(&mut a);
    trade(&mut b);
    let fills_a: Vec<u64> = a.consumer.fills.iter().map(|f| f.quantity).collect();
    let fills_b: Vec<u64> = b.consumer.fills.iter().map(|f| f.quantity).collect();
    assert_eq!(fills_a, vec![2, 2, 1]);
    assert_eq!(fills_b, fills_a);
}

#[test]
fn each_side_takes_half_the_slots() {
    for side in [Side::Bid, Side::Ask] {
        let mut book = V2::new(9);
        let (mine, theirs, other) = match side {
            Side::Bid => (99, 101, Side::Ask),
            Side::Ask => (101, 99, Side::Bid),
        };
        for _ in 0..3 {
            rest(&mut book, other, theirs, 1);
        }
        for _ in 0..4 {
            rest(&mut book, side, mine, 1);
        }
        for _ in 0..2 {
            assert_eq!(
                book.add_limit_order(side, Price(mine), 1),
                Err(BookError::SlabFull)
            );
        }
    }
}

#[test]
fn generation_of_a_free_slot_wraps_too() {
    let mut slab = orderbook_2::OrderSlab::with_capacity(1);
    slab.get_mut(SlabIndex::new(1)).generation = 0x7FFF_FFFF;
    slab.bump_generation(SlabIndex::new(1));
    assert_eq!(slab.get(SlabIndex::new(1)).generation, 1);
    assert_eq!(slab.alloc_slot(), Ok((SlabIndex::new(1), 1)));

    let mut slab = orderbook::OrderSlab::with_capacity(1);
    slab.get_mut(SlabIndex::new(1)).generation = u32::MAX;
    slab.bump_generation(SlabIndex::new(1));
    assert_eq!(slab.alloc_slot(), Ok((SlabIndex::new(1), 1)));
}

#[test]
fn engines_agree_on_a_long_stream() {
    let mut a = Harness::<V1>::new(1 << 12);
    let mut b = Harness::<V2>::new(1 << 13);
    let ops = mixed_workload_ops(42, 2_000, 1_000, 8, 7, 10, 0);
    for (i, op) in ops.iter().enumerate() {
        a.apply(op);
        b.apply(op);
        if i % 5 == 0 {
            let side = if i % 2 == 0 { Side::Bid } else { Side::Ask };
            let mode = if i % 3 == 0 { FOK } else { IOC };
            let cross = Op::Market { side, qty: (i % 7) as u64, mode };
            a.apply(&cross);
            b.apply(&cross);
        }
    }
    let fills_a: Vec<u64> = a.book.consumer.fills.iter().map(|f| f.quantity).collect();
    let fills_b: Vec<u64> = b.book.consumer.fills.iter().map(|f| f.quantity).collect();
    assert!(!fills_a.is_empty());
    assert_eq!(fills_a, fills_b);
    let mut ids_a: Vec<u64> = a.handles.keys().copied().collect();
    let mut ids_b: Vec<u64> = b.handles.keys().copied().collect();
    ids_a.sort();
    ids_b.sort();
    assert_eq!(ids_a, ids_b);
    for id in ids_a {
        assert_eq!(a.book.cancel(a.handles[&id]), b.book.cancel(b.handles[&id]));
    }
    for side in [Side::Bid, Side::Ask] {
        assert_eq!(market(&mut a.book, side, 100, IOC), market(&mut b.book, side, 100, IOC));
    }
}

#[test]
fn harness_keeps_handles_by_id() {
    let mut h = Harness::<V2>::new(8);
    let limit = |id, side, price| Op::Limit { id, side, price: Price(price), qty: 1 };
    h.apply_all(&[limit(1, Side::Bid, 100), limit(2, Side::Ask, 101), limit(3, Side::Ask, 100)]);
    let mut ids: Vec<u64> = h.handles.keys().copied().collect();
    ids.sort();
    assert_eq!(ids, vec![1, 2]);
    h.apply(&Op::Cancel { id: 9 });
    h.apply(&Op::Cancel { id: 1 });
    h.apply(&Op::Market { side: Side::Bid, qty: 1, mode: IOC });
    assert_eq!(h.handles.len(), 1);
    assert_eq!(h.book.consumer.fills.len(), 2);
}

#[test]
fn mixer_matches_known_values() {
    let mut m = U64Mixer::default();
    assert_eq!(m.finish(), 0);
    m.write_u64(0);
    assert_eq!(m.finish(), 0);
    m.write_u64(1);
    assert_eq!(m.finish(), 0x5692_161d_100b_05e5);
    m.write_u64(0x9E37_79B9_7F4A_7C15);
    assert_eq!(m.finish(), 0xE220_A839_7B1D_CDAF);
    let mut seen = Vec::new();
    for n in 0..1_000u64 {
        m.write_u64(n);
        seen.push(m.finish());
    }
    seen.sort();
    seen.dedup();
    assert_eq!(seen.len(), 1_000);
}

#[test]
fn adding_and_cancelling_a_quote_changes_nothing() {
    let mut book = V2::new(16);
    rest(&mut book, Side::Bid, 100, 3);
    rest(&mut book, Side::Ask, 105, 3);
    let h = rest(&mut book, Side::Bid, 104, 7);
    book.cancel_limit_order(h).unwrap();
    assert!(book.consumer.fills.is_empty());
    assert_eq!(market(&mut book, Side::Ask, 9, IOC), 6);
    assert_eq!(market(&mut book, Side::Bid, 9, IOC), 6);
}

#[test]
fn fills_follow_price_and_then_time() {
    let mut book = V2::new(16);
    let d = rest(&mut book, Side::Bid, 99, 1).as_u64();
    let a = rest(&mut book, Side::Bid, 101, 2).as_u64();
    let c = rest(&mut book, Side::Bid, 100, 5).as_u64();
    let b = rest(&mut book, Side::Bid, 101, 3).as_u64();
    assert_eq!(market(&mut book, Side::Ask, 7, IOC), 0);
    assert_eq!(fills_v2(&book), vec![(a, 2), (b, 3), (c, 2)]);
    assert_eq!(market(&mut book, Side::Ask, 7, IOC), 3);
    assert_eq!(fills_v2(&book)[3..], [(c, 3), (d, 1)]);
}

fn no_room_is_lost<B: OrderBookApi>(capacity: usize, bids: usize) {
    let mut book = B::new(capacity);
    for n in 0..1_000u64 {
        let a = rest(&mut book, Side::Ask, 100 + n % 3, 2);
        assert!(matches!(book.add_limit(Side::Bid, Price(102), 2), Ok(None)));
        assert!(matches!(book.cancel(a), Err(BookError::OrderNotFound)));
        let b = rest(&mut book, Side::Bid, 99, 5);
        assert_eq!(market(&mut book, Side::Ask, 3, FOK), 0);
        assert_eq!(market(&mut book, Side::Ask, 3, FOK), 3);
        assert!(book.cancel(b).is_ok());
    }
    for _ in 0..bids {
        rest(&mut book, Side::Bid, 99, 1);
    }
    assert!(matches!(
        book.add_limit(Side::Bid, Price(99), 1),
        Err(BookError::SlabFull)
    ));
}

#[test]
fn v1_no_room_is_lost() {
    no_room_is_lost::<V1>(3, 3);
}

#[test]
fn v2_no_room_is_lost() {
    no_room_is_lost::<V2>(6, 3);
}

#[test]
fn orders_by_id_lose_no_slot() {
    let mut book = ById::new(2);
    for n in 0..1_000u64 {
        book.add_limit_order(OrderId(n), Side::Ask, Price(100), 1).unwrap();
        book.add_limit_order(OrderId(n + 10_000), Side::Bid, Price(100), 1).unwrap();
        book.add_limit_order(OrderId(n), Side::Bid, Price(99), 1).unwrap();
        book.add_limit_order(OrderId(n + 20_000), Side::Bid, Price(98), 1).unwrap();
        book.cancel_limit_order(OrderId(n)).unwrap();
        book.cancel_limit_order(OrderId(n + 20_000)).unwrap();
    }
    book.add_limit_order(OrderId(1), Side::Ask, Price(100), 1).unwrap();
    book.add_limit_order(OrderId(2), Side::Bid, Price(99), 1).unwrap();
    assert_eq!(
        book.add_limit_order(OrderId(3), Side::Bid, Price(99), 1),
        Err(BookError::SlabFull)
    );
}
