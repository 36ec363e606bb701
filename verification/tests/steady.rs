//! Hot calls keep the book in the shape that the setup gave it.

use calvera_books::api::OrderBookApi;
use calvera_books::orderbook;
use calvera_books::orderbook_2;
use calvera_books::types::{MarketOrderMode, Side, SlabAllocator};
use calvera_books::warm::{
    add_cancel_workload, add_spread_workload, cancel_heavy_workload, deep_book_workload,
    deep_near_band_qty, deep_orders_at, hot_add_cancel, hot_add_spread, hot_cancel_heavy,
    hot_deep_book, hot_match_single, hot_sweep, match_single_workload, setup_add_cancel,
    setup_add_spread, setup_cancel_heavy, setup_deep_book, setup_match_single, setup_sweep,
    sweep_workload, DEEP_LEVELS, HEAVY_DEPTH, MATCH_DEPTH, SPREAD_MID, SPREAD_TARGET,
    SWEEP_LEVELS, SWEEP_STRIPS,
};

type V1 = orderbook::OrderBook<orderbook::VecConsumer>;
type V2 = orderbook_2::OrderBook<orderbook_2::VecConsumer>;

/// What rests opposite to `side`, found out by taking all of it.
fn drain<B: OrderBookApi>(book: &mut B, side: Side) -> u64 {
    let lots = 1_000_000;
    let r = book
        .add_market(side, lots, MarketOrderMode::ImmediateOrCancel)
        .unwrap();
    lots - r.remaining
}

fn bids<B: OrderBookApi>(book: &mut B) -> u64 {
    drain(book, Side::Ask)
}

fn asks<B: OrderBookApi>(book: &mut B) -> u64 {
    drain(book, Side::Bid)
}

fn add_cancel_holds_one_order_at_most<B: OrderBookApi>() {
    let cap = add_cancel_workload().slab_cap;
    for (calls, rests) in [(0, 0), (1, 1), (2, 0), (999, 1), (1_000, 0)] {
        let mut s = setup_add_cancel::<B>(cap, SlabAllocator::System).unwrap();
        for _ in 0..calls {
            hot_add_cancel(&mut s);
        }
        assert_eq!(s.resting.is_some(), rests == 1);
        assert_eq!((bids(&mut s.book), asks(&mut s.book)), (rests, 0));
    }
}

#[test]
fn v1_add_cancel_holds_one_order_at_most() {
    add_cancel_holds_one_order_at_most::<V1>();
}

#[test]
fn v2_add_cancel_holds_one_order_at_most() {
    add_cancel_holds_one_order_at_most::<V2>();
}

fn queues_stay_as_long_as_they_were<B: OrderBookApi>() {
    let cap = cancel_heavy_workload().slab_cap;
    let mut s = setup_cancel_heavy::<B>(cap, SlabAllocator::System).unwrap();
    for _ in 0..5_000 {
        hot_cancel_heavy(&mut s);
        assert_eq!(s.handles.len(), HEAVY_DEPTH);
    }
    assert_eq!(bids(&mut s.book), 50);

    let cap = add_spread_workload().slab_cap;
    let mut s = setup_add_spread::<B>(cap, SlabAllocator::System).unwrap();
    for _ in 0..5_000 {
        hot_add_spread(&mut s);
        assert_eq!(s.handles.len(), SPREAD_TARGET);
    }
    assert_eq!(s.price_cursor, 5_128);
    // The newest order is alone at its price, and the one after it is to open a
    // level.
    let newest = SPREAD_MID + 5_127 % 256;
    let above = (5_000..5_128).filter(|k| SPREAD_MID + k % 256 > newest).count() as u64;
    assert_eq!(
        s.book
            .add_market(Side::Ask, above, MarketOrderMode::FillOrKill)
            .unwrap()
            .remaining,
        0
    );
    let newest_handle = s.handles[SPREAD_TARGET - 1];
    assert!(s.book.cancel(newest_handle).is_ok());
    assert_eq!(bids(&mut s.book), 127 - above);
}

#[test]
fn v1_queues_stay_as_long_as_they_were() {
    queues_stay_as_long_as_they_were::<V1>();
}

#[test]
fn v2_queues_stay_as_long_as_they_were() {
    queues_stay_as_long_as_they_were::<V2>();
}

fn matched_level_stays_as_deep_as_it_was<B: OrderBookApi>() {
    let cap = match_single_workload().slab_cap;
    let mut s = setup_match_single::<B>(cap, SlabAllocator::System).unwrap();
    for _ in 0..5_000 {
        hot_match_single(&mut s);
    }
    assert_eq!(asks(&mut s.book), MATCH_DEPTH as u64);
    assert_eq!(bids(&mut s.book), 0);
}

#[test]
fn v1_matched_level_stays_as_deep_as_it_was() {
    matched_level_stays_as_deep_as_it_was::<V1>();
}

#[test]
fn v2_matched_level_stays_as_deep_as_it_was() {
    matched_level_stays_as_deep_as_it_was::<V2>();
}

fn sweeps_empty_the_book_strip_by_strip<B: OrderBookApi>() {
    let cap = sweep_workload().slab_cap;
    for calls in [0, 1, 63, 64, 65, 128, 200] {
        let mut s = setup_sweep::<B>(cap, SlabAllocator::System).unwrap();
        for _ in 0..calls {
            hot_sweep(&mut s);
        }
        let left = if calls == 0 {
            SWEEP_STRIPS
        } else {
            (SWEEP_STRIPS - calls % SWEEP_STRIPS) % SWEEP_STRIPS
        };
        assert_eq!(s.strips_left, left);
        assert_eq!(asks(&mut s.book), left as u64 * SWEEP_LEVELS);
        assert_eq!(bids(&mut s.book), 0);
    }
}

#[test]
fn v1_sweeps_empty_the_book_strip_by_strip() {
    sweeps_empty_the_book_strip_by_strip::<V1>();
}

#[test]
fn v2_sweeps_empty_the_book_strip_by_strip() {
    sweeps_empty_the_book_strip_by_strip::<V2>();
}

fn deep_book_is_built_again<B: OrderBookApi>() {
    let per_side: u64 = (1..=DEEP_LEVELS).map(deep_orders_at).sum();
    let cap = deep_book_workload().slab_cap;
    let mut s = setup_deep_book::<B>(cap, SlabAllocator::System).unwrap();
    assert_eq!(s.near_qty, deep_near_band_qty());
    for _ in 0..20 {
        hot_deep_book(&mut s);
    }
    assert_eq!(asks(&mut s.book), per_side);
    assert_eq!(bids(&mut s.book), per_side);
}

#[test]
fn v1_deep_book_is_built_again() {
    deep_book_is_built_again::<V1>();
}

#[test]
fn v2_deep_book_is_built_again() {
    deep_book_is_built_again::<V2>();
}
