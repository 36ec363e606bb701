//! The warm workloads: what their setups make, and what their hot calls do to it.

use vstd::prelude::*;

use crate::api::{Depth, OrderBookApi};
use crate::errors::{BookError, BookResult};
use crate::model::{
    best, holds, lemma_best_exists, lemma_without, lots_at, rests_at, Levels, Lot,
};
use crate::promises::surface::lemma_cancelled;
use crate::promises::trades::tally;
use crate::scenarios::Event;
use crate::steady::{
    count, cycle_price, deep_at, deep_book, law_add_spread_is_steady,
    law_add_spread_starts_steady, law_cancel_heavy_is_steady, law_cancel_heavy_starts_steady,
    law_deep_book_is_steady, law_deep_book_starts_steady, law_match_single_is_steady,
    law_match_single_starts_steady, law_sweep_is_steady, law_sweep_starts_steady, lots_of,
    match_book, spread_line, sweep_book, unit,
};
use crate::types::{Price, Side, SlabAllocator};
use crate::warm::{
    calm_market_workload, deep_near_band_qty, deep_orders, deep_orders_at, deep_orders_within,
    hot_add_cancel, hot_add_spread, hot_cancel_heavy, hot_deep_book, hot_match_single, hot_mixed,
    hot_scenario, hot_sweep, illiquid_workload, news_event_workload, opening_auction_workload,
    setup_add_cancel, setup_add_spread, setup_cancel_heavy, setup_deep_book, setup_match_single,
    setup_mixed_warm, setup_scenario, setup_sweep, AddCancelState, AddSpreadState,
    CancelHeavyState, DeepBookState, Line, MatchSingleState, MixedState, ScenarioState, SweepState,
    Workload,
};
use crate::workloads::{
    mixed_workload_ops, populate_uniform_ops, steps_through, uniform_op, Op, Stage,
};

verus! {

/// The `add_cancel` workload starts with an empty book and nothing of its own
/// resting.
pub proof fn law_add_cancel_starts_empty<B: OrderBookApi>(
    slab_cap: usize,
    alloc: SlabAllocator,
    s: AddCancelState<B>,
    book: B,
)
    requires
        call_ensures(
            setup_add_cancel::<B>,
            (slab_cap, alloc),
            Ok::<AddCancelState<B>, BookError>(s),
        ),
        call_ensures(B::new, (slab_cap,), book),
    ensures
        s.resting is None,
        s.book.depth() == book.depth(),
{
}

/// A hot call of the `add_cancel` workload with nothing of its own resting bids
/// 100 for quantity 1. With no ask that low and with room for it, the bid comes
/// to rest.
pub proof fn law_add_cancel_adds_a_bid<B: OrderBookApi>(state: &mut AddCancelState<B>)
    requires
        old(state).wf(),
        old(state).resting is None,
        old(state).book.depth().bid_room > 0,
        forall|p: u64| #[trigger] old(state).book.depth().asks.contains_key(p) ==> p > 100,
        call_ensures(hot_add_cancel::<B>, (state,), ()),
    ensures
        final(state).resting is Some,
        final(state).book.depth().asks == old(state).book.depth().asks,
        ({
            let bids = old(state).book.depth().bids;
            let queue = if bids.contains_key(100) {
                bids[100]
            } else {
                Seq::empty()
            };
            final(state).book.depth().bids == bids.insert(
                100,
                queue.push(Lot { id: final(state).resting->Some_0, quantity: 1 }),
            )
        }),
{
    let pre = old(state).book.depth();
    let r = choose|r: BookResult<Option<B::Handle>>| #[trigger]
        pre.limit_step(Side::Bid, 100, 1, r, final(state).book.depth()) && final(state).resting
            == (match r {
            Ok(Some(h)) => Some(h),
            _ => None,
        });
    lemma_best_exists(Side::Ask, pre.asks.dom());
    if let Some(p) = best(Side::Ask, pre.asks.dom()) {
        assert(pre.asks.contains_key(p));
    }
}

/// A hot call of the `add_cancel` workload with a bid of its own resting cancels
/// that bid and touches no other order.
pub proof fn law_add_cancel_cancels_its_bid<B: OrderBookApi>(
    state: &mut AddCancelState<B>,
    p: u64,
    j: int,
)
    requires
        old(state).wf(),
        old(state).resting is Some,
        old(state).book.depth().bids.contains_key(p),
        0 <= j < old(state).book.depth().bids[p].len(),
        old(state).book.depth().bids[p][j].id == old(state).resting->Some_0,
        call_ensures(hot_add_cancel::<B>, (state,), ()),
    ensures
        final(state).resting is None,
        final(state).book.depth().asks == old(state).book.depth().asks,
        ({
            let bids = old(state).book.depth().bids;
            final(state).book.depth().bids == if bids[p].len() == 1 {
                bids.remove(p)
            } else {
                bids.insert(p, bids[p].remove(j))
            }
        }),
{
    let pre = old(state).book.depth();
    let h = old(state).resting->Some_0;
    let r = choose|r: BookResult<()>| #[trigger]
        pre.cancel_step(h, r, final(state).book.depth());
    lemma_cancelled(pre, h, r, final(state).book.depth());
    assert(rests_at(pre.bids, p, j, h));
    assert(holds(pre.bids, h));
    lemma_without(pre.bids, p, j, h);
}

/// The `cancel_heavy` workload starts with 50 bids of quantity 1 at price 100,
/// queued in the order of their handles, and nothing else.
pub proof fn law_cancel_heavy_starts_deep<B: OrderBookApi>(
    slab_cap: usize,
    alloc: SlabAllocator,
    s: CancelHeavyState<B>,
)
    requires
        B::made(slab_cap).bids == Levels::<B::Handle>::empty(),
        B::made(slab_cap).asks == Levels::<B::Handle>::empty(),
        B::made(slab_cap).bid_room > 50,
        call_ensures(
            setup_cancel_heavy::<B>,
            (slab_cap, alloc),
            Ok::<CancelHeavyState<B>, BookError>(s),
        ),
    ensures
        s.handles@.len() == 50,
        s.handles@.no_duplicates(),
        s.book.depth().asks == Levels::<B::Handle>::empty(),
        s.book.depth().bids == Levels::<B::Handle>::empty().insert(
            100,
            s.handles@.map_values(|h: B::Handle| Lot { id: h, quantity: 1 }),
        ),
{
    let start = Line { depth: B::made(slab_cap), handles: Seq::empty() };
    law_cancel_heavy_starts_steady(start, s.line());
    assert(lots_of(s.handles@) =~= s.handles@.map_values(
        |h: B::Handle| Lot { id: h, quantity: 1 },
    ));
}

/// A hot call of the `cancel_heavy` workload puts one more bid at the back of the
/// level and cancels the one at its front.
pub proof fn law_cancel_heavy_turns_the_queue<B: OrderBookApi>(state: &mut CancelHeavyState<B>)
    requires
        old(state).handles@.len() == 50,
        old(state).handles@.no_duplicates(),
        old(state).book.depth().bid_room > 0,
        old(state).book.depth().asks == Levels::<B::Handle>::empty(),
        old(state).book.depth().bids == Levels::<B::Handle>::empty().insert(
            100,
            old(state).handles@.map_values(|h: B::Handle| Lot { id: h, quantity: 1 }),
        ),
        call_ensures(hot_cancel_heavy::<B>, (state,), ()),
    ensures
        final(state).handles@.len() == 50,
        final(state).handles@.no_duplicates(),
        final(state).handles@.drop_last() == old(state).handles@.drop_first(),
        final(state).book.depth().asks == Levels::<B::Handle>::empty(),
        final(state).book.depth().bids == Levels::<B::Handle>::empty().insert(
            100,
            final(state).handles@.map_values(|h: B::Handle| Lot { id: h, quantity: 1 }),
        ),
{
    assert(lots_of(old(state).handles@) =~= old(state).handles@.map_values(
        |h: B::Handle| Lot { id: h, quantity: 1 },
    ));
    law_cancel_heavy_is_steady(old(state).line(), final(state).line());
    assert(lots_of(final(state).handles@) =~= final(state).handles@.map_values(
        |h: B::Handle| Lot { id: h, quantity: 1 },
    ));
}

/// The `add_spread` workload starts with 128 bids of quantity 1, one at each
/// price from 10000 on, and nothing else.
pub proof fn law_add_spread_starts_spread_out<B: OrderBookApi>(
    slab_cap: usize,
    alloc: SlabAllocator,
    s: AddSpreadState<B>,
)
    requires
        B::made(slab_cap).bids == Levels::<B::Handle>::empty(),
        B::made(slab_cap).asks == Levels::<B::Handle>::empty(),
        B::made(slab_cap).bid_room > 128,
        call_ensures(
            setup_add_spread::<B>,
            (slab_cap, alloc),
            Ok::<AddSpreadState<B>, BookError>(s),
        ),
    ensures
        s.handles@.len() == 128,
        s.price_cursor == 128,
        s.book.depth().asks == Levels::<B::Handle>::empty(),
        forall|p: u64| #[trigger]
            s.book.depth().bids.contains_key(p) <==> 10_000 <= p < 10_128,
        forall|i: int|
            0 <= i < 128 ==> s.book.depth().bids[(10_000 + i) as u64] == seq![
                Lot { id: #[trigger] s.handles@[i], quantity: 1u64 },
            ],
{
    let start = Line { depth: B::made(slab_cap), handles: Seq::empty() };
    let bids = s.book.depth().bids;
    law_add_spread_starts_steady(start, s.line());
    assert forall|i: int| 0 <= i < 128 implies bids.contains_key((10_000 + i) as u64)
        && bids[(10_000 + i) as u64] == seq![
        Lot { id: #[trigger] s.handles@[i], quantity: 1u64 },
    ] by {
        assert(cycle_price((0 + i) as nat) == (10_000 + i) as u64);
        assert(lots_at(bids, cycle_price((0 + i) as nat)) == seq![
            Lot { id: s.handles@[i], quantity: 1u64 },
        ]);
        assert(lots_at(bids, cycle_price((0 + i) as nat)).len() == 1);
    }
    assert forall|p: u64| #[trigger] bids.contains_key(p) implies 10_000 <= p < 10_128 by {
        let i = choose|i: int|
            0 <= i < s.handles@.len() && p == #[trigger] cycle_price((0 + i) as nat);
    }
    assert forall|p: u64| 10_000 <= p < 10_128 implies #[trigger] bids.contains_key(p) by {
        let i = p - 10_000;
        let h = s.handles@[i];
        assert((10_000 + i) as u64 == p);
    }
}

/// A hot call of the `add_spread` workload bids at the price that its cursor
/// points at, cancels its oldest order and moves the cursor on. The cursor goes
/// round 256 prices from 10000 on. As long as its orders stand alone at the 128
/// prices behind the cursor, they do so again afterwards.
pub proof fn law_add_spread_moves_on<B: OrderBookApi>(state: &mut AddSpreadState<B>, start: nat)
    requires
        old(state).handles@.len() == 128,
        old(state).handles@.no_duplicates(),
        old(state).price_cursor == start + 128,
        old(state).price_cursor < u64::MAX,
        old(state).book.depth().bid_room > 0,
        old(state).book.depth().asks == Levels::<B::Handle>::empty(),
        forall|i: int|
            0 <= i < 128 ==> old(state).book.depth().bids.contains_key(
                (10_000 + (start + i) % 256) as u64,
            ) && old(state).book.depth().bids[(10_000 + (start + i) % 256) as u64] == seq![
                Lot { id: #[trigger] old(state).handles@[i], quantity: 1u64 },
            ],
        forall|p: u64| #[trigger]
            old(state).book.depth().bids.contains_key(p) ==> exists|i: int|
                0 <= i < 128 && p == 10_000 + #[trigger] ((start + i) % 256),
        call_ensures(hot_add_spread::<B>, (state,), ()),
    ensures
        final(state).handles@.len() == 128,
        final(state).handles@.drop_last() == old(state).handles@.drop_first(),
        final(state).price_cursor == old(state).price_cursor + 1,
        final(state).book.depth().asks == Levels::<B::Handle>::empty(),
        forall|i: int|
            0 <= i < 128 ==> final(state).book.depth().bids.contains_key(
                (10_000 + (start + 1 + i) % 256) as u64,
            ) && final(state).book.depth().bids[(10_000 + (start + 1 + i) % 256) as u64] == seq![
                Lot { id: #[trigger] final(state).handles@[i], quantity: 1u64 },
            ],
        !final(state).book.depth().bids.contains_key((10_000 + start % 256) as u64),
{
    let (pre, post) = (old(state).line(), final(state).line());
    let bids = pre.depth.bids;
    assert(spread_line(pre, start)) by {
        assert forall|i: int| 0 <= i < pre.handles.len() implies lots_at(
            bids,
            cycle_price((start + i) as nat),
        ) == seq![Lot { id: #[trigger] pre.handles[i], quantity: 1u64 }] by {
            assert(cycle_price((start + i) as nat) == (10_000 + (start + i) % 256) as u64);
            let h = old(state).handles@[i];
        }
        assert forall|p: u64| #[trigger] bids.contains_key(p) implies exists|i: int|
            0 <= i < pre.handles.len() && p == #[trigger] cycle_price((start + i) as nat) by {
            let i = choose|i: int| 0 <= i < 128 && p == 10_000 + #[trigger] ((start + i) % 256);
            assert(p == cycle_price((start + i) as nat));
        }
    }
    law_add_spread_is_steady(pre, start, old(state).price_cursor, post);
    assert(cycle_price(start) == (10_000 + start % 256) as u64);
    assert forall|i: int| 0 <= i < 128 implies post.depth.bids.contains_key(
        (10_000 + (start + 1 + i) % 256) as u64,
    ) && post.depth.bids[(10_000 + (start + 1 + i) % 256) as u64] == seq![
        Lot { id: #[trigger] final(state).handles@[i], quantity: 1u64 },
    ] by {
        let c = cycle_price((start + 1 + i) as nat);
        assert(c == (10_000 + (start + 1 + i) % 256) as u64);
        assert(lots_at(post.depth.bids, c) == seq![
            Lot { id: post.handles[i], quantity: 1u64 },
        ]);
        assert(lots_at(post.depth.bids, c).len() == 1);
    }
}

/// The `match_single` workload starts with 16 asks of quantity 1 at price 100 and
/// nothing else.
pub proof fn law_match_single_starts_deep<B: OrderBookApi>(
    slab_cap: usize,
    alloc: SlabAllocator,
    s: MatchSingleState<B>,
)
    requires
        B::made(slab_cap).bids == Levels::<B::Handle>::empty(),
        B::made(slab_cap).asks == Levels::<B::Handle>::empty(),
        B::made(slab_cap).ask_room >= 16,
        B::made(slab_cap).pooled ==> B::made(slab_cap).bid_room == B::made(slab_cap).ask_room,
        call_ensures(
            setup_match_single::<B>,
            (slab_cap, alloc),
            Ok::<MatchSingleState<B>, BookError>(s),
        ),
    ensures
        s.book.depth().bids == Levels::<B::Handle>::empty(),
        forall|p: u64| #[trigger] s.book.depth().asks.contains_key(p) <==> p == 100,
        s.book.depth().asks[100].len() == 16,
        forall|i: int|
            0 <= i < 16 ==> (#[trigger] s.book.depth().asks[100][i]).quantity == 1,
{
    law_match_single_starts_steady(B::made(slab_cap), s.book.depth());
    lemma_match_book(s.book.depth());
}

/// What rests in the book of the `match_single` workload.
proof fn lemma_match_book<H>(depth: Depth<H>)
    requires
        match_book(depth),
    ensures
        forall|p: u64| #[trigger] depth.asks.contains_key(p) <==> p == 100,
        depth.asks[100].len() == 16,
        forall|i: int| 0 <= i < 16 ==> (#[trigger] depth.asks[100][i]).quantity == 1,
{
    assert(count(depth.asks, 100) == 16);
    assert forall|p: u64| #[trigger] depth.asks.contains_key(p) implies p == 100 by {
        assert(count(depth.asks, p) == depth.asks[p].len());
    }
}

/// A hot call of the `match_single` workload puts one more ask at the back of the
/// level and fills the one at its front; nothing else comes to rest.
pub proof fn law_match_single_turns_the_queue<B: OrderBookApi>(state: &mut MatchSingleState<B>)
    requires
        old(state).book.depth().valid(),
        old(state).book.depth().ask_room > 0,
        old(state).book.depth().bids == Levels::<B::Handle>::empty(),
        forall|p: u64| #[trigger] old(state).book.depth().asks.contains_key(p) <==> p == 100,
        old(state).book.depth().asks[100].len() == 16,
        forall|i: int|
            0 <= i < 16 ==> (#[trigger] old(state).book.depth().asks[100][i]).quantity == 1,
        call_ensures(hot_match_single::<B>, (state,), ()),
    ensures
        final(state).book.depth().bids == Levels::<B::Handle>::empty(),
        forall|p: u64| #[trigger] final(state).book.depth().asks.contains_key(p) <==> p == 100,
        final(state).book.depth().asks[100].len() == 16,
        final(state).book.depth().asks[100].last().quantity == 1,
        final(state).book.depth().asks[100].drop_last()
            == old(state).book.depth().asks[100].drop_first(),
{
    let pre = old(state).book.depth();
    assert(match_book(pre)) by {
        assert forall|p: u64| #[trigger] count(pre.asks, p) == (if p == 100 {
            16nat
        } else {
            0
        }) by {
            assert(pre.asks.contains_key(p) <==> p == 100);
        }
        assert(unit(pre.asks));
    }
    law_match_single_is_steady(pre, final(state).book.depth());
    lemma_match_book(final(state).book.depth());
    assert(final(state).book.depth().asks[100][15].quantity == 1);
}

/// The `sweep` workload starts with one ask of quantity 1 at each of the 512
/// prices above 10000 and nothing else, which is enough for 64 hot calls.
pub proof fn law_sweep_starts_full<B: OrderBookApi>(
    slab_cap: usize,
    alloc: SlabAllocator,
    s: SweepState<B>,
)
    requires
        B::made(slab_cap).bids == Levels::<B::Handle>::empty(),
        B::made(slab_cap).asks == Levels::<B::Handle>::empty(),
        B::made(slab_cap).ask_room >= 512,
        B::made(slab_cap).pooled ==> B::made(slab_cap).bid_room == B::made(slab_cap).ask_room,
        call_ensures(setup_sweep::<B>, (slab_cap, alloc), Ok::<SweepState<B>, BookError>(s)),
    ensures
        s.strips_left == 64,
        s.book.depth().bids == Levels::<B::Handle>::empty(),
        forall|p: u64| #[trigger]
            s.book.depth().asks.contains_key(p) <==> 10_000 < p <= 10_512,
        forall|p: u64| #[trigger]
            s.book.depth().asks.contains_key(p) ==> s.book.depth().asks[p].len() == 1
                && s.book.depth().asks[p][0].quantity == 1,
{
    law_sweep_starts_steady(B::made(slab_cap), s.book.depth());
    lemma_sweep_book(s.book.depth(), 64);
}

/// What rests in the book of the `sweep` workload.
proof fn lemma_sweep_book<H>(depth: Depth<H>, strips_left: nat)
    requires
        sweep_book(depth, strips_left),
        strips_left <= 64,
    ensures
        forall|p: u64| #[trigger]
            depth.asks.contains_key(p) <==> 10_512 - 8 * strips_left < p <= 10_512,
        forall|p: u64| #[trigger]
            depth.asks.contains_key(p) ==> depth.asks[p].len() == 1 && depth.asks[p][0].quantity
                == 1,
{
    assert forall|p: u64| #[trigger] depth.asks.contains_key(p) <==> 10_512 - 8 * strips_left < p
        <= 10_512 by {
        assert(count(depth.asks, p) == lots_at(depth.asks, p).len());
    }
    assert forall|p: u64| #[trigger] depth.asks.contains_key(p) implies depth.asks[p].len() == 1
        && depth.asks[p][0].quantity == 1 by {
        assert(count(depth.asks, p) == depth.asks[p].len());
    }
}

/// A hot call of the `sweep` workload takes the 8 lowest asks that are left. When
/// none are left it fills the book up again first.
pub proof fn law_sweep_takes_a_strip<B: OrderBookApi>(state: &mut SweepState<B>)
    requires
        old(state).book.depth().valid(),
        old(state).strips_left <= 64,
        old(state).book.depth().ask_room >= 512 - 8 * old(state).strips_left,
        old(state).book.depth().bids == Levels::<B::Handle>::empty(),
        forall|p: u64| #[trigger]
            old(state).book.depth().asks.contains_key(p) <==> 10_512 - 8 * old(state).strips_left
                < p <= 10_512,
        forall|p: u64| #[trigger]
            old(state).book.depth().asks.contains_key(p) ==> old(state).book.depth().asks[p].len()
                == 1 && old(state).book.depth().asks[p][0].quantity == 1,
        call_ensures(hot_sweep::<B>, (state,), ()),
    ensures
        final(state).strips_left == (if old(state).strips_left == 0 {
            63
        } else {
            old(state).strips_left - 1
        }),
        final(state).book.depth().bids == Levels::<B::Handle>::empty(),
        forall|p: u64| #[trigger]
            final(state).book.depth().asks.contains_key(p) <==> 10_512 - 8
                * final(state).strips_left < p <= 10_512,
        forall|p: u64| #[trigger]
            final(state).book.depth().asks.contains_key(p)
                ==> final(state).book.depth().asks[p].len() == 1
                && final(state).book.depth().asks[p][0].quantity == 1,
        final(state).book.depth().ask_room >= 512 - 8 * final(state).strips_left,
{
    let pre = old(state).book.depth();
    let n = old(state).strips_left as nat;
    assert(sweep_book(pre, n)) by {
        assert forall|p: u64| #[trigger] count(pre.asks, p) == (if 10_512 - 8 * n < p <= 10_512 {
            1nat
        } else {
            0
        }) by {
            assert(pre.asks.contains_key(p) <==> 10_512 - 8 * n < p <= 10_512);
        }
        assert(unit(pre.asks)) by {
            assert forall|p: u64, i: int|
                pre.asks.contains_key(p) && 0 <= i < pre.asks[p].len() implies (
            #[trigger] pre.asks[p][i]).quantity == 1 by {
                assert(pre.asks[p].len() == 1);
            }
        }
    }
    law_sweep_is_steady(pre, n, final(state).book.depth());
    lemma_sweep_book(final(state).book.depth(), final(state).strips_left as nat);
}

/// The number of orders at a distance from the mid is 1000 divided by the
/// distance, rounded to the nearest with halves going up, and at least one.
pub proof fn law_deep_orders_are_rounded(d: u64, r: u64)
    requires
        0 < d,
        call_ensures(deep_orders_at, (d,), r),
    ensures
        1 <= r,
        2000 < (2 * r + 1) * d,
        r > 1 ==> (2 * r - 1) * d <= 2000,
        d == 1 ==> r == 1000,
        d > 2000 ==> r == 1,
{
    let (e, k) = (d as int, r as int);
    let (n, w) = (2000 + e, 2 * e);
    let q = n / w;
    vstd::arithmetic::div_mod::lemma_fundamental_div_mod(n, w);
    assert(2 * (q * e) <= n < 2 * (q * e) + 2 * e && q >= 0) by (nonlinear_arith)
        requires
            n == w * q + n % w,
            0 <= n % w < w,
            w == 2 * e,
            n > 0,
            e > 0,
    ;
    assert((2 * k + 1) * e == 2 * (k * e) + e && (2 * k - 1) * e == 2 * (k * e) - e)
        by (nonlinear_arith);
    if q == 0 {
        assert(k == 1 && q * e == 0) by (nonlinear_arith)
            requires
                q == 0,
                k == 1,
        ;
    } else {
        assert(k == q);
        if e > 2000 && q >= 2 {
            assert(q * e >= 2 * e) by (nonlinear_arith)
                requires
                    q >= 2,
                    e > 0,
            ;
        }
    }
}

/// The quantity that takes the near band is what rests at its 80 levels.
pub proof fn law_near_band_is_the_sum_of_its_levels(counts: Seq<u64>, r: u64)
    requires
        counts.len() == 80,
        forall|i: int|
            0 <= i < 80 ==> call_ensures(deep_orders_at, ((i + 1) as u64,), #[trigger] counts[i]),
        call_ensures(deep_near_band_qty, (), r),
    ensures
        r == tally(counts),
{
    lemma_within(counts, 80);
    assert(counts.take(80) =~= counts);
}

proof fn lemma_within(counts: Seq<u64>, n: nat)
    requires
        n <= counts.len() <= 80,
        forall|i: int|
            0 <= i < counts.len() ==> call_ensures(
                deep_orders_at,
                ((i + 1) as u64,),
                #[trigger] counts[i],
            ),
    ensures
        tally(counts.take(n as int)) == deep_orders_within(n),
    decreases n,
{
    if n > 0 {
        lemma_within(counts, (n - 1) as nat);
        let some = counts.take(n as int);
        assert(some.drop_last() =~= counts.take(n - 1));
        let c = counts[n - 1];
        assert(c == deep_orders(n as u64));
    }
}

/// The `deep_book` workload starts with orders of quantity 1 at the 256 prices on
/// each side of 1000000, at each as many as its distance calls for, and nothing
/// else.
pub proof fn law_deep_book_starts_deep<B: OrderBookApi>(
    slab_cap: usize,
    alloc: SlabAllocator,
    s: DeepBookState<B>,
    band: u64,
    d: u64,
    n: u64,
)
    requires
        B::made(slab_cap).bids == Levels::<B::Handle>::empty(),
        B::made(slab_cap).asks == Levels::<B::Handle>::empty(),
        B::made(slab_cap).pooled ==> B::made(slab_cap).bid_room == B::made(slab_cap).ask_room
            && B::made(slab_cap).ask_room >= 2 * deep_orders_within(256),
        B::made(slab_cap).bid_room >= deep_orders_within(256),
        B::made(slab_cap).ask_room >= deep_orders_within(256),
        call_ensures(
            setup_deep_book::<B>,
            (slab_cap, alloc),
            Ok::<DeepBookState<B>, BookError>(s),
        ),
        call_ensures(deep_near_band_qty, (), band),
        1 <= d <= 256,
        call_ensures(deep_orders_at, (d,), n),
    ensures
        s.near_qty == band,
        forall|p: u64| #[trigger]
            s.book.depth().bids.contains_key(p) <==> 999_744 <= p < 1_000_000,
        forall|p: u64| #[trigger]
            s.book.depth().asks.contains_key(p) <==> 1_000_000 < p <= 1_000_256,
        s.book.depth().bids[(1_000_000 - d) as u64].len() == n,
        s.book.depth().asks[(1_000_000 + d) as u64].len() == n,
        forall|i: int|
            0 <= i < n ==> (#[trigger] s.book.depth().bids[(1_000_000 - d) as u64][i]).quantity
                == 1,
        forall|i: int|
            0 <= i < n ==> (#[trigger] s.book.depth().asks[(1_000_000 + d) as u64][i]).quantity
                == 1,
{
    law_deep_book_starts_steady(B::made(slab_cap), s.book.depth());
    lemma_deep_book(s.book.depth());
    assert(count(s.book.depth().bids, (1_000_000 - d) as u64) == deep_at(d as int));
    assert(count(s.book.depth().asks, (1_000_000 + d) as u64) == deep_at(d as int));
}

/// What rests in the book of the `deep_book` workload.
proof fn lemma_deep_book<H>(depth: Depth<H>)
    requires
        deep_book(depth),
    ensures
        forall|p: u64| #[trigger] depth.bids.contains_key(p) <==> 999_744 <= p < 1_000_000,
        forall|p: u64| #[trigger] depth.asks.contains_key(p) <==> 1_000_000 < p <= 1_000_256,
{
    assert forall|p: u64| #[trigger] depth.bids.contains_key(p) <==> 999_744 <= p < 1_000_000 by {
        assert(count(depth.bids, p) == deep_at(1_000_000 - p));
    }
    assert forall|p: u64| #[trigger] depth.asks.contains_key(p) <==> 1_000_000 < p <= 1_000_256 by {
        assert(count(depth.asks, p) == deep_at(p - 1_000_000));
    }
}

/// A hot call of the `deep_book` workload leaves at each price as many orders as
/// there were, as long as the book had its shape and the quantity is that of the
/// near band.
pub proof fn law_deep_book_keeps_its_shape<B: OrderBookApi>(
    state: &mut DeepBookState<B>,
    counts: Seq<u64>,
    band: u64,
    p: u64,
)
    requires
        old(state).book.depth().valid(),
        call_ensures(deep_near_band_qty, (), band),
        old(state).near_qty == band,
        counts.len() == 257,
        forall|d: int|
            1 <= d <= 256 ==> call_ensures(deep_orders_at, (d as u64,), #[trigger] counts[d]),
        ({
            let bids = old(state).book.depth().bids;
            let asks = old(state).book.depth().asks;
            &&& forall|q: u64| #[trigger] bids.contains_key(q) <==> 999_744 <= q < 1_000_000
            &&& forall|q: u64| #[trigger] asks.contains_key(q) <==> 1_000_000 < q <= 1_000_256
            &&& forall|q: u64| #[trigger]
                bids.contains_key(q) ==> bids[q].len() == counts[1_000_000 - q]
            &&& forall|q: u64| #[trigger]
                asks.contains_key(q) ==> asks[q].len() == counts[q - 1_000_000]
            &&& forall|q: u64, i: int|
                bids.contains_key(q) && 0 <= i < bids[q].len() ==> (#[trigger] bids[q][i]).quantity
                    == 1
            &&& forall|q: u64, i: int|
                asks.contains_key(q) && 0 <= i < asks[q].len() ==> (#[trigger] asks[q][i]).quantity
                    == 1
        }),
        call_ensures(hot_deep_book::<B>, (state,), ()),
    ensures
        final(state).near_qty == band,
        ({
            let bids = final(state).book.depth().bids;
            let asks = final(state).book.depth().asks;
            &&& bids.contains_key(p) <==> 999_744 <= p < 1_000_000
            &&& asks.contains_key(p) <==> 1_000_000 < p <= 1_000_256
            &&& bids.contains_key(p) ==> bids[p].len() == counts[1_000_000 - p]
            &&& asks.contains_key(p) ==> asks[p].len() == counts[p - 1_000_000]
            &&& forall|i: int|
                bids.contains_key(p) && 0 <= i < bids[p].len() ==> (#[trigger] bids[p][i]).quantity
                    == 1
            &&& forall|i: int|
                asks.contains_key(p) && 0 <= i < asks[p].len() ==> (#[trigger] asks[p][i]).quantity
                    == 1
        }),
{
    let pre = old(state).book.depth();
    let post = final(state).book.depth();
    assert(deep_book(pre)) by {
        assert forall|q: u64| #[trigger] count(pre.bids, q) == deep_at(1_000_000 - q) by {
            assert(pre.bids.contains_key(q) <==> 999_744 <= q < 1_000_000);
            if pre.bids.contains_key(q) {
                let c = counts[1_000_000 - q];
                assert(c == deep_orders((1_000_000 - q) as u64));
            }
        }
        assert forall|q: u64| #[trigger] count(pre.asks, q) == deep_at(q - 1_000_000) by {
            assert(pre.asks.contains_key(q) <==> 1_000_000 < q <= 1_000_256);
            if pre.asks.contains_key(q) {
                let c = counts[q - 1_000_000];
                assert(c == deep_orders((q - 1_000_000) as u64));
            }
        }
        assert(unit(pre.bids) && unit(pre.asks));
    }
    law_deep_book_is_steady(pre, band, post);
    lemma_deep_book(post);
    assert(count(post.bids, p) == deep_at(1_000_000 - p));
    assert(count(post.asks, p) == deep_at(p - 1_000_000));
    if post.bids.contains_key(p) {
        let c = counts[1_000_000 - p];
        assert(c == deep_orders((1_000_000 - p) as u64));
    }
    if post.asks.contains_key(p) {
        let c = counts[p - 1_000_000];
        assert(c == deep_orders((p - 1_000_000) as u64));
    }
}

/// The mixed workload starts with a book that has been filled evenly, 50 levels
/// of 4 orders on each side of 10000 under ids from 1 on, and plays 1024
/// operations around the same mid, up to 50 ticks away and half of them adds,
/// under ids beyond 100000.
pub proof fn law_mixed_starts_on_an_even_book<B: OrderBookApi>(
    slab_cap: usize,
    alloc: SlabAllocator,
    s: MixedState<B>,
    fill: Vec<Op>,
    ops: Vec<Op>,
)
    requires
        call_ensures(setup_mixed_warm::<B>, (slab_cap, alloc), Ok::<MixedState<B>, BookError>(s)),
        call_ensures(populate_uniform_ops, (50, 4, 10_000, 1), fill),
        call_ensures(mixed_workload_ops, (0xC0FFEE, 1024, 10_000, 50, 1, 2, 100_000), ops),
    ensures
        s.idx == 0,
        s.ops@ == ops@,
        exists|states: Seq<Stage<B::Handle>>|
            {
                &&& #[trigger] states.len() == fill@.len() + 1
                &&& states[0].depth == B::made(slab_cap)
                &&& states[0].handles == Map::<u64, B::Handle>::empty()
                &&& states[fill@.len() as int].depth == s.harness.book.depth()
                &&& states[fill@.len() as int].handles == s.harness.handles@
                &&& forall|i: int|
                    0 <= i < fill@.len() ==> states[i].step(#[trigger] fill@[i], states[i + 1])
            },
{
    let start = Stage { depth: B::made(slab_cap), handles: Map::<u64, B::Handle>::empty() };
    assert(fill@ =~= Seq::new(400, |k: int| uniform_op(4, 10_000, 1, k)));
    let states = choose|states: Seq<Stage<B::Handle>>| #[trigger]
        steps_through(states, fill@) && states[0] == start && states[fill@.len() as int]
            == s.harness.stage();
    assert(states.len() == fill@.len() + 1);
}

/// A hot call of the mixed workload plays the operation that comes next and moves
/// on to the one behind it, from the last one back to the first.
pub proof fn law_mixed_plays_the_next_operation<B: OrderBookApi>(state: &mut MixedState<B>)
    requires
        old(state).idx < old(state).ops@.len(),
        call_ensures(hot_mixed::<B>, (state,), ()),
    ensures
        final(state).ops@ == old(state).ops@,
        final(state).idx == (old(state).idx + 1) % (old(state).ops@.len() as int),
        (Stage {
            depth: old(state).harness.book.depth(),
            handles: old(state).harness.handles@,
        }).step(
            old(state).ops@[old(state).idx as int],
            (Stage {
                depth: final(state).harness.book.depth(),
                handles: final(state).harness.handles@,
            }),
        ),
{
    let (i, n) = (old(state).idx as int, old(state).ops@.len() as int);
    if i + 1 == n {
        vstd::arithmetic::div_mod::lemma_mod_self_0(n);
    } else {
        vstd::arithmetic::div_mod::lemma_small_mod((i + 1) as nat, n as nat);
    }
}

/// A scenario starts with an empty book and plays its events in order, each as
/// the operation that it stands for.
pub proof fn law_scenario_plays_its_events<B: OrderBookApi>(
    events: Vec<Event>,
    slab_cap: usize,
    alloc: SlabAllocator,
    s: ScenarioState<B>,
    i: int,
)
    requires
        call_ensures(
            setup_scenario::<B>,
            (&events, slab_cap, alloc),
            Ok::<ScenarioState<B>, BookError>(s),
        ),
        0 <= i < events@.len(),
    ensures
        s.idx == 0,
        s.harness.book.depth() == B::made(slab_cap),
        s.harness.handles@ == Map::<u64, B::Handle>::empty(),
        s.ops@.len() == events@.len(),
        match events@[i] {
            Event::LimitAdd { id, side, price, qty } => s.ops@[i] == (Op::Limit {
                id,
                side,
                price: Price(price),
                qty,
            }),
            Event::Cancel { id } => s.ops@[i] == (Op::Cancel { id }),
            Event::Market { side, qty, mode } => s.ops@[i] == (Op::Market { side, qty, mode }),
        },
{
}

/// A hot call of a scenario plays the operation that comes next and moves on to
/// the one behind it, from the last one back to the first.
pub proof fn law_scenario_plays_the_next_operation<B: OrderBookApi>(state: &mut ScenarioState<B>)
    requires
        old(state).idx < old(state).ops@.len(),
        call_ensures(hot_scenario::<B>, (state,), ()),
    ensures
        final(state).ops@ == old(state).ops@,
        final(state).idx == (old(state).idx + 1) % (old(state).ops@.len() as int),
        (Stage {
            depth: old(state).harness.book.depth(),
            handles: old(state).harness.handles@,
        }).step(
            old(state).ops@[old(state).idx as int],
            (Stage {
                depth: final(state).harness.book.depth(),
                handles: final(state).harness.handles@,
            }),
        ),
{
    let (i, n) = (old(state).idx as int, old(state).ops@.len() as int);
    if i + 1 == n {
        vstd::arithmetic::div_mod::lemma_mod_self_0(n);
    } else {
        vstd::arithmetic::div_mod::lemma_small_mod((i + 1) as nat, n as nat);
    }
}

/// Each scenario has one pass over its 4096 events to warm up, in a slab of 16384
/// slots.
pub proof fn law_scenarios_warm_up_for_one_pass(
    calm: Workload,
    news: Workload,
    illiquid: Workload,
    opening: Workload,
)
    requires
        call_ensures(calm_market_workload, (), calm),
        call_ensures(news_event_workload, (), news),
        call_ensures(illiquid_workload, (), illiquid),
        call_ensures(opening_auction_workload, (), opening),
    ensures
        calm.warmup_iters == 4096 && calm.slab_cap == 16384,
        news.warmup_iters == 4096 && news.slab_cap == 16384,
        illiquid.warmup_iters == 4096 && illiquid.slab_cap == 16384,
        opening.warmup_iters == 4096 && opening.slab_cap == 16384,
{
}

} // verus!
