//! Op streams, warm workloads and scenarios.

use std::collections::VecDeque;
use std::time::{Duration, Instant};

use calvera_books::api::OrderBookApi;
use calvera_books::dice::{Dice12, Dice8};
use calvera_books::errors::BookResult;
use calvera_books::orderbook::{OrderBook, VecConsumer};
use calvera_books::orderbook_2;
use calvera_books::scenarios::{event_to_op, Event, Maker};
use calvera_books::types::{MarketOrderMode, Price, Side, SlabAllocator};
use calvera_books::warm::{
    add_cancel_workload, add_spread_workload, cancel_heavy_workload, deep_book_workload,
    deep_near_band_qty, deep_orders_at, hot_add_cancel, hot_add_spread, hot_cancel_heavy,
    hot_deep_book, hot_match_single, hot_mixed, hot_scenario, hot_sweep, match_single_workload,
    mixed_workload, setup_add_cancel, setup_add_spread, setup_cancel_heavy, setup_deep_book,
    setup_match_single, setup_mixed_warm, setup_scenario, setup_sweep, sweep_workload,
    ScenarioState, Workload, DEEP_LEVELS, DEEP_NEAR_LEVELS,
};
use calvera_books::workloads::{
    mixed_add, mixed_workload_ops, populate_uniform_ops, Harness, Op,
};
use rand::rngs::StdRng;
use rand::{Rng, SeedableRng};
use rand_chacha::ChaCha8Rng;

type Book = OrderBook<VecConsumer>;

fn drive<B: OrderBookApi>(populate: &[Op], mixed: &[Op]) -> usize {
    let mut h = Harness::<B>::new(1 << 14);
    h.apply_all(populate);
    h.apply_all(mixed);
    h.handles.len()
}

fn run_warm<S>(
    w: &Workload,
    setup: fn(usize, SlabAllocator) -> BookResult<S>,
    hot: fn(&mut S),
    iters: u64,
) -> Duration {
    let mut state =
        setup(w.slab_cap, SlabAllocator::System).expect("SlabAllocator::System never fails");
    for _ in 0..w.warmup_iters {
        hot(&mut state);
    }
    let start = Instant::now();
    for _ in 0..iters {
        hot(&mut state);
    }
    start.elapsed()
}

fn text(ops: &[Op]) -> Vec<String> {
    ops.iter().map(|op| format!("{op:?}")).collect()
}

#[test]
fn populate_then_mixed_drives_the_book() {
    let populate = populate_uniform_ops(20, 2, 10_000, 1);
    let mixed = mixed_workload_ops(0xC0FFEE, 1024, 10_000, 50, 7, 10, 100_000);
    let n = drive::<Book>(&populate, &mixed);
    assert!(n > 0);
}

#[test]
fn warm_mixed_runs_steady_state() {
    let d = run_warm(
        &mixed_workload(),
        setup_mixed_warm::<Book>,
        hot_mixed::<Book>,
        100_000,
    );
    assert!(d > Duration::ZERO);
}

#[test]
fn warm_matching_workloads_survive() {
    for iters in [500_000u64] {
        let _ = run_warm(
            &match_single_workload(),
            setup_match_single::<Book>,
            hot_match_single::<Book>,
            iters,
        );
        let _ = run_warm(
            &sweep_workload(),
            setup_sweep::<Book>,
            hot_sweep::<Book>,
            iters,
        );
    }
}

#[test]
fn deep_book_is_concentrated_and_survives() {
    let total: u64 = (1..=DEEP_LEVELS).map(deep_orders_at).sum();
    let near = deep_near_band_qty();
    let pct = near as f64 / total as f64 * 100.0;
    println!(
        "deep_book: {} orders/side across {} levels; near band ({} levels) = {} orders ({:.0}%)",
        total, DEEP_LEVELS, DEEP_NEAR_LEVELS, near, pct,
    );
    assert!(
        pct >= 75.0,
        "near band should hold ~80% of a side's liquidity, got {pct:.0}%"
    );
    let _ = run_warm(
        &deep_book_workload(),
        setup_deep_book::<Book>,
        hot_deep_book::<Book>,
        200,
    );
}

#[test]
fn mixed_workload_is_deterministic() {
    let a = mixed_workload_ops(0xCAFEBABE, 256, 10_000, 50, 7, 10, 100_000);
    let b = mixed_workload_ops(0xCAFEBABE, 256, 10_000, 50, 7, 10, 100_000);
    assert_eq!(a.len(), b.len());
    for (x, y) in a.iter().zip(b.iter()) {
        assert_eq!(format!("{x:?}"), format!("{y:?}"));
    }
}

/// The knobs of a scenario.
#[derive(Clone, Copy)]
struct Params {
    seed: u64,
    mid0: f64,
    theta: f64,
    sigma: f64,
    jump_prob: f64,
    jump_df: u32,
    jump_scale: f64,
    mm_depth: usize,
    quote_offsets: u64,
    aggressor_rate: f64,
}

const CALM_MARKET: Params = Params {
    seed: 0xCA1_DA7A,
    mid0: 10_000.0,
    theta: 0.05,
    sigma: 0.5,
    jump_prob: 0.0,
    jump_df: 3,
    jump_scale: 0.0,
    mm_depth: 10,
    quote_offsets: 5,
    aggressor_rate: 0.01,
};

const NEWS_EVENT: Params = Params {
    seed: 0x0DD_BEEF,
    theta: 0.02,
    jump_prob: 5e-4,
    jump_scale: 40.0,
    aggressor_rate: 0.02,
    ..CALM_MARKET
};

const ILLIQUID: Params = Params {
    seed: 0x1_11_1_9_D,
    sigma: 1.0,
    mm_depth: 4,
    quote_offsets: 20,
    aggressor_rate: 0.05,
    ..CALM_MARKET
};

const OPENING_AUCTION: Params = Params {
    seed: 0x0_9E_11_9,
    mm_depth: 50,
    quote_offsets: 8,
    ..CALM_MARKET
};

const ALL: [(&str, Params); 4] = [
    ("calm_market", CALM_MARKET),
    ("news_event", NEWS_EVENT),
    ("illiquid", ILLIQUID),
    ("opening_auction", OPENING_AUCTION),
];

fn normal(rng: &mut ChaCha8Rng) -> f64 {
    let mut u1: f64 = rng.random_range(0.0..1.0);
    if u1 == 0.0 {
        u1 = f64::MIN_POSITIVE;
    }
    let u2: f64 = rng.random_range(0.0..1.0);
    (-2.0 * u1.ln()).sqrt() * (2.0 * std::f64::consts::PI * u2).cos()
}

fn student_t(rng: &mut ChaCha8Rng, df: u32) -> f64 {
    let z = normal(rng);
    let mut v = 0.0;
    for _ in 0..df.max(1) {
        let zi = normal(rng);
        v += zi * zi;
    }
    z / (v / df.max(1) as f64).sqrt()
}

/// One step of the mid, and the tick that it gives.
fn next_tick(p: &Params, mid: &mut f64, rng: &mut ChaCha8Rng) -> u64 {
    *mid += p.theta * (p.mid0 - *mid) + p.sigma * normal(rng);
    if p.jump_prob > 0.0 && rng.random_bool(p.jump_prob) {
        *mid += p.jump_scale * student_t(rng, p.jump_df);
    }
    mid.round().max(1.0) as u64
}

/// The stream of a scenario, as the market maker makes it.
fn generate(p: &Params, n_events: usize) -> Vec<Event> {
    let mut rng = ChaCha8Rng::seed_from_u64(p.seed);
    let mut maker = Maker::new(n_events, p.mm_depth, p.quote_offsets);
    let mut mid = p.mid0;
    while maker.wants_more() {
        let tick = next_tick(p, &mut mid, &mut rng);
        let aggressor = rng.random_bool(p.aggressor_rate);
        let mut dice = Dice8 {
            seed: p.seed,
            pos: rng.get_word_pos(),
        };
        if aggressor {
            maker.aggress(&mut dice);
        } else {
            maker.quote(tick, &mut dice);
        }
        rng.set_word_pos(dice.pos);
    }
    maker.finish()
}

/// The same stream, drawn straight from the generator.
fn generate_by_hand(p: &Params, n_events: usize) -> Vec<Event> {
    let mut rng = ChaCha8Rng::seed_from_u64(p.seed);
    let mut events = Vec::new();
    let mut next_id: u64 = 100_000;
    let mut live: VecDeque<u64> = VecDeque::new();
    let mut mid = p.mid0;
    let main_n = n_events.saturating_sub(p.mm_depth);
    while events.len() < main_n {
        let tick = next_tick(p, &mut mid, &mut rng);
        if rng.random_bool(p.aggressor_rate) {
            let side = if rng.random_bool(0.5) { Side::Bid } else { Side::Ask };
            events.push(Event::Market {
                side,
                qty: 1,
                mode: MarketOrderMode::ImmediateOrCancel,
            });
            continue;
        }
        if live.len() >= p.mm_depth {
            if let Some(id) = live.pop_front() {
                events.push(Event::Cancel { id });
                if events.len() >= main_n {
                    break;
                }
            }
        }
        next_id += 1;
        let side = if rng.random_bool(0.5) { Side::Bid } else { Side::Ask };
        let offset = rng.random_range(1..=p.quote_offsets);
        let price = match side {
            Side::Bid => tick.saturating_sub(offset).max(1),
            Side::Ask => tick.saturating_add(offset),
        };
        events.push(Event::LimitAdd {
            id: next_id,
            side,
            price,
            qty: 1,
        });
        live.push_back(next_id);
    }
    while let Some(id) = live.pop_front() {
        if events.len() >= n_events {
            break;
        }
        events.push(Event::Cancel { id });
    }
    events
}

#[test]
fn scenarios_are_deterministic() {
    for (name, p) in ALL {
        let a = generate(&p, 2048);
        let b = generate(&p, 2048);
        assert_eq!(a.len(), b.len(), "scenario {} length drift", name);
        assert!(a == b, "scenario {} is not deterministic", name);
    }
}

#[test]
fn scenario_workloads_run() {
    for (_, p) in ALL {
        let events = generate(&p, 4096);
        let mut state: ScenarioState<Book> =
            setup_scenario(&events, 1 << 14, SlabAllocator::System).unwrap();
        for _ in 0..(4096 + 50_000) {
            hot_scenario(&mut state);
        }
    }
}

#[test]
fn market_maker_draws_as_the_generator_does() {
    for (name, p) in ALL {
        for n in [0, 3, 40, 2048] {
            assert!(
                generate(&p, n) == generate_by_hand(&p, n),
                "scenario {} differs over {} events",
                name,
                n
            );
        }
    }
}

#[test]
fn scenario_streams_end_with_nothing_open() {
    for (name, p) in ALL {
        let events = generate(&p, 2048);
        assert!(events.len() <= 2048);
        let mut open: Vec<u64> = Vec::new();
        for e in &events {
            match *e {
                Event::LimitAdd { id, .. } => {
                    assert!(!open.contains(&id));
                    open.push(id);
                }
                Event::Cancel { id } => {
                    assert_eq!(open.first(), Some(&id));
                    open.remove(0);
                }
                Event::Market { qty, .. } => assert_eq!(qty, 1),
            }
        }
        assert!(open.is_empty(), "scenario {} leaves {:?} open", name, open);

        let mut state: ScenarioState<Book> =
            setup_scenario(&events, 1 << 10, SlabAllocator::System).unwrap();
        for _ in 0..events.len() {
            hot_scenario(&mut state);
        }
        assert_eq!(state.idx, 0);
        for side in [Side::Bid, Side::Ask] {
            let r = state
                .harness
                .book
                .add_market_order(side, 1_000_000, MarketOrderMode::ImmediateOrCancel)
                .unwrap();
            assert_eq!(r.remaining, 1_000_000);
        }
    }
}

#[test]
fn market_maker_without_depth_keeps_one_quote() {
    let mut maker = Maker::new(4, 0, 3);
    assert!(maker.wants_more());
    assert!(maker.rotate());
    maker.place(2, true, 3);
    assert!(maker.rotate());
    maker.place(u64::MAX - 1, false, 3);
    assert!(maker.wants_more());
    maker.aggress_on(false);
    assert!(!maker.wants_more());
    assert_eq!(
        maker.finish(),
        vec![
            Event::LimitAdd {
                id: 100_001,
                side: Side::Bid,
                price: 1,
                qty: 1
            },
            Event::Cancel { id: 100_001 },
            Event::LimitAdd {
                id: 100_002,
                side: Side::Ask,
                price: u64::MAX,
                qty: 1
            },
            Event::Market {
                side: Side::Ask,
                qty: 1,
                mode: MarketOrderMode::ImmediateOrCancel
            },
        ]
    );
}

#[test]
fn events_become_operations() {
    let ops = [
        event_to_op(Event::LimitAdd {
            id: 7,
            side: Side::Ask,
            price: 101,
            qty: 3,
        }),
        event_to_op(Event::Cancel { id: 7 }),
        event_to_op(Event::Market {
            side: Side::Bid,
            qty: 2,
            mode: MarketOrderMode::FillOrKill,
        }),
    ];
    let want = [
        Op::Limit {
            id: 7,
            side: Side::Ask,
            price: Price(101),
            qty: 3,
        },
        Op::Cancel { id: 7 },
        Op::Market {
            side: Side::Bid,
            qty: 2,
            mode: MarketOrderMode::FillOrKill,
        },
    ];
    assert_eq!(text(&ops), text(&want));
}

#[test]
fn uniform_population_counts_up() {
    let ops = populate_uniform_ops(2, 2, 100, 5);
    let mut want = Vec::new();
    for (id, side, price) in [
        (5, Side::Bid, 99),
        (6, Side::Bid, 99),
        (7, Side::Ask, 101),
        (8, Side::Ask, 101),
        (9, Side::Bid, 98),
        (10, Side::Bid, 98),
        (11, Side::Ask, 102),
        (12, Side::Ask, 102),
    ] {
        want.push(Op::Limit {
            id,
            side,
            price: Price(price),
            qty: 1,
        });
    }
    assert_eq!(text(&ops), text(&want));
    assert!(populate_uniform_ops(0, 4, 0, 0).is_empty());
    assert!(populate_uniform_ops(4, 0, 0, 0).is_empty());
}

#[test]
fn mixed_stream_draws_as_the_standard_generator_does() {
    let (mid, spread, start_id) = (10_000u64, 50u64, 100_000u64);
    for (seed, num, den) in [(0xC0FFEE, 1u32, 2u32), (0xCAFEBABE, 7, 10), (1, 0, 1), (2, 1, 1)] {
        let mut rng = StdRng::seed_from_u64(seed);
        let mut want = Vec::new();
        let mut next_id = start_id;
        for _ in 0..500 {
            if next_id == start_id || rng.random_bool(num as f64 / den as f64) {
                next_id += 1;
                let side = if rng.random_bool(0.5) { Side::Bid } else { Side::Ask };
                let offset = rng.random_range(1..=spread);
                let price = match side {
                    Side::Bid => Price(mid - offset),
                    Side::Ask => Price(mid + offset),
                };
                want.push(Op::Limit {
                    id: next_id,
                    side,
                    price,
                    qty: 1,
                });
            } else {
                want.push(Op::Cancel {
                    id: rng.random_range((start_id + 1)..=next_id),
                });
            }
        }
        let ops = mixed_workload_ops(seed, 500, mid, spread, num, den, start_id);
        assert_eq!(text(&ops), text(&want));
    }
}

#[test]
fn mixed_cancels_only_what_the_stream_added() {
    let ops = mixed_workload_ops(3, 400, 1_000, 10, 1, 2, 50);
    let mut added = Vec::new();
    for op in &ops {
        match *op {
            Op::Limit {
                id,
                side,
                price,
                qty,
            } => {
                added.push(id);
                assert_eq!(id, 50 + added.len() as u64);
                assert_eq!(qty, 1);
                match side {
                    Side::Bid => assert!((990..1_000).contains(&price.0)),
                    Side::Ask => assert!((1_001..=1_010).contains(&price.0)),
                }
            }
            Op::Cancel { id } => assert!(added.contains(&id)),
            Op::Market { .. } => panic!("no market orders in a mixed stream"),
        }
    }
}

#[test]
fn mixed_add_lies_on_its_own_side() {
    assert_eq!(
        text(&[mixed_add(1, true, 3, 10), mixed_add(2, false, 3, 10)]),
        text(&[
            Op::Limit {
                id: 1,
                side: Side::Bid,
                price: Price(7),
                qty: 1
            },
            Op::Limit {
                id: 2,
                side: Side::Ask,
                price: Price(13),
                qty: 1
            },
        ])
    );
}

#[test]
fn dice_follow_their_seed() {
    let mut a = Dice12::new(9);
    let mut b = StdRng::seed_from_u64(9);
    for hi in [1u64, 5, 1 << 20, u64::MAX] {
        assert_eq!(a.range(0, hi), b.random_range(0..=hi));
        assert_eq!(a.ratio(1, 3), b.random_ratio(1, 3));
    }
    let mut c = Dice8::new(9);
    let mut d = ChaCha8Rng::seed_from_u64(9);
    for hi in [1u64, 5, 1 << 20, u64::MAX] {
        assert_eq!(c.range(0, hi), d.random_range(0..=hi));
        assert_eq!(c.ratio(1, 3), d.random_ratio(1, 3));
    }
    assert!(!a.ratio(0, 5));
    assert!(a.ratio(5, 5));
    assert!(!c.ratio(0, 5));
    assert!(c.ratio(5, 5));
}

#[test]
fn deep_depth_is_a_rounded_power_law() {
    for d in 1..=3_000u64 {
        let want = ((1000.0 / (d as f64).powf(1.0)).round() as u64).max(1);
        assert_eq!(deep_orders_at(d), want);
    }
    assert_eq!(deep_orders_at(16), 63);
    assert_eq!(deep_orders_at(u64::MAX), 1);
    assert_eq!(
        deep_near_band_qty(),
        (1..=80).map(deep_orders_at).sum::<u64>()
    );
}

#[test]
fn hot_add_cancel_rests_every_other_time() {
    let w = add_cancel_workload();
    let mut s = setup_add_cancel::<Book>(w.slab_cap, SlabAllocator::System).unwrap();
    for i in 0..10 {
        assert_eq!(s.resting.is_some(), i % 2 == 1);
        hot_add_cancel(&mut s);
    }
}

#[test]
fn hot_add_spread_opens_one_level_and_drains_one() {
    let w = add_spread_workload();
    let mut s = setup_add_spread::<Book>(w.slab_cap, SlabAllocator::System).unwrap();
    assert_eq!(s.handles.len(), 128);
    for _ in 0..1_000 {
        let oldest = s.handles[0];
        hot_add_spread(&mut s);
        assert_eq!(s.handles.len(), 128);
        assert!(s.book.cancel(oldest).is_err());
    }
    assert_eq!(s.price_cursor, 1_128);
}

#[test]
fn hot_cancel_heavy_keeps_its_depth() {
    let w = cancel_heavy_workload();
    let mut s = setup_cancel_heavy::<Book>(w.slab_cap, SlabAllocator::System).unwrap();
    for _ in 0..1_000 {
        hot_cancel_heavy(&mut s);
        assert_eq!(s.handles.len(), 50);
    }
    let r = s
        .book
        .add_market_order(Side::Ask, 60, MarketOrderMode::ImmediateOrCancel)
        .unwrap();
    assert_eq!(r.remaining, 10);
}

#[test]
fn setups_refuse_allocators_that_are_not_there() {
    type Split = orderbook_2::OrderBook<orderbook_2::VecConsumer>;
    assert!(setup_mixed_warm::<Split>(1 << 10, SlabAllocator::Hugetlb).is_err());
    assert!(setup_sweep::<Split>(1 << 10, SlabAllocator::MadvHugepage).is_err());
    assert!(Harness::<Split>::new_with_alloc(8, SlabAllocator::Hugetlb).is_err());
    assert!(Harness::<Split>::new_with_alloc(8, SlabAllocator::System).is_ok());
}
