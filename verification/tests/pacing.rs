//! When a run looks at the clock and when it refills.

use calvera_books::pacing::{next_batch, Pace, Turn, POLL_EVERY};
use calvera_books::warm::{
    calm_market_workload, illiquid_workload, news_event_workload, opening_auction_workload,
    SCENARIO_N_EVENTS,
};

#[test]
fn clock_is_looked_at_every_4096_turns() {
    let mut pace = Pace::new(None);
    let mut polls = Vec::new();
    for n in 1..=3 * POLL_EVERY {
        let Turn { poll, refill } = pace.turn();
        assert_eq!(refill, 0);
        if poll {
            polls.push(n);
        }
    }
    assert_eq!(polls, vec![4096, 8192, 12288]);
}

#[test]
fn every_hot_call_is_prepared() {
    let mut pace = Pace::new(Some(3));
    let refills: Vec<u64> = (0..7).map(|_| pace.turn().refill).collect();
    assert_eq!(refills, vec![3, 0, 0, 3, 0, 0, 3]);
}

#[test]
fn warm_up_comes_in_batches() {
    let mut left = 1_000;
    let mut batches = Vec::new();
    while left > 0 {
        let n = next_batch(left, 400);
        batches.push(n);
        left -= n;
    }
    assert_eq!(batches, vec![400, 400, 200]);
    assert_eq!(batches.iter().sum::<u64>(), 1_000);
    assert_eq!(next_batch(0, 400), 0);
}

#[test]
fn scenario_plans_warm_up_with_one_pass() {
    let plans = [
        calm_market_workload(),
        news_event_workload(),
        illiquid_workload(),
        opening_auction_workload(),
    ];
    let names: Vec<&str> = plans.iter().map(|w| w.name).collect();
    assert_eq!(
        names,
        vec!["calm_market", "news_event", "illiquid", "opening_auction"]
    );
    for w in plans {
        assert_eq!((w.slab_cap, w.warmup_iters), (1 << 14, SCENARIO_N_EVENTS));
    }
}
