//! Streams of operations and events, operation by operation.

use vstd::prelude::*;

use crate::dice::{range12, range8, ratio12, ratio8, Dice12, Dice8};
use crate::scenarios::{event_to_op, Event, Maker};
use crate::types::{MarketOrderMode, Price, Side};
use crate::workloads::{
    mixed_add, mixed_next, mixed_stream, mixed_workload_ops, populate_uniform_ops, Mix, Op,
};

verus! {

/// A stream that fills a book evenly goes outwards from the mid, tick by tick:
/// at each distance first the bids and then as many asks, each for quantity 1,
/// under ids that count up.
pub proof fn law_uniform_stream_goes_outwards(
    levels: u64,
    orders_per_level: u64,
    mid: u64,
    start_id: u64,
    ops: Vec<Op>,
    d: u64,
    j: u64,
)
    requires
        call_ensures(populate_uniform_ops, (levels, orders_per_level, mid, start_id), ops),
        start_id + levels * orders_per_level * 2 <= u64::MAX,
        levels <= mid,
        mid + levels <= u64::MAX,
        1 <= d <= levels,
        j < orders_per_level,
    ensures
        ops@.len() == levels * orders_per_level * 2,
        ({
            let k = (d - 1) * (2 * orders_per_level) + j;
            let m = k + orders_per_level;
            &&& 0 <= k < m < ops@.len()
            &&& ops@[k] == (Op::Limit {
                id: (start_id + k) as u64,
                side: Side::Bid,
                price: Price((mid - d) as u64),
                qty: 1,
            })
            &&& ops@[m] == (Op::Limit {
                id: (start_id + m) as u64,
                side: Side::Ask,
                price: Price((mid + d) as u64),
                qty: 1,
            })
        }),
{
    let width = 2 * orders_per_level as int;
    let k = (d - 1) * width + j;
    let m = k + orders_per_level;
    assert(levels * orders_per_level * 2 == levels * width) by (nonlinear_arith)
        requires
            width == 2 * orders_per_level as int,
    ;
    assert((d - 1) * width + width == d * width && d * width <= levels * width && (d - 1) * width
        >= 0) by (nonlinear_arith)
        requires
            1 <= d <= levels,
            width >= 0,
    ;
    vstd::arithmetic::div_mod::lemma_fundamental_div_mod_converse(k, width, d - 1, j as int);
    vstd::arithmetic::div_mod::lemma_fundamental_div_mod_converse(
        m,
        width,
        d - 1,
        j + orders_per_level,
    );
}

/// An order that is added lies the given number of ticks away from the mid, a bid
/// below it and an ask above.
pub proof fn law_added_order_lies_beside_the_mid(id: u64, bid: bool, offset: u64, mid: u64, op: Op)
    requires
        call_ensures(mixed_add, (id, bid, offset, mid), op),
        offset <= mid,
        mid + offset <= u64::MAX,
    ensures
        bid ==> op == (Op::Limit {
            id,
            side: Side::Bid,
            price: Price((mid - offset) as u64),
            qty: 1,
        }),
        !bid ==> op == (Op::Limit {
            id,
            side: Side::Ask,
            price: Price((mid + offset) as u64),
            qty: 1,
        }),
{
}

/// Where a mixed stream stands before each of its operations: how far the
/// generator has come, and the last id that was given out.
proof fn lemma_mixed_run(m: Mix, dice: Dice12, last_id: u64, n: nat) -> (run: Seq<(u128, u64)>)
    requires
        m.valid(),
        m.start_id <= last_id,
        last_id + n <= u64::MAX,
    ensures
        mixed_stream(m, dice, last_id, n).len() == n,
        run.len() == n + 1,
        run[0] == (dice.pos, last_id),
        forall|i: int|
            0 <= i < n ==> {
                let (op, after, last) = mixed_next(
                    m,
                    (Dice12 { seed: dice.seed, pos: run[i].0 }),
                    run[i].1,
                );
                &&& #[trigger] mixed_stream(m, dice, last_id, n)[i] == op
                &&& run[i + 1] == (after.pos, last)
                &&& last_id <= run[i].1 <= last_id + i
            },
    decreases n,
{
    if n == 0 {
        seq![(dice.pos, last_id)]
    } else {
        let (op, after, last) = mixed_next(m, dice, last_id);
        let rest = mixed_stream(m, after, last, (n - 1) as nat);
        let behind = lemma_mixed_run(m, after, last, (n - 1) as nat);
        let run = seq![(dice.pos, last_id)] + behind;
        let all = mixed_stream(m, dice, last_id, n);
        assert(all == seq![op] + rest);
        assert forall|i: int| 0 <= i < n implies {
            let (op, after, last) = mixed_next(
                m,
                (Dice12 { seed: dice.seed, pos: run[i].0 }),
                run[i].1,
            );
            &&& #[trigger] all[i] == op
            &&& run[i + 1] == (after.pos, last)
            &&& last_id <= run[i].1 <= last_id + i
        } by {
            if i == 0 {
                assert(run[1] == behind[0]);
            } else {
                assert(all[i] == rest[i - 1]);
                assert(run[i] == behind[i - 1]);
                assert(run[i + 1] == behind[i]);
            }
        }
        run
    }
}

/// A mixed stream is drawn operation by operation from the generator with its
/// seed. The first operation adds an order. Each later one adds an order exactly
/// if the generator, where it stands by then, draws so with the share that was
/// asked for, and otherwise cancels one of the ids given out so far, which is drawn
/// too. So are side and distance of an added order; its quantity is 1 and its id
/// the next one.
pub proof fn law_mixed_stream_follows_the_dice(
    seed: u64,
    n_ops: usize,
    mid: u64,
    spread_ticks: u64,
    add_numerator: u32,
    add_denominator: u32,
    start_id: u64,
    ops: Vec<Op>,
)
    requires
        1 <= spread_ticks <= mid,
        mid + spread_ticks <= u64::MAX,
        0 < add_denominator,
        add_numerator <= add_denominator,
        start_id + n_ops <= u64::MAX,
        call_ensures(
            mixed_workload_ops,
            (seed, n_ops, mid, spread_ticks, add_numerator, add_denominator, start_id),
            ops,
        ),
    ensures
        call_requires(
            mixed_workload_ops,
            (seed, n_ops, mid, spread_ticks, add_numerator, add_denominator, start_id),
        ),
        ops@.len() == n_ops,
        exists|at: Seq<u128>, ids: Seq<u64>|
            {
                &&& #[trigger] at.len() == n_ops + 1
                &&& #[trigger] ids.len() == n_ops + 1
                &&& at[0] == 0
                &&& ids[0] == start_id
                &&& forall|i: int|
                    0 <= i < n_ops ==> {
                        let (add, tossed) = if i == 0 {
                            (true, at[i])
                        } else {
                            ratio12(seed, at[i], add_numerator, add_denominator)
                        };
                        let (bid, sided) = ratio12(seed, tossed, 1, 2);
                        let (offset, quoted) = range12(seed, sided, 1, spread_ticks);
                        let (target, picked) = range12(
                            seed,
                            tossed,
                            (start_id + 1) as u64,
                            ids[i],
                        );
                        if add {
                            &&& #[trigger] ops@[i] == (Op::Limit {
                                id: (ids[i] + 1) as u64,
                                side: if bid {
                                    Side::Bid
                                } else {
                                    Side::Ask
                                },
                                price: Price(
                                    (if bid {
                                        mid - offset
                                    } else {
                                        mid + offset
                                    }) as u64,
                                ),
                                qty: 1,
                            })
                            &&& ids[i + 1] == ids[i] + 1
                            &&& at[i + 1] == quoted
                        } else {
                            &&& ops@[i] == (Op::Cancel { id: target })
                            &&& ids[i + 1] == ids[i]
                            &&& at[i + 1] == picked
                        }
                    }
            },
{
    let m = Mix { mid, spread_ticks, add_numerator, add_denominator, start_id };
    let dice = Dice12 { seed, pos: 0 };
    let run = lemma_mixed_run(m, dice, start_id, n_ops as nat);
    let at = Seq::new(run.len(), |i: int| run[i].0);
    let ids = Seq::new(run.len(), |i: int| run[i].1);
    assert forall|i: int| 0 <= i < n_ops implies {
        let (add, tossed) = if i == 0 {
            (true, at[i])
        } else {
            ratio12(seed, at[i], add_numerator, add_denominator)
        };
        let (bid, sided) = ratio12(seed, tossed, 1, 2);
        let (offset, quoted) = range12(seed, sided, 1, spread_ticks);
        let (target, picked) = range12(seed, tossed, (start_id + 1) as u64, ids[i]);
        if add {
            &&& #[trigger] ops@[i] == (Op::Limit {
                id: (ids[i] + 1) as u64,
                side: if bid {
                    Side::Bid
                } else {
                    Side::Ask
                },
                price: Price(
                    (if bid {
                        mid - offset
                    } else {
                        mid + offset
                    }) as u64,
                ),
                qty: 1,
            })
            &&& ids[i + 1] == ids[i] + 1
            &&& at[i + 1] == quoted
        } else {
            &&& ops@[i] == (Op::Cancel { id: target })
            &&& ids[i + 1] == ids[i]
            &&& at[i + 1] == picked
        }
    } by {
        assert(mixed_stream(m, dice, start_id, n_ops as nat)[i] == ops@[i]);
        if i > 0 {
            lemma_ids_have_been_given_out(m, seed, run, ops@, i);
        }
    }
    assert(at.len() == n_ops + 1 && ids.len() == n_ops + 1);
}

/// After the first operation some id has been given out.
proof fn lemma_ids_have_been_given_out(
    m: Mix,
    seed: u64,
    run: Seq<(u128, u64)>,
    ops: Seq<Op>,
    i: int,
)
    requires
        run.len() == ops.len() + 1,
        run[0].1 == m.start_id,
        m.start_id + ops.len() <= u64::MAX,
        forall|k: int|
            0 <= k < ops.len() ==> {
                let (op, after, last) = mixed_next(
                    m,
                    (Dice12 { seed, pos: run[k].0 }),
                    run[k].1,
                );
                &&& #[trigger] ops[k] == op
                &&& run[k + 1] == (after.pos, last)
                &&& m.start_id <= run[k].1 <= m.start_id + k
            },
        0 < i <= ops.len(),
    ensures
        run[i].1 > m.start_id,
    decreases i,
{
    let op = ops[i - 1];
    assert(run[i - 1 + 1].1 == mixed_next(
        m,
        (Dice12 { seed, pos: run[i - 1].0 }),
        run[i - 1].1,
    ).2);
    if i > 1 {
        lemma_ids_have_been_given_out(m, seed, run, ops, i - 1);
    }
}

/// Every cancel of a mixed stream names an order that the stream has added
/// before. With a share of nothing all operations but the first are cancels, and
/// with a share of all of them every one adds an order.
pub proof fn law_mixed_stream_cancels_its_own(
    seed: u64,
    n_ops: usize,
    mid: u64,
    spread_ticks: u64,
    add_numerator: u32,
    add_denominator: u32,
    start_id: u64,
    ops: Vec<Op>,
    i: int,
)
    requires
        call_ensures(
            mixed_workload_ops,
            (seed, n_ops, mid, spread_ticks, add_numerator, add_denominator, start_id),
            ops,
        ),
        0 <= i < ops@.len(),
    ensures
        match ops@[i] {
            Op::Cancel { id } => exists|j: int|
                0 <= j < i && (#[trigger] ops@[j]) is Limit && ops@[j]->Limit_id == id,
            Op::Limit { side, price, qty, .. } => {
                &&& qty == 1
                &&& side is Bid ==> mid - spread_ticks <= price.0 < mid
                &&& side is Ask ==> mid < price.0 <= mid + spread_ticks
            },
            Op::Market { .. } => false,
        },
        i > 0 && add_numerator == 0 ==> ops@[i] is Cancel,
        i == 0 || add_numerator == add_denominator ==> ops@[i] is Limit,
{
    if let Op::Cancel { id } = ops@[i] {
        let before = ops@.take(i);
        let j = choose|j: int|
            0 <= j < before.len() && (#[trigger] before[j] matches Op::Limit { id: k, .. } && k
                == id);
        assert(ops@[j] == before[j]);
    }
}

/// An event is replayed as the operation that it stands for, with every number
/// in its place.
pub proof fn law_events_are_replayed_as_they_are(e: Event, op: Op)
    requires
        call_ensures(event_to_op, (e,), op),
    ensures
        match e {
            Event::LimitAdd { id, side, price, qty } => op == (Op::Limit {
                id,
                side,
                price: Price(price),
                qty,
            }),
            Event::Cancel { id } => op == (Op::Cancel { id }),
            Event::Market { side, qty, mode } => op == (Op::Market { side, qty, mode }),
        },
{
}

/// An aggressor is a market order for quantity 1 on the side that it is given,
/// and takes what it can get. No quote comes or goes.
pub proof fn law_aggressor_takes_one(maker: &mut Maker, bid: bool)
    requires
        call_ensures(Maker::aggress_on, (maker, bid), ()),
    ensures
        final(maker)@.events == old(maker)@.events.push(
            Event::Market {
                side: if bid {
                    Side::Bid
                } else {
                    Side::Ask
                },
                qty: 1,
                mode: MarketOrderMode::ImmediateOrCancel,
            },
        ),
        final(maker)@.live == old(maker)@.live,
        final(maker)@.last_id == old(maker)@.last_id,
        final(maker)@.n_events == old(maker)@.n_events,
        final(maker)@.mm_depth == old(maker)@.mm_depth,
        final(maker)@.quote_offsets == old(maker)@.quote_offsets,
{
}

/// An aggressor whose side is drawn takes the side that an even toss gives.
pub proof fn law_aggressor_tosses_a_coin(maker: &mut Maker, dice: &mut Dice8)
    requires
        call_ensures(Maker::aggress, (maker, dice), ()),
    ensures
        final(maker)@.events == old(maker)@.events.push(
            Event::Market {
                side: if ratio8(old(dice).seed, old(dice).pos, 1, 2).0 {
                    Side::Bid
                } else {
                    Side::Ask
                },
                qty: 1,
                mode: MarketOrderMode::ImmediateOrCancel,
            },
        ),
        final(maker)@.live == old(maker)@.live,
        final(maker)@.last_id == old(maker)@.last_id,
        final(dice).seed == old(dice).seed,
        final(dice).pos == ratio8(old(dice).seed, old(dice).pos, 1, 2).1,
{
}

/// The oldest quote is cancelled if as many rest as are to rest, and otherwise
/// nothing happens.
pub proof fn law_oldest_quote_makes_room(maker: &mut Maker, r: bool)
    requires
        call_ensures(Maker::rotate, (maker,), r),
    ensures
        ({
            let (pre, post) = (old(maker)@, final(maker)@);
            &&& if pre.live.len() >= pre.mm_depth && pre.live.len() > 0 {
                &&& post.events == pre.events.push(Event::Cancel { id: pre.live[0] })
                &&& post.live == pre.live.drop_first()
            } else {
                &&& post.events == pre.events
                &&& post.live == pre.live
            }
            &&& post.last_id == pre.last_id
            &&& post.n_events == pre.n_events
            &&& post.mm_depth == pre.mm_depth
            &&& post.quote_offsets == pre.quote_offsets
            &&& r <==> post.events.len() + post.mm_depth < post.n_events
        }),
{
}

/// A quote is a limit order for quantity 1 under the next id, a bid the given
/// number of ticks below the mid but never below 1, and an ask as many above it
/// but never beyond the highest price there is. It is the newest that rests.
pub proof fn law_quote_lies_beside_the_mid(maker: &mut Maker, tick: u64, bid: bool, offset: u64)
    requires
        old(maker).wf(),
        old(maker)@.events.len() + old(maker)@.mm_depth < old(maker)@.n_events,
        call_ensures(Maker::place, (maker, tick, bid, offset), ()),
    ensures
        ({
            let (pre, post) = (old(maker)@, final(maker)@);
            let id = (pre.last_id + 1) as u64;
            let below: int = if tick - offset < 1 {
                1
            } else {
                tick - offset
            };
            let above: int = if tick + offset > u64::MAX {
                u64::MAX as int
            } else {
                tick + offset
            };
            &&& id == pre.last_id + 1
            &&& post.events == pre.events.push(
                Event::LimitAdd {
                    id,
                    side: if bid {
                        Side::Bid
                    } else {
                        Side::Ask
                    },
                    price: (if bid {
                        below
                    } else {
                        above
                    }) as u64,
                    qty: 1,
                },
            )
            &&& post.live == pre.live.push(id)
            &&& post.last_id == id
            &&& post.n_events == pre.n_events
            &&& post.mm_depth == pre.mm_depth
            &&& post.quote_offsets == pre.quote_offsets
        }),
{
    old(maker).lemma_wf();
}

/// To quote is to make room for a quote and, if there is to be another event
/// after that, to place it: on the side that an even toss gives, and as many
/// ticks away from the mid as is drawn.
pub proof fn law_quoting_makes_room_first(
    maker: &mut Maker,
    tick: u64,
    dice: &mut Dice8,
    first: &mut Maker,
    r: bool,
    then: &mut Maker,
)
    requires
        call_ensures(Maker::quote, (maker, tick, dice), ()),
        old(first)@ == old(maker)@,
        call_ensures(Maker::rotate, (first,), r),
        old(then)@ == final(first)@,
        ({
            let (bid, sided) = ratio8(old(dice).seed, old(dice).pos, 1, 2);
            let (offset, pos) = range8(old(dice).seed, sided, 1, old(maker)@.quote_offsets);
            call_ensures(Maker::place, (then, tick, bid, offset), ())
        }),
    ensures
        r ==> final(maker)@ == final(then)@,
        !r ==> final(maker)@ == final(first)@ && *final(dice) == *old(dice),
        final(dice).seed == old(dice).seed,
        r ==> final(dice).pos == range8(
            old(dice).seed,
            ratio8(old(dice).seed, old(dice).pos, 1, 2).1,
            1,
            old(maker)@.quote_offsets,
        ).1,
{
}

/// A market maker starts with no event and no quote, and the ids of its quotes
/// count up from 100001.
pub proof fn law_maker_starts_with_nothing(
    n_events: usize,
    mm_depth: usize,
    quote_offsets: u64,
    maker: Maker,
)
    requires
        call_ensures(Maker::new, (n_events, mm_depth, quote_offsets), maker),
    ensures
        maker@.events.len() == 0,
        maker@.live.len() == 0,
        maker@.last_id == 100_000,
        maker@.n_events == n_events,
        maker@.mm_depth == mm_depth,
        maker@.quote_offsets == quote_offsets,
{
}

/// There is to be another event as long as there are fewer than are to be, those
/// that are kept for cancelling aside.
pub proof fn law_maker_keeps_events_for_cancelling(maker: Maker, r: bool)
    requires
        call_ensures(Maker::wants_more, (&maker,), r),
    ensures
        r <==> maker@.events.len() + maker@.mm_depth < maker@.n_events,
{
}

} // verus!
