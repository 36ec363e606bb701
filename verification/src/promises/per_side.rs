//! The engine with a slab per side.

use vstd::prelude::*;

use crate::api::OrderBookApi;
use crate::errors::{BookError, BookResult};
use crate::fills::{delivered, passes};
use crate::orderbooks::orderbook_2::{
    law_cancel_reclaims_the_slot, law_cancelled_is_stale, settled, slots_of, Fill, FillConsumer,
    MarketOrderMode, MarketOrderResult, OrderBook, OrderHandle, Price, Side, SlabIndex, VecConsumer,
};
use crate::laws::{
    law_add_then_cancel_restores, law_market_fills_what_there_is, law_resting_adds_quantity,
    lemma_level_within_total,
};
use crate::model::{
    best, holds, lemma_best_exists, lemma_holds_with_lot, lemma_holds_without, lemma_sweep_leaves,
    lemma_without, rests_at, sweep, total, Levels, Lot,
};
use crate::promises::trades::{
    ahead, leavings, lemma_leavings, lemma_new_name, lemma_places, lemma_tallied, placed, tally,
};
use crate::room::{crowd, lemma_crowd_swept, lemma_crowd_with_lot, lemma_crowd_without};
use crate::types::SlabAllocator;

verus! {

/// Fills as a consumer records them.
spec fn records(fills: Seq<Lot<OrderHandle>>) -> Seq<Fill> {
    fills.map_values(|l: Lot<OrderHandle>| Fill { resting_id: l.id, quantity: l.quantity })
}

proof fn lemma_recorded_upto(states: Seq<VecConsumer>, fills: Seq<Lot<OrderHandle>>, n: nat)
    requires
        passes(states, fills),
        n <= fills.len(),
    ensures
        states[n as int].fills@ == states[0].fills@ + records(fills).take(n as int),
    decreases n,
{
    let all = records(fills);
    if n == 0 {
        assert(states[0].fills@ + all.take(0) =~= states[0].fills@);
    } else {
        lemma_recorded_upto(states, fills, (n - 1) as nat);
        let fill = fills[n - 1];
        assert(states[n as int].fills@ == states[n - 1].fills@.push(all[n - 1]));
        assert(states[n as int].fills@ =~= states[0].fills@ + all.take(n as int));
    }
}

/// A consumer that collects fills has them all, behind the earlier ones.
proof fn lemma_recorded(pre: VecConsumer, fills: Seq<Lot<OrderHandle>>, post: VecConsumer)
    requires
        settled(pre, fills, post),
    ensures
        post.fills@ == pre.fills@ + records(fills),
        post.fills@.skip(pre.fills@.len() as int) == records(fills),
        post.fills@.take(pre.fills@.len() as int) == pre.fills@,
        records(fills).map_values(|f: Fill| f.quantity) == fills.map_values(
            |l: Lot<OrderHandle>| l.quantity,
        ),
{
    let mid = choose|mid: VecConsumer| #[trigger]
        delivered(pre, fills, mid) && VecConsumer::flush_step(mid, post);
    let states = choose|states: Seq<VecConsumer>| #[trigger]
        passes(states, fills) && states[0] == pre && states[fills.len() as int] == mid;
    lemma_recorded_upto(states, fills, fills.len());
    assert(records(fills).take(fills.len() as int) =~= records(fills));
    assert(post.fills@.skip(pre.fills@.len() as int) =~= records(fills));
    assert(post.fills@.take(pre.fills@.len() as int) =~= pre.fills@);
    assert(records(fills).map_values(|f: Fill| f.quantity) =~= fills.map_values(
        |l: Lot<OrderHandle>| l.quantity,
    ));
}

/// Every fill of a limit order is one of an order that rests on the other side,
/// a buy's at its price or below and a sell's at its price or above. The consumer
/// has the fills behind those of earlier orders, best price first and oldest
/// first within a price, each for no more than the order has, and each but the
/// last for all of it.
pub proof fn law_limit_order_fills_within_its_price(
    book: &mut OrderBook<VecConsumer>,
    side: Side,
    price: Price,
    quantity: u64,
    r: BookResult<Option<OrderHandle>>,
)
    requires
        old(book).wf(),
        call_ensures(
            OrderBook::<VecConsumer>::add_limit_order,
            (book, side, price, quantity),
            r,
        ),
    ensures
        old(book).consumer.fills@.len() <= final(book).consumer.fills@.len(),
        final(book).consumer.fills@.take(old(book).consumer.fills@.len() as int)
            == old(book).consumer.fills@,
        ({
            let theirs = match side {
                Side::Bid => old(book)@.asks.levels,
                Side::Ask => old(book)@.bids.levels,
            };
            let fills = final(book).consumer.fills@.skip(old(book).consumer.fills@.len() as int);
            exists|at: Seq<(u64, int)>|
                {
                    &&& #[trigger] at.len() == fills.len()
                    &&& forall|i: int|
                        0 <= i < fills.len() ==> {
                            let lot = theirs[(#[trigger] at[i]).0][at[i].1];
                            &&& theirs.contains_key(at[i].0)
                            &&& 0 <= at[i].1 < theirs[at[i].0].len()
                            &&& fills[i].resting_id == lot.id
                            &&& 0 < fills[i].quantity <= lot.quantity
                            &&& i < fills.len() - 1 ==> fills[i].quantity == lot.quantity
                            &&& side is Bid ==> at[i].0 <= price.0
                            &&& side is Ask ==> at[i].0 >= price.0
                        }
                    &&& forall|i: int, k: int|
                        0 <= i < k < fills.len() ==> {
                            let (p, a) = #[trigger] at[i];
                            let (q, b) = #[trigger] at[k];
                            ||| p == q && a < b
                            ||| side is Bid && p < q
                            ||| side is Ask && p > q
                        }
                }
        }),
{
    let theirs = match side {
        Side::Bid => old(book)@.asks.levels,
        Side::Ask => old(book)@.bids.levels,
    };
    let s = sweep(side.other(), theirs, Some(price.0), quantity);
    let fills = final(book).consumer.fills@.skip(old(book).consumer.fills@.len() as int);
    old(book).lemma_valid();
    lemma_recorded(old(book).consumer, s.fills, final(book).consumer);
    let at = lemma_places(side.other(), theirs, Some(price.0), quantity);
    assert forall|i: int| 0 <= i < fills.len() implies {
        let lot = theirs[(#[trigger] at[i]).0][at[i].1];
        &&& theirs.contains_key(at[i].0)
        &&& 0 <= at[i].1 < theirs[at[i].0].len()
        &&& fills[i].resting_id == lot.id
        &&& 0 < fills[i].quantity <= lot.quantity
        &&& i < fills.len() - 1 ==> fills[i].quantity == lot.quantity
        &&& side is Bid ==> at[i].0 <= price.0
        &&& side is Ask ==> at[i].0 >= price.0
    } by {
        assert(placed(side.other(), theirs, Some(price.0), s.fills, at, i));
    }
    assert forall|i: int, k: int| 0 <= i < k < fills.len() implies {
        let (p, a) = #[trigger] at[i];
        let (q, b) = #[trigger] at[k];
        ||| p == q && a < b
        ||| side is Bid && p < q
        ||| side is Ask && p > q
    } by {
        assert(ahead(side.other(), at[i], at[k]));
    }
    assert(at.len() == fills.len());
}

/// A limit order makes and loses no quantity. What its fills come to is taken
/// off the other side, and what they leave of the order rests at its price,
/// behind what rests there already, or is refused for want of a slot.
pub proof fn law_limit_order_conserves_quantity(
    book: &mut OrderBook<VecConsumer>,
    side: Side,
    price: Price,
    quantity: u64,
    r: BookResult<Option<OrderHandle>>,
)
    requires
        old(book).wf(),
        call_ensures(
            OrderBook::<VecConsumer>::add_limit_order,
            (book, side, price, quantity),
            r,
        ),
    ensures
        ({
            let (mine, theirs, mine_after, theirs_after) = match side {
                Side::Bid => (
                    old(book)@.bids.levels,
                    old(book)@.asks.levels,
                    final(book)@.bids.levels,
                    final(book)@.asks.levels,
                ),
                Side::Ask => (
                    old(book)@.asks.levels,
                    old(book)@.bids.levels,
                    final(book)@.asks.levels,
                    final(book)@.bids.levels,
                ),
            };
            let queue = if mine.contains_key(price.0) {
                mine[price.0]
            } else {
                Seq::empty()
            };
            let fills = final(book).consumer.fills@.skip(old(book).consumer.fills@.len() as int);
            let filled = tally(fills.map_values(|f: Fill| f.quantity));
            &&& filled <= quantity
            &&& total(theirs_after) + filled == total(theirs)
            &&& match r {
                Ok(None) => filled == quantity && mine_after == mine,
                Ok(Some(h)) => {
                    let lot = Lot { id: h, quantity: (quantity - filled) as u64 };
                    &&& filled < quantity
                    &&& mine_after == mine.insert(price.0, queue.push(lot))
                    &&& total(mine_after) + filled == total(mine) + quantity
                },
                Err(e) => {
                    &&& e == BookError::SlabFull
                    &&& filled < quantity
                    &&& mine_after == mine
                },
            }
        }),
{
    let (mine, theirs) = match side {
        Side::Bid => (old(book)@.bids.levels, old(book)@.asks.levels),
        Side::Ask => (old(book)@.asks.levels, old(book)@.bids.levels),
    };
    let s = sweep(side.other(), theirs, Some(price.0), quantity);
    old(book).lemma_valid();
    lemma_recorded(old(book).consumer, s.fills, final(book).consumer);
    lemma_tallied(side.other(), theirs, Some(price.0), quantity);
    if let Ok(Some(h)) = r {
        law_resting_adds_quantity(mine, price.0, Lot { id: h, quantity: s.left });
    }
}

/// A limit order takes from the other side best price first, and oldest first
/// within a price. It does not touch a price while a better one is left, nor one
/// that is beyond its own. If it is not filled completely then the other side has
/// nothing left that it could trade with.
pub proof fn law_limit_order_takes_the_best_first(
    book: &mut OrderBook<VecConsumer>,
    side: Side,
    price: Price,
    quantity: u64,
    r: BookResult<Option<OrderHandle>>,
)
    requires
        old(book).wf(),
        call_ensures(
            OrderBook::<VecConsumer>::add_limit_order,
            (book, side, price, quantity),
            r,
        ),
    ensures
        ({
            let (theirs, after) = match side {
                Side::Bid => (old(book)@.asks.levels, final(book)@.asks.levels),
                Side::Ask => (old(book)@.bids.levels, final(book)@.bids.levels),
            };
            let fills = final(book).consumer.fills@.skip(old(book).consumer.fills@.len() as int);
            &&& forall|p: u64| #[trigger]
                after.contains_key(p) ==> {
                    let k = theirs[p].len() - after[p].len();
                    &&& theirs.contains_key(p)
                    &&& 0 < after[p].len() <= theirs[p].len()
                    &&& after[p][0].id == theirs[p][k].id
                    &&& 0 < after[p][0].quantity <= theirs[p][k].quantity
                    &&& forall|i: int|
                        0 < i < after[p].len() ==> #[trigger] after[p][i] == theirs[p][i + k]
                }
            &&& forall|p: u64, q: u64| #[trigger]
                theirs.contains_key(p) && #[trigger] after.contains_key(q) && (match side {
                    Side::Bid => q < p,
                    Side::Ask => q > p,
                }) ==> after.contains_key(p) && after[p] == theirs[p]
            &&& forall|p: u64| #[trigger]
                theirs.contains_key(p) && (match side {
                    Side::Bid => p > price.0,
                    Side::Ask => p < price.0,
                }) ==> after.contains_key(p) && after[p] == theirs[p]
            &&& tally(fills.map_values(|f: Fill| f.quantity)) < quantity ==> forall|p: u64|
                #[trigger] after.contains_key(p) ==> match side {
                    Side::Bid => p > price.0,
                    Side::Ask => p < price.0,
                }
        }),
{
    let theirs = match side {
        Side::Bid => old(book)@.asks.levels,
        Side::Ask => old(book)@.bids.levels,
    };
    let s = sweep(side.other(), theirs, Some(price.0), quantity);
    old(book).lemma_valid();
    lemma_recorded(old(book).consumer, s.fills, final(book).consumer);
    lemma_tallied(side.other(), theirs, Some(price.0), quantity);
    lemma_leavings(side.other(), theirs, Some(price.0), quantity);
    assert forall|p: u64| #[trigger] s.levels.contains_key(p) implies leavings(
        theirs,
        s.levels,
        p,
    ) by {}
}

/// A buy below every ask and a sell above every bid trade with nothing: they are
/// put to rest in full, or refused if there is no slot.
pub proof fn law_limit_order_that_does_not_cross_rests_in_full(
    book: &mut OrderBook<VecConsumer>,
    side: Side,
    price: Price,
    quantity: u64,
    r: BookResult<Option<OrderHandle>>,
)
    requires
        old(book).wf(),
        call_ensures(
            OrderBook::<VecConsumer>::add_limit_order,
            (book, side, price, quantity),
            r,
        ),
        quantity > 0,
        match side {
            Side::Bid => forall|p: u64| #[trigger]
                old(book)@.asks.levels.contains_key(p) ==> price.0 < p,
            Side::Ask => forall|p: u64| #[trigger]
                old(book)@.bids.levels.contains_key(p) ==> price.0 > p,
        },
    ensures
        final(book).consumer.fills@ == old(book).consumer.fills@,
        ({
            let (mine, theirs, mine_after, theirs_after) = match side {
                Side::Bid => (
                    old(book)@.bids.levels,
                    old(book)@.asks.levels,
                    final(book)@.bids.levels,
                    final(book)@.asks.levels,
                ),
                Side::Ask => (
                    old(book)@.asks.levels,
                    old(book)@.bids.levels,
                    final(book)@.asks.levels,
                    final(book)@.bids.levels,
                ),
            };
            let queue = if mine.contains_key(price.0) {
                mine[price.0]
            } else {
                Seq::empty()
            };
            let room = (match side {
                Side::Bid => old(book)@.bids.free.len(),
                Side::Ask => old(book)@.asks.free.len(),
            });
            &&& theirs_after == theirs
            &&& if room > 0 {
                &&& r is Ok
                &&& r->Ok_0 is Some
                &&& mine_after == mine.insert(
                    price.0,
                    queue.push(Lot { id: r->Ok_0->Some_0, quantity }),
                )
            } else {
                &&& r is Err
                &&& r->Err_0 == BookError::SlabFull
                &&& mine_after == mine
            }
        }),
{
    let (mine, theirs) = match side {
        Side::Bid => (old(book)@.bids.levels, old(book)@.asks.levels),
        Side::Ask => (old(book)@.asks.levels, old(book)@.bids.levels),
    };
    let s = sweep(side.other(), theirs, Some(price.0), quantity);
    old(book).lemma_valid();
    lemma_recorded(old(book).consumer, s.fills, final(book).consumer);
    lemma_best_exists(side.other(), theirs.dom());
    if let Some(p) = best(side.other(), theirs.dom()) {
        assert(theirs.contains_key(p));
    }
    assert(s.fills =~= Seq::empty());
    assert(s.done() =~= Seq::empty());
    assert(records(s.fills) =~= Seq::empty());
    assert(final(book).consumer.fills@ =~= old(book).consumer.fills@);
}

/// A market order trades with the other side at any price, best price first and
/// oldest first within a price, and the consumer has its fills behind the earlier
/// ones. What they come to is what it reports as filled and what the other side
/// has lost. Its own side is left alone.
pub proof fn law_market_order_fills_at_any_price(
    book: &mut OrderBook<VecConsumer>,
    side: Side,
    quantity: u64,
    mode: MarketOrderMode,
    r: BookResult<MarketOrderResult>,
)
    requires
        old(book).wf(),
        call_ensures(
            OrderBook::<VecConsumer>::add_market_order,
            (book, side, quantity, mode),
            r,
        ),
    ensures
        old(book).consumer.fills@.len() <= final(book).consumer.fills@.len(),
        final(book).consumer.fills@.take(old(book).consumer.fills@.len() as int)
            == old(book).consumer.fills@,
        r is Ok,
        ({
            let (mine, theirs, mine_after, after) = match side {
                Side::Bid => (
                    old(book)@.bids.levels,
                    old(book)@.asks.levels,
                    final(book)@.bids.levels,
                    final(book)@.asks.levels,
                ),
                Side::Ask => (
                    old(book)@.asks.levels,
                    old(book)@.bids.levels,
                    final(book)@.asks.levels,
                    final(book)@.bids.levels,
                ),
            };
            let fills = final(book).consumer.fills@.skip(old(book).consumer.fills@.len() as int);
            let filled = tally(fills.map_values(|f: Fill| f.quantity));
            &&& mine_after == mine
            &&& filled + r->Ok_0.remaining == quantity
            &&& total(after) + filled == total(theirs)
            &&& exists|at: Seq<(u64, int)>|
                {
                    &&& #[trigger] at.len() == fills.len()
                    &&& forall|i: int|
                        0 <= i < fills.len() ==> {
                            let lot = theirs[(#[trigger] at[i]).0][at[i].1];
                            &&& theirs.contains_key(at[i].0)
                            &&& 0 <= at[i].1 < theirs[at[i].0].len()
                            &&& fills[i].resting_id == lot.id
                            &&& 0 < fills[i].quantity <= lot.quantity
                            &&& i < fills.len() - 1 ==> fills[i].quantity == lot.quantity
                        }
                    &&& forall|i: int, k: int|
                        0 <= i < k < fills.len() ==> {
                            let (p, a) = #[trigger] at[i];
                            let (q, b) = #[trigger] at[k];
                            ||| p == q && a < b
                            ||| side is Bid && p < q
                            ||| side is Ask && p > q
                        }
                }
            &&& forall|p: u64| #[trigger]
                after.contains_key(p) ==> {
                    let k = theirs[p].len() - after[p].len();
                    &&& theirs.contains_key(p)
                    &&& 0 < after[p].len() <= theirs[p].len()
                    &&& after[p][0].id == theirs[p][k].id
                    &&& 0 < after[p][0].quantity <= theirs[p][k].quantity
                    &&& forall|i: int|
                        0 < i < after[p].len() ==> #[trigger] after[p][i] == theirs[p][i + k]
                }
            &&& forall|p: u64, q: u64| #[trigger]
                theirs.contains_key(p) && #[trigger] after.contains_key(q) && (match side {
                    Side::Bid => q < p,
                    Side::Ask => q > p,
                }) ==> after.contains_key(p) && after[p] == theirs[p]
        }),
{
    let theirs = match side {
        Side::Bid => old(book)@.asks.levels,
        Side::Ask => old(book)@.bids.levels,
    };
    let after = match side {
        Side::Bid => final(book)@.asks.levels,
        Side::Ask => final(book)@.bids.levels,
    };
    let killed = mode == MarketOrderMode::FillOrKill && total(theirs) < quantity;
    let wanted = if killed {
        0
    } else {
        quantity
    };
    let s = sweep(side.other(), theirs, None, wanted);
    let fills = final(book).consumer.fills@.skip(old(book).consumer.fills@.len() as int);
    old(book).lemma_valid();
    lemma_best_exists(side.other(), theirs.dom());
    lemma_tallied(side.other(), theirs, None, wanted);
    lemma_leavings(side.other(), theirs, None, wanted);
    if killed {
        assert(s.fills =~= Seq::empty());
    }
    lemma_recorded(old(book).consumer, s.fills, final(book).consumer);
    let at = lemma_places(side.other(), theirs, None, wanted);
    assert forall|i: int| 0 <= i < fills.len() implies {
        let lot = theirs[(#[trigger] at[i]).0][at[i].1];
        &&& theirs.contains_key(at[i].0)
        &&& 0 <= at[i].1 < theirs[at[i].0].len()
        &&& fills[i].resting_id == lot.id
        &&& 0 < fills[i].quantity <= lot.quantity
        &&& i < fills.len() - 1 ==> fills[i].quantity == lot.quantity
    } by {
        assert(placed(side.other(), theirs, None, s.fills, at, i));
    }
    assert forall|i: int, k: int| 0 <= i < k < fills.len() implies {
        let (p, a) = #[trigger] at[i];
        let (q, b) = #[trigger] at[k];
        ||| p == q && a < b
        ||| side is Bid && p < q
        ||| side is Ask && p > q
    } by {
        assert(ahead(side.other(), at[i], at[k]));
    }
    assert(at.len() == fills.len());
    assert forall|p: u64| #[trigger] after.contains_key(p) implies leavings(
        theirs,
        after,
        p,
    ) by {
        assert(s.levels.contains_key(p));
    }
}

/// A market order that takes what it can get is left with something only if it
/// has emptied the other side. One that is to be filled or killed is filled
/// completely, or else nothing happens at all.
pub proof fn law_market_order_modes(
    book: &mut OrderBook<VecConsumer>,
    side: Side,
    quantity: u64,
    mode: MarketOrderMode,
    r: BookResult<MarketOrderResult>,
)
    requires
        old(book).wf(),
        call_ensures(
            OrderBook::<VecConsumer>::add_market_order,
            (book, side, quantity, mode),
            r,
        ),
    ensures
        r is Ok,
        ({
            let (theirs, after) = match side {
                Side::Bid => (old(book)@.asks.levels, final(book)@.asks.levels),
                Side::Ask => (old(book)@.bids.levels, final(book)@.bids.levels),
            };
            match mode {
                MarketOrderMode::ImmediateOrCancel => {
                    &&& r->Ok_0.remaining > 0 ==> after == Levels::<OrderHandle>::empty()
                    &&& quantity <= total(theirs) ==> r->Ok_0.remaining == 0
                },
                MarketOrderMode::FillOrKill => if quantity <= total(theirs) {
                    r->Ok_0.remaining == 0
                } else {
                    &&& r->Ok_0.remaining == quantity
                    &&& final(book)@ == old(book)@
                    &&& final(book).consumer.fills@ == old(book).consumer.fills@
                },
            }
        }),
{
    let theirs = match side {
        Side::Bid => old(book)@.asks.levels,
        Side::Ask => old(book)@.bids.levels,
    };
    old(book).lemma_valid();
    law_market_fills_what_there_is(side.other(), theirs, quantity);
    if mode == MarketOrderMode::FillOrKill && total(theirs) < quantity {
        let none = Seq::<Lot<OrderHandle>>::empty();
        lemma_recorded(old(book).consumer, none, final(book).consumer);
        assert(old(book).consumer.fills@ + records(none) =~= old(book).consumer.fills@);
    }
}

/// Of two market orders for the same quantity on the same book, the one that is
/// to be filled or killed does what the other does if that is filled completely,
/// and otherwise nothing.
pub proof fn law_fill_or_kill_is_all_or_nothing(
    book: &mut OrderBook<VecConsumer>,
    other: &mut OrderBook<VecConsumer>,
    side: Side,
    quantity: u64,
    r: BookResult<MarketOrderResult>,
    s: BookResult<MarketOrderResult>,
)
    requires
        old(book).wf(),
        *old(other) == *old(book),
        call_ensures(
            OrderBook::<VecConsumer>::add_market_order,
            (book, side, quantity, MarketOrderMode::FillOrKill),
            r,
        ),
        call_ensures(
            OrderBook::<VecConsumer>::add_market_order,
            (other, side, quantity, MarketOrderMode::ImmediateOrCancel),
            s,
        ),
    ensures
        r is Ok,
        s is Ok,
        if s->Ok_0.remaining == 0 {
            &&& r->Ok_0.remaining == 0
            &&& final(book)@ == final(other)@
            &&& final(book).consumer.fills@ == final(other).consumer.fills@
        } else {
            &&& r->Ok_0.remaining == quantity
            &&& final(book)@ == old(book)@
            &&& final(book).consumer.fills@ == old(book).consumer.fills@
        },
{
    let theirs = match side {
        Side::Bid => old(book)@.asks.levels,
        Side::Ask => old(book)@.bids.levels,
    };
    let t = sweep(side.other(), theirs, None, quantity);
    old(book).lemma_valid();
    law_market_fills_what_there_is(side.other(), theirs, quantity);
    if total(theirs) < quantity {
        let none = Seq::<Lot<OrderHandle>>::empty();
        lemma_recorded(old(book).consumer, none, final(book).consumer);
        assert(old(book).consumer.fills@ + records(none) =~= old(book).consumer.fills@);
    } else {
        lemma_recorded(old(book).consumer, t.fills, final(book).consumer);
        lemma_recorded(old(other).consumer, t.fills, final(other).consumer);
    }
}

/// Whatever came of a limit order, the last that its consumer sees of it is a
/// flush.
pub proof fn law_limit_order_ends_in_a_flush<C: FillConsumer>(
    book: &mut OrderBook<C>,
    side: Side,
    price: Price,
    quantity: u64,
    r: BookResult<Option<OrderHandle>>,
)
    requires
        call_ensures(OrderBook::<C>::add_limit_order, (book, side, price, quantity), r),
    ensures
        exists|mid: C| #[trigger] C::flush_step(mid, final(book).consumer),
{
    let s = old(book)@.taking(side, Some(price.0), quantity);
    let mid = choose|mid: C| #[trigger]
        delivered(old(book).consumer, s.fills, mid) && C::flush_step(
            mid,
            final(book).consumer,
        );
    assert(C::flush_step(mid, final(book).consumer));
}

/// Whatever came of a market order, the last that its consumer sees of it is a
/// flush.
pub proof fn law_market_order_ends_in_a_flush<C: FillConsumer>(
    book: &mut OrderBook<C>,
    side: Side,
    quantity: u64,
    mode: MarketOrderMode,
    r: BookResult<MarketOrderResult>,
)
    requires
        call_ensures(OrderBook::<C>::add_market_order, (book, side, quantity, mode), r),
    ensures
        exists|mid: C| #[trigger] C::flush_step(mid, final(book).consumer),
{
    let s = old(book)@.taking(side, None, quantity);
    let none = Seq::<Lot<OrderHandle>>::empty();
    if settled(old(book).consumer, none, final(book).consumer) {
        let mid = choose|mid: C| #[trigger]
            delivered(old(book).consumer, none, mid) && C::flush_step(mid, final(book).consumer);
        assert(C::flush_step(mid, final(book).consumer));
    } else {
        let mid = choose|mid: C| #[trigger]
            delivered(old(book).consumer, s.fills, mid) && C::flush_step(
                mid,
                final(book).consumer,
            );
        assert(C::flush_step(mid, final(book).consumer));
    }
}

/// A cancel takes the order with that handle off the book and leaves all others
/// where they are. Without such an order it does nothing and says so. No fill
/// comes of it.
pub proof fn law_cancel_takes_one_order_off<C: FillConsumer>(
    book: &mut OrderBook<C>,
    handle: OrderHandle,
    r: BookResult<()>,
)
    requires
        old(book).wf(),
        call_ensures(OrderBook::<C>::cancel_limit_order, (book, handle), r),
    ensures
        final(book).consumer == old(book).consumer,
        ({
            let (bids, asks) = (old(book)@.bids.levels, old(book)@.asks.levels);
            let (bids_after, asks_after) = (final(book)@.bids.levels, final(book)@.asks.levels);
            match r {
                Ok(_) => {
                    ||| asks_after == asks && exists|p: u64, j: int|
                        {
                            &&& bids.contains_key(p)
                            &&& 0 <= j < bids[p].len()
                            &&& (#[trigger] bids[p][j]).id == handle
                            &&& bids_after == if bids[p].len() == 1 {
                                bids.remove(p)
                            } else {
                                bids.insert(p, bids[p].remove(j))
                            }
                        }
                    ||| bids_after == bids && exists|p: u64, j: int|
                        {
                            &&& asks.contains_key(p)
                            &&& 0 <= j < asks[p].len()
                            &&& (#[trigger] asks[p][j]).id == handle
                            &&& asks_after == if asks[p].len() == 1 {
                                asks.remove(p)
                            } else {
                                asks.insert(p, asks[p].remove(j))
                            }
                        }
                },
                Err(e) => {
                    &&& e == BookError::OrderNotFound
                    &&& bids_after == bids
                    &&& asks_after == asks
                    &&& forall|p: u64, j: int|
                        bids.contains_key(p) && 0 <= j < bids[p].len() ==> (#[trigger] bids[p][j]).id
                            != handle
                    &&& forall|p: u64, j: int|
                        asks.contains_key(p) && 0 <= j < asks[p].len() ==> (#[trigger] asks[p][j]).id
                            != handle
                },
            }
        }),
{
    let (bids, asks) = (old(book)@.bids.levels, old(book)@.asks.levels);
    old(book).lemma_valid();
    if r is Ok {
        let side = handle.half();
        let levels = match side {
            Side::Bid => bids,
            Side::Ask => asks,
        };
        let (p, j) = choose|p: u64, j: int| rests_at(levels, p, j, handle);
        assert(rests_at(levels, p, j, handle));
        assert(levels[p][j].id == handle);
        lemma_without(levels, p, j, handle);
    } else {
        assert forall|p: u64, j: int| bids.contains_key(p) && 0 <= j < bids[p].len() implies (
        #[trigger] bids[p][j]).id != handle by {
            if bids[p][j].id == handle {
                assert(rests_at(bids, p, j, handle));
                assert(holds(bids, handle));
            }
        }
        assert forall|p: u64, j: int| asks.contains_key(p) && 0 <= j < asks[p].len() implies (
        #[trigger] asks[p][j]).id != handle by {
            if asks[p][j].id == handle {
                assert(rests_at(asks, p, j, handle));
                assert(holds(asks, handle));
            }
        }
    }
}

/// An order that has been put to rest can be cancelled by the handle that came
/// back, and then its own side is as it was before it. The handle is no other
/// resting order's.
pub proof fn law_rested_order_can_be_cancelled(
    book: &mut OrderBook<VecConsumer>,
    side: Side,
    price: Price,
    quantity: u64,
    h: OrderHandle,
    later: &mut OrderBook<VecConsumer>,
    c: BookResult<()>,
)
    requires
        old(book).wf(),
        call_ensures(
            OrderBook::<VecConsumer>::add_limit_order,
            (book, side, price, quantity),
            Ok::<Option<OrderHandle>, BookError>(Some(h)),
        ),
        *old(later) == *final(book),
        call_ensures(OrderBook::<VecConsumer>::cancel_limit_order, (later, h), c),
    ensures
        c is Ok,
        match side {
            Side::Bid => final(later)@.bids.levels == old(book)@.bids.levels,
            Side::Ask => final(later)@.asks.levels == old(book)@.asks.levels,
        },
        match side {
            Side::Bid => final(later)@.asks.levels == final(book)@.asks.levels,
            Side::Ask => final(later)@.bids.levels == final(book)@.bids.levels,
        },
        forall|p: u64, j: int|
            old(book)@.bids.levels.contains_key(p) && 0 <= j < old(book)@.bids.levels[p].len()
                && side is Bid ==> (#[trigger] old(book)@.bids.levels[p][j]).id != h,
        forall|p: u64, j: int|
            old(book)@.asks.levels.contains_key(p) && 0 <= j < old(book)@.asks.levels[p].len()
                && side is Ask ==> (#[trigger] old(book)@.asks.levels[p][j]).id != h,
{
    let mine = match side {
        Side::Bid => old(book)@.bids.levels,
        Side::Ask => old(book)@.asks.levels,
    };
    let after = match side {
        Side::Bid => final(book)@.bids.levels,
        Side::Ask => final(book)@.asks.levels,
    };
    let theirs = match side {
        Side::Bid => old(book)@.asks.levels,
        Side::Ask => old(book)@.bids.levels,
    };
    let s = sweep(side.other(), theirs, Some(price.0), quantity);
    let lot = Lot { id: h, quantity: s.left };
    old(book).lemma_valid();
    final(book).lemma_valid();
    lemma_new_name(mine, price.0, lot);
    lemma_holds_with_lot(mine, price.0, lot, h);
    law_add_then_cancel_restores(mine, price.0, lot);
    assert(holds(after, h));
    assert forall|p: u64, j: int| mine.contains_key(p) && 0 <= j < mine[p].len() implies (
    #[trigger] mine[p][j]).id != h by {
        if mine[p][j].id == h {
            assert(rests_at(mine, p, j, h));
        }
    }
}

/// An order is cancelled once: a second cancel by the same handle finds nothing.
pub proof fn law_second_cancel_finds_nothing<C: FillConsumer>(
    book: &mut OrderBook<C>,
    handle: OrderHandle,
    later: &mut OrderBook<C>,
    c: BookResult<()>,
)
    requires
        old(book).wf(),
        call_ensures(
            OrderBook::<C>::cancel_limit_order,
            (book, handle),
            Ok::<(), BookError>(()),
        ),
        *old(later) == *final(book),
        call_ensures(OrderBook::<C>::cancel_limit_order, (later, handle), c),
    ensures
        c == Err::<(), BookError>(BookError::OrderNotFound),
        final(later)@ == final(book)@,
{
    let (bids, asks) = (old(book)@.bids.levels, old(book)@.asks.levels);
    old(book).lemma_valid();
    lemma_holds_without(bids, handle, handle);
    lemma_holds_without(asks, handle, handle);
}

/// A new book is empty and has all its slots free, and its consumer is the one
/// that it was given.
pub proof fn law_new_book_is_empty<C: FillConsumer + Default>(
    slab_capacity: usize,
    consumer: C,
    made: OrderBook<C>,
    given: OrderBook<C>,
)
    requires
        call_ensures(OrderBook::<C>::new, (slab_capacity,), made),
        call_ensures(OrderBook::<C>::with_consumer, (slab_capacity, consumer), given),
    ensures
        made@ == given@,
        call_ensures(C::default, (), made.consumer),
        given.consumer == consumer,
        forall|p: u64|
            !(#[trigger] given@.bids.levels.contains_key(p)) && !(
            #[trigger] given@.asks.levels.contains_key(p)),
        given@.bids.free.len() == slab_capacity as nat / 2,
        given@.asks.free.len() == slab_capacity as nat / 2,
{
}

/// A limit order loses no slot: an order takes one up as long as it rests, and
/// what is left of this one is refused only if there is none.
pub proof fn law_limit_order_loses_no_slot<C: FillConsumer>(
    book: &mut OrderBook<C>,
    side: Side,
    price: Price,
    quantity: u64,
    r: BookResult<Option<OrderHandle>>,
)
    requires
        old(book).wf(),
        call_ensures(OrderBook::<C>::add_limit_order, (book, side, price, quantity), r),
    ensures
        final(book)@.bids.free.len() + crowd(final(book)@.bids.levels) == old(book)@.bids.free.len()
            + crowd(old(book)@.bids.levels),
        final(book)@.asks.free.len() + crowd(final(book)@.asks.levels) == old(book)@.asks.free.len()
            + crowd(old(book)@.asks.levels),
        r is Err ==> match side {
            Side::Bid => final(book)@.bids.free.len() == 0,
            Side::Ask => final(book)@.asks.free.len() == 0,
        },
{
    let (mine, theirs) = match side {
        Side::Bid => (old(book)@.bids.levels, old(book)@.asks.levels),
        Side::Ask => (old(book)@.asks.levels, old(book)@.bids.levels),
    };
    let s = sweep(side.other(), theirs, Some(price.0), quantity);
    old(book).lemma_valid();
    lemma_crowd_swept(side.other(), theirs, Some(price.0), quantity);
    if let Ok(Some(h)) = r {
        lemma_crowd_with_lot(mine, price.0, Lot { id: h, quantity: s.left });
    }
}

/// A market order loses no slot: the orders that it fills completely give theirs
/// back.
pub proof fn law_market_order_loses_no_slot<C: FillConsumer>(
    book: &mut OrderBook<C>,
    side: Side,
    quantity: u64,
    mode: MarketOrderMode,
    r: BookResult<MarketOrderResult>,
)
    requires
        old(book).wf(),
        call_ensures(OrderBook::<C>::add_market_order, (book, side, quantity, mode), r),
    ensures
        final(book)@.bids.free.len() + crowd(final(book)@.bids.levels) == old(book)@.bids.free.len()
            + crowd(old(book)@.bids.levels),
        final(book)@.asks.free.len() + crowd(final(book)@.asks.levels) == old(book)@.asks.free.len()
            + crowd(old(book)@.asks.levels),
{
    let theirs = match side {
        Side::Bid => old(book)@.asks.levels,
        Side::Ask => old(book)@.bids.levels,
    };
    old(book).lemma_valid();
    lemma_crowd_swept(side.other(), theirs, None, quantity);
}

/// A cancel loses no slot: the order gives its slot back.
pub proof fn law_cancel_loses_no_slot<C: FillConsumer>(
    book: &mut OrderBook<C>,
    handle: OrderHandle,
    r: BookResult<()>,
)
    requires
        old(book).wf(),
        call_ensures(OrderBook::<C>::cancel_limit_order, (book, handle), r),
    ensures
        final(book)@.bids.free.len() + crowd(final(book)@.bids.levels) == old(book)@.bids.free.len()
            + crowd(old(book)@.bids.levels),
        final(book)@.asks.free.len() + crowd(final(book)@.asks.levels) == old(book)@.asks.free.len()
            + crowd(old(book)@.asks.levels),
{
    let (bids, asks) = (old(book)@.bids.levels, old(book)@.asks.levels);
    old(book).lemma_valid();
    if r is Ok {
        let (side, id) = (handle.half(), handle);
        let levels = match side {
            Side::Bid => bids,
            Side::Ask => asks,
        };
        assert(holds(levels, id));
        let (p, j) = choose|p: u64, j: int| rests_at(levels, p, j, id);
        assert(rests_at(levels, p, j, id));
        lemma_crowd_without(levels, p, j, id);
    }
}

/// At all times every bid is below every ask, every level has orders, and every
/// order has some quantity left and a name of its own.
pub proof fn law_book_is_in_order<C: FillConsumer>(
    book: OrderBook<C>,
    p: u64,
    i: int,
    q: u64,
    j: int,
)
    requires
        book.wf(),
    ensures
        book@.bids.levels.contains_key(p) && book@.asks.levels.contains_key(q) ==> p < q,
        book@.bids.levels.contains_key(p) ==> book@.bids.levels[p].len() > 0,
        book@.asks.levels.contains_key(p) ==> book@.asks.levels[p].len() > 0,
        book@.bids.levels.contains_key(p) && 0 <= i < book@.bids.levels[p].len()
            ==> book@.bids.levels[p][i].quantity > 0,
        book@.asks.levels.contains_key(p) && 0 <= i < book@.asks.levels[p].len()
            ==> book@.asks.levels[p][i].quantity > 0,
        book@.bids.levels.contains_key(p) && 0 <= i < book@.bids.levels[p].len()
            && book@.bids.levels.contains_key(q) && 0 <= j < book@.bids.levels[q].len()
            && book@.bids.levels[p][i].id == book@.bids.levels[q][j].id ==> p == q && i == j,
        book@.asks.levels.contains_key(p) && 0 <= i < book@.asks.levels[p].len()
            && book@.asks.levels.contains_key(q) && 0 <= j < book@.asks.levels[q].len()
            && book@.asks.levels[p][i].id == book@.asks.levels[q][j].id ==> p == q && i == j,
        book@.bids.levels.contains_key(p) && 0 <= i < book@.bids.levels[p].len()
            && book@.asks.levels.contains_key(q) && 0 <= j < book@.asks.levels[q].len()
            ==> book@.bids.levels[p][i].id != book@.asks.levels[q][j].id,
{
    let (bids, asks) = (book@.bids.levels, book@.asks.levels);
    book.lemma_valid();
    if bids.contains_key(p) && 0 <= i < bids[p].len() {
        assert(rests_at(bids, p, i, bids[p][i].id));
        assert(holds(bids, bids[p][i].id));
        if bids.contains_key(q) && 0 <= j < bids[q].len() {
            assert(rests_at(bids, q, j, bids[q][j].id));
        }
    }
    if asks.contains_key(q) && 0 <= j < asks[q].len() {
        assert(rests_at(asks, q, j, asks[q][j].id));
        assert(holds(asks, asks[q][j].id));
        if asks.contains_key(p) && 0 <= i < asks[p].len() {
            assert(rests_at(asks, p, i, asks[p][i].id));
        }
    }
}

/// The handle of an order that has been cancelled is not that of the next order
/// that comes to rest.
pub proof fn law_cancelled_handle_does_not_come_back<C: FillConsumer>(
    book: &mut OrderBook<C>,
    handle: OrderHandle,
    later: &mut OrderBook<C>,
    side: Side,
    price: Price,
    quantity: u64,
    h: OrderHandle,
)
    requires
        old(book).wf(),
        call_ensures(
            OrderBook::<C>::cancel_limit_order,
            (book, handle),
            Ok::<(), BookError>(()),
        ),
        *old(later) == *final(book),
        call_ensures(
            OrderBook::<C>::add_limit_order,
            (later, side, price, quantity),
            Ok::<Option<OrderHandle>, BookError>(Some(h)),
        ),
    ensures
        h != handle,
{
    old(book).lemma_valid();
    final(book).lemma_valid();
    let own = final(book)@.on(side);
    assert(own.free.contains(own.free[0]));
    OrderHandle::lemma_minted(side, own.free[0], own.generations[own.free[0].0 as int]);
    if side == handle.half() {
        law_cancel_reclaims_the_slot(old(book)@.on(side), side, handle);
    }
}

/// What the shared surface shows of a book is what rests in it and how many free
/// slots there are.
pub proof fn law_surface_shows_the_book<C: FillConsumer + Default>(book: OrderBook<C>)
    ensures
        book.depth().bids == book@.bids.levels,
        book.depth().asks == book@.asks.levels,
        book.depth().bid_room == book@.bids.free.len(),
        book.depth().ask_room == book@.asks.free.len(),
        !book.depth().pooled,
{
}

/// Adding a limit order through the shared surface does what the engine does:
/// the same fills come of it, the same rests, and it is refused alike.
pub proof fn law_surface_adds_limit_orders_alike(
    book: &mut OrderBook<VecConsumer>,
    other: &mut OrderBook<VecConsumer>,
    side: Side,
    price: Price,
    quantity: u64,
    r: BookResult<Option<OrderHandle>>,
    s: BookResult<Option<OrderHandle>>,
)
    requires
        old(book).wf(),
        *old(other) == *old(book),
        call_ensures(
            <OrderBook<VecConsumer> as OrderBookApi>::add_limit,
            (book, side, price, quantity),
            r,
        ),
        call_ensures(
            OrderBook::<VecConsumer>::add_limit_order,
            (other, side, price, quantity),
            s,
        ),
    ensures
        final(book).consumer.fills@ == final(other).consumer.fills@,
        r is Ok <==> s is Ok,
        r is Ok ==> (r->Ok_0 is Some <==> s->Ok_0 is Some),
        r is Err ==> r->Err_0 == s->Err_0,
        final(book)@.bids.levels.dom() == final(other)@.bids.levels.dom(),
        final(book)@.asks.levels.dom() == final(other)@.asks.levels.dom(),
        total(final(book)@.bids.levels) == total(final(other)@.bids.levels),
        total(final(book)@.asks.levels) == total(final(other)@.asks.levels),
{
    let (mine, theirs) = match side {
        Side::Bid => (old(book)@.bids.levels, old(book)@.asks.levels),
        Side::Ask => (old(book)@.asks.levels, old(book)@.bids.levels),
    };
    let t = sweep(side.other(), theirs, Some(price.0), quantity);
    old(book).lemma_valid();
    lemma_recorded(old(book).consumer, t.fills, final(book).consumer);
    lemma_recorded(old(other).consumer, t.fills, final(other).consumer);
    assert(old(book).depth().taking(side, Some(price.0), quantity) == t);
    if let Ok(Some(h)) = r {
        law_resting_adds_quantity(mine, price.0, Lot { id: h, quantity: t.left });
    }
    if let Ok(Some(h)) = s {
        law_resting_adds_quantity(mine, price.0, Lot { id: h, quantity: t.left });
    }
    assert(final(book)@.bids.levels.dom() =~= final(other)@.bids.levels.dom());
    assert(final(book)@.asks.levels.dom() =~= final(other)@.asks.levels.dom());
}

/// Adding a market order through the shared surface does what the engine does.
pub proof fn law_surface_adds_market_orders_alike(
    book: &mut OrderBook<VecConsumer>,
    other: &mut OrderBook<VecConsumer>,
    side: Side,
    quantity: u64,
    mode: MarketOrderMode,
    r: BookResult<MarketOrderResult>,
    s: BookResult<MarketOrderResult>,
)
    requires
        old(book).wf(),
        *old(other) == *old(book),
        call_ensures(
            <OrderBook<VecConsumer> as OrderBookApi>::add_market,
            (book, side, quantity, mode),
            r,
        ),
        call_ensures(
            OrderBook::<VecConsumer>::add_market_order,
            (other, side, quantity, mode),
            s,
        ),
    ensures
        r == s,
        final(book).consumer.fills@ == final(other).consumer.fills@,
        final(book)@.bids.levels == final(other)@.bids.levels,
        final(book)@.asks.levels == final(other)@.asks.levels,
{
    let theirs = match side {
        Side::Bid => old(book)@.asks.levels,
        Side::Ask => old(book)@.bids.levels,
    };
    let t = sweep(side.other(), theirs, None, quantity);
    let fills = if mode == MarketOrderMode::FillOrKill && total(theirs) < quantity {
        Seq::empty()
    } else {
        t.fills
    };
    lemma_recorded(old(book).consumer, fills, final(book).consumer);
    lemma_recorded(old(other).consumer, fills, final(other).consumer);
}

/// A limit order can be added as long as all that rests on its side and what it
/// brings can be counted together.
pub proof fn law_limit_order_is_welcome<C: FillConsumer>(
    book: &mut OrderBook<C>,
    side: Side,
    price: Price,
    quantity: u64,
)
    requires
        old(book).wf(),
        match side {
            Side::Bid => total(old(book)@.bids.levels) + quantity <= u64::MAX,
            Side::Ask => total(old(book)@.asks.levels) + quantity <= u64::MAX,
        },
    ensures
        call_requires(OrderBook::<C>::add_limit_order, (book, side, price, quantity)),
{
    let (mine, theirs) = match side {
        Side::Bid => (old(book)@.bids.levels, old(book)@.asks.levels),
        Side::Ask => (old(book)@.asks.levels, old(book)@.bids.levels),
    };
    old(book).lemma_valid();
    lemma_level_within_total(mine, price.0);
    lemma_sweep_leaves(side.other(), theirs, Some(price.0), quantity);
}

/// A resting order can be cancelled by its handle.
pub proof fn law_resting_handles_are_welcome<C: FillConsumer>(
    book: &mut OrderBook<C>,
    handle: OrderHandle,
    p: u64,
    j: int,
)
    requires
        old(book).wf(),
        ({
            let (bids, asks) = (old(book)@.bids.levels, old(book)@.asks.levels);
            ||| bids.contains_key(p) && 0 <= j < bids[p].len() && bids[p][j].id == handle
            ||| asks.contains_key(p) && 0 <= j < asks[p].len() && asks[p][j].id == handle
        }),
    ensures
        call_requires(OrderBook::<C>::cancel_limit_order, (book, handle)),
{
    let (bids, asks) = (old(book)@.bids.levels, old(book)@.asks.levels);
    old(book).lemma_valid();
    if bids.contains_key(p) && 0 <= j < bids[p].len() && bids[p][j].id == handle {
        assert(rests_at(bids, p, j, handle));
        assert(holds(bids, handle));
    } else {
        assert(rests_at(asks, p, j, handle));
        assert(holds(asks, handle));
    }
}

/// The handle of an order that has been cancelled is still one that can be asked
/// for.
pub proof fn law_cancelled_handles_are_welcome<C: FillConsumer>(
    book: &mut OrderBook<C>,
    handle: OrderHandle,
    later: &mut OrderBook<C>,
)
    requires
        old(book).wf(),
        call_ensures(
            OrderBook::<C>::cancel_limit_order,
            (book, handle),
            Ok::<(), BookError>(()),
        ),
        *old(later) == *final(book),
    ensures
        call_requires(OrderBook::<C>::cancel_limit_order, (later, handle)),
{
    old(book).lemma_valid();
    law_cancelled_is_stale(old(book)@.on(handle.half()), handle.half(), handle);
}

/// An order that comes to rest gets the slot of its side that is next in turn,
/// and its handle says which slot that is, in which generation, and on which
/// side. On the other side the slots of the orders that are filled completely
/// come back in the order in which they are filled, each in its next generation.
pub proof fn law_slots_are_taken_and_come_back_in_turn(
    book: &mut OrderBook<VecConsumer>,
    side: Side,
    price: Price,
    quantity: u64,
    r: BookResult<Option<OrderHandle>>,
)
    requires
        old(book).wf(),
        call_ensures(
            OrderBook::<VecConsumer>::add_limit_order,
            (book, side, price, quantity),
            r,
        ),
    ensures
        ({
            let (mine, theirs, mine_after, after) = match side {
                Side::Bid => (old(book)@.bids, old(book)@.asks, final(book)@.bids, final(book)@.asks),
                Side::Ask => (old(book)@.asks, old(book)@.bids, final(book)@.asks, final(book)@.bids),
            };
            let fills = final(book).consumer.fills@.skip(old(book).consumer.fills@.len() as int);
            let k = after.free.len() - theirs.free.len();
            &&& mine_after.generations == mine.generations
            &&& match r {
                Ok(Some(h)) => {
                    &&& mine.free.len() > 0
                    &&& mine_after.free == mine.free.drop_first()
                    &&& h.slot() == mine.free[0]
                    &&& h.era() == mine.generations[mine.free[0].0 as int]
                    &&& h.half() == side
                },
                _ => mine_after.free == mine.free,
            }
            &&& 0 <= k <= fills.len()
            &&& after.free.skip(k) == theirs.free
            &&& forall|i: int|
                0 <= i < k ==> #[trigger] after.free[i] == fills[i].resting_id.slot()
            &&& after.generations.len() == theirs.generations.len()
            &&& forall|n: int|
                0 <= n < theirs.generations.len() ==> (#[trigger] after.generations[n]) == (
                if after.free.take(k).contains(SlabIndex(n as u32)) {
                    if theirs.generations[n] == 0x7FFF_FFFF {
                        1
                    } else {
                        theirs.generations[n] + 1
                    }
                } else {
                    theirs.generations[n] as int
                })
        }),
{
    let (mine, theirs) = match side {
        Side::Bid => (old(book)@.bids, old(book)@.asks),
        Side::Ask => (old(book)@.asks, old(book)@.bids),
    };
    let after = match side {
        Side::Bid => final(book)@.asks,
        Side::Ask => final(book)@.bids,
    };
    let s = sweep(side.other(), theirs.levels, Some(price.0), quantity);
    old(book).lemma_valid();
    lemma_recorded(old(book).consumer, s.fills, final(book).consumer);
    lemma_sweep_leaves(side.other(), theirs.levels, Some(price.0), quantity);
    let slots = slots_of(s.done());
    assert(after.free == slots + theirs.free);
    assert(after.free.take(slots.len() as int) =~= slots);
    assert(after.free.skip(slots.len() as int) =~= theirs.free);
    assert forall|n: int| 0 <= n < theirs.generations.len() implies (
    #[trigger] after.generations[n]) == (if slots.contains(SlabIndex(n as u32)) {
        if theirs.generations[n] == 0x7FFF_FFFF {
            1
        } else {
            theirs.generations[n] + 1
        }
    } else {
        theirs.generations[n] as int
    }) by {
        assert(1 <= theirs.generations[n] <= 0x7FFF_FFFF);
    }
    if mine.free.len() > 0 {
        assert(mine.free.contains(mine.free[0]));
        OrderHandle::lemma_minted(side, mine.free[0], mine.generations[mine.free[0].0 as int]);
    }
}

/// A cancel gives the order's slot back, in its next generation, to be used next.
pub proof fn law_cancelled_slot_is_next_in_turn<C: FillConsumer>(
    book: &mut OrderBook<C>,
    handle: OrderHandle,
)
    requires
        old(book).wf(),
        call_ensures(
            OrderBook::<C>::cancel_limit_order,
            (book, handle),
            Ok::<(), BookError>(()),
        ),
    ensures
        ({
            let (own, after) = if handle.half() is Bid {
                (old(book)@.bids, final(book)@.bids)
            } else {
                (old(book)@.asks, final(book)@.asks)
            };
            let slot = handle.slot().0 as int;
            &&& after.free == seq![handle.slot()] + own.free
            &&& after.generations.len() == own.generations.len()
            &&& own.generations[slot] == handle.era()
            &&& after.generations[slot] == (if handle.era() == 0x7FFF_FFFF {
                1
            } else {
                handle.era() + 1
            })
            &&& forall|n: int|
                0 <= n < own.generations.len() && n != slot ==> #[trigger] after.generations[n]
                    == own.generations[n]
        }),
        handle.half() is Bid ==> final(book)@.asks == old(book)@.asks,
        handle.half() is Ask ==> final(book)@.bids == old(book)@.bids,
{
    old(book).lemma_valid();
    let own = old(book)@.on(handle.half());
    assert(seq![handle.slot()][0] == handle.slot());
    assert(seq![handle.slot()].contains(handle.slot()));
    assert(1 <= own.generations[handle.slot().0 as int] <= 0x7FFF_FFFF);
    let after = final(book)@.on(handle.half());
    assert forall|n: int|
        0 <= n < own.generations.len() && n != handle.slot().0 implies #[trigger] after.generations[n]
        == own.generations[n] by {
        assert(!seq![handle.slot()].contains(SlabIndex(n as u32)));
    }
}

/// A book with slots for each side has as many as were asked for, all of them
/// free, and nothing rests.
pub proof fn law_new_book_has_slots_for_each_side<C: FillConsumer>(
    bid_capacity: usize,
    ask_capacity: usize,
    consumer: C,
    book: OrderBook<C>,
)
    requires
        call_ensures(
            OrderBook::<C>::with_consumer_capacities,
            (bid_capacity, ask_capacity, consumer),
            book,
        ),
    ensures
        book.consumer == consumer,
        book@.bids.free.len() == bid_capacity,
        book@.asks.free.len() == ask_capacity,
        forall|p: u64|
            !(#[trigger] book@.bids.levels.contains_key(p)) && !(
            #[trigger] book@.asks.levels.contains_key(p)),
{
}

/// The slots of the orders that a market order fills completely come back in the
/// order in which they are filled, each in its next generation. No slot of its
/// own side is touched.
pub proof fn law_market_order_gives_slots_back_in_turn(
    book: &mut OrderBook<VecConsumer>,
    side: Side,
    quantity: u64,
    mode: MarketOrderMode,
    r: BookResult<MarketOrderResult>,
)
    requires
        old(book).wf(),
        call_ensures(
            OrderBook::<VecConsumer>::add_market_order,
            (book, side, quantity, mode),
            r,
        ),
    ensures
        ({
            let (mine, theirs, mine_after, after) = match side {
                Side::Bid => (old(book)@.bids, old(book)@.asks, final(book)@.bids, final(book)@.asks),
                Side::Ask => (old(book)@.asks, old(book)@.bids, final(book)@.asks, final(book)@.bids),
            };
            let fills = final(book).consumer.fills@.skip(old(book).consumer.fills@.len() as int);
            let k = after.free.len() - theirs.free.len();
            &&& mine_after == mine
            &&& 0 <= k <= fills.len()
            &&& after.free.skip(k) == theirs.free
            &&& forall|i: int|
                0 <= i < k ==> #[trigger] after.free[i] == fills[i].resting_id.slot()
            &&& after.generations.len() == theirs.generations.len()
            &&& forall|n: int|
                0 <= n < theirs.generations.len() ==> (#[trigger] after.generations[n]) == (
                if after.free.take(k).contains(SlabIndex(n as u32)) {
                    if theirs.generations[n] == 0x7FFF_FFFF {
                        1
                    } else {
                        theirs.generations[n] + 1
                    }
                } else {
                    theirs.generations[n] as int
                })
        }),
{
    let theirs = match side {
        Side::Bid => old(book)@.asks,
        Side::Ask => old(book)@.bids,
    };
    let after = match side {
        Side::Bid => final(book)@.asks,
        Side::Ask => final(book)@.bids,
    };
    let killed = mode == MarketOrderMode::FillOrKill && total(theirs.levels) < quantity;
    let s = sweep(side.other(), theirs.levels, None, quantity);
    let (fills, slots) = if killed {
        (Seq::empty(), Seq::empty())
    } else {
        (s.fills, slots_of(s.done()))
    };
    old(book).lemma_valid();
    lemma_recorded(old(book).consumer, fills, final(book).consumer);
    lemma_sweep_leaves(side.other(), theirs.levels, None, quantity);
    assert(after.free =~= slots + theirs.free);
    assert(after.free.take(slots.len() as int) =~= slots);
    assert(after.free.skip(slots.len() as int) =~= theirs.free);
    assert forall|n: int| 0 <= n < theirs.generations.len() implies (
    #[trigger] after.generations[n]) == (if slots.contains(SlabIndex(n as u32)) {
        if theirs.generations[n] == 0x7FFF_FFFF {
            1
        } else {
            theirs.generations[n] + 1
        }
    } else {
        theirs.generations[n] as int
    }) by {
        assert(1 <= theirs.generations[n] <= 0x7FFF_FFFF);
    }
}

/// A new book that is made through the shared surface is empty and has all its
/// slots free. With the system allocator it is always made; where another one is
/// not supported, that is what is reported.
pub proof fn law_surface_makes_an_empty_book<C: FillConsumer + Default>(
    slab_capacity: usize,
    alloc: SlabAllocator,
    book: OrderBook<C>,
    r: BookResult<OrderBook<C>>,
)
    requires
        call_ensures(<OrderBook<C> as OrderBookApi>::new, (slab_capacity,), book),
        call_ensures(
            <OrderBook<C> as OrderBookApi>::new_with_alloc,
            (slab_capacity, alloc),
            r,
        ),
    ensures
        call_ensures(C::default, (), book.consumer),
        forall|p: u64|
            !(#[trigger] book@.bids.levels.contains_key(p)) && !(
            #[trigger] book@.asks.levels.contains_key(p)),
        book@.bids.free.len() == slab_capacity as nat / 2,
        book@.asks.free.len() == slab_capacity as nat / 2,
        alloc is System <==> r is Ok,
        r is Err ==> r->Err_0 == BookError::UnsupportedAllocator,
        r is Ok ==> r->Ok_0.depth() == book.depth(),
{
    assert(book.depth().bids == Levels::<OrderHandle>::empty());
    assert(book.depth().asks == Levels::<OrderHandle>::empty());
}

/// How many slots a book can be made with, and how many operations a new one can
/// take before a generation may come round again.
pub proof fn law_surface_says_what_fits<C: FillConsumer + Default>(slab_capacity: usize)
    ensures
        <OrderBook<C> as OrderBookApi>::fits(slab_capacity) <==> 2 <= slab_capacity && slab_capacity
            / 2 <= u32::MAX,
        <OrderBook<C> as OrderBookApi>::lifetime() == 0x7FFF_FFFE,
{
}

} // verus!
