//! The engine in which callers name the orders.

use vstd::prelude::*;

use crate::errors::{BookError, BookResult};
use crate::fills::{delivered, passes};
use crate::hmap_book::{
    by_id, law_filled_ids_are_unknown, settled, slots_of, BookView, Fill, FillConsumer,
    MarketOrderMode, MarketOrderResult, OrderBook, OrderId, Price, Side, Ticket, VecConsumer,
};
use crate::laws::{
    law_add_then_cancel_restores, law_filled_or_still_there, law_market_fills_what_there_is,
    law_resting_adds_quantity, lemma_level_within_total,
};
use crate::model::{
    best, holds, lemma_best_exists, lemma_holds_with_lot, lemma_sweep_leaves, lemma_without,
    rests_at, sound, sweep, total, Levels, Lot,
};
use crate::promises::trades::{
    ahead, leavings, lemma_leavings, lemma_new_name, lemma_places, lemma_tallied, placed, tally,
};
use crate::room::{crowd, lemma_crowd_swept, lemma_crowd_with_lot, lemma_crowd_without};

verus! {

/// Fills as a consumer records them.
spec fn records(fills: Seq<Lot<OrderId>>) -> Seq<Fill> {
    fills.map_values(|l: Lot<OrderId>| Fill { resting_id: l.id, quantity: l.quantity })
}

proof fn lemma_recorded_upto(states: Seq<VecConsumer>, fills: Seq<Lot<OrderId>>, n: nat)
    requires
        passes(states, fills),
        n <= fills.len(),
    ensures
        states[n as int].fills@ == states[0].fills@ + records(fills).take(n as int),
    decreases n,
{
    let all = records(fills);
    if n == 0 {
        assert(states[0].fills@ + all.take(0) =~= states[0].fills@);
    } else {
        lemma_recorded_upto(states, fills, (n - 1) as nat);
        let fill = fills[n - 1];
        assert(states[n as int].fills@ == states[n - 1].fills@.push(all[n - 1]));
        assert(states[n as int].fills@ =~= states[0].fills@ + all.take(n as int));
    }
}

/// A consumer that collects fills has them all, behind the earlier ones.
proof fn lemma_recorded(pre: VecConsumer, fills: Seq<Lot<OrderId>>, post: VecConsumer)
    requires
        settled(pre, fills, post),
    ensures
        post.fills@ == pre.fills@ + records(fills),
        post.fills@.skip(pre.fills@.len() as int) == records(fills),
        post.fills@.take(pre.fills@.len() as int) == pre.fills@,
        records(fills).map_values(|f: Fill| f.quantity) == fills.map_values(
            |l: Lot<OrderId>| l.quantity,
        ),
{
    let mid = choose|mid: VecConsumer| #[trigger]
        delivered(pre, fills, mid) && VecConsumer::flush_step(mid, post);
    let states = choose|states: Seq<VecConsumer>| #[trigger]
        passes(states, fills) && states[0] == pre && states[fills.len() as int] == mid;
    lemma_recorded_upto(states, fills, fills.len());
    assert(records(fills).take(fills.len() as int) =~= records(fills));
    assert(post.fills@.skip(pre.fills@.len() as int) =~= records(fills));
    assert(post.fills@.take(pre.fills@.len() as int) =~= pre.fills@);
    assert(records(fills).map_values(|f: Fill| f.quantity) =~= fills.map_values(
        |l: Lot<OrderId>| l.quantity,
    ));
}

/// Every fill of a limit order is one of an order that rests on the other side,
/// a buy's at its price or below and a sell's at its price or above. The consumer
/// has the fills behind those of earlier orders, best price first and oldest
/// first within a price, each for no more than the order has, and each but the
/// last for all of it.
pub proof fn law_limit_order_fills_within_its_price(
    book: &mut OrderBook<VecConsumer>,
    order_id: OrderId,
    side: Side,
    price: Price,
    quantity: u64,
    r: BookResult<()>,
)
    requires
        old(book).wf(),
        call_ensures(
            OrderBook::<VecConsumer>::add_limit_order,
            (book, order_id, side, price, quantity),
            r,
        ),
    ensures
        old(book).consumer.fills@.len() <= final(book).consumer.fills@.len(),
        final(book).consumer.fills@.take(old(book).consumer.fills@.len() as int)
            == old(book).consumer.fills@,
        ({
            let theirs = match side {
                Side::Bid => old(book)@.asks,
                Side::Ask => old(book)@.bids,
            };
            let fills = final(book).consumer.fills@.skip(old(book).consumer.fills@.len() as int);
            exists|at: Seq<(u64, int)>|
                {
                    &&& #[trigger] at.len() == fills.len()
                    &&& forall|i: int|
                        0 <= i < fills.len() ==> {
                            let lot = theirs[(#[trigger] at[i]).0][at[i].1];
                            &&& theirs.contains_key(at[i].0)
                            &&& 0 <= at[i].1 < theirs[at[i].0].len()
                            &&& fills[i].resting_id == lot.id.id
                            &&& 0 < fills[i].quantity <= lot.quantity
                            &&& i < fills.len() - 1 ==> fills[i].quantity == lot.quantity
                            &&& side is Bid ==> at[i].0 <= price.0
                            &&& side is Ask ==> at[i].0 >= price.0
                        }
                    &&& forall|i: int, k: int|
                        0 <= i < k < fills.len() ==> {
                            let (p, a) = #[trigger] at[i];
                            let (q, b) = #[trigger] at[k];
                            ||| p == q && a < b
                            ||| side is Bid && p < q
                            ||| side is Ask && p > q
                        }
                }
        }),
{
    let theirs = match side {
        Side::Bid => old(book)@.asks,
        Side::Ask => old(book)@.bids,
    };
    let s = sweep(side.other(), theirs, Some(price.0), quantity);
    let fills = final(book).consumer.fills@.skip(old(book).consumer.fills@.len() as int);
    old(book).lemma_valid();
    lemma_recorded(old(book).consumer, by_id(s.fills), final(book).consumer);
    let at = lemma_places(side.other(), theirs, Some(price.0), quantity);
    assert forall|i: int| 0 <= i < fills.len() implies {
        let lot = theirs[(#[trigger] at[i]).0][at[i].1];
        &&& theirs.contains_key(at[i].0)
        &&& 0 <= at[i].1 < theirs[at[i].0].len()
        &&& fills[i].resting_id == lot.id.id
        &&& 0 < fills[i].quantity <= lot.quantity
        &&& i < fills.len() - 1 ==> fills[i].quantity == lot.quantity
        &&& side is Bid ==> at[i].0 <= price.0
        &&& side is Ask ==> at[i].0 >= price.0
    } by {
        assert(placed(side.other(), theirs, Some(price.0), s.fills, at, i));
    }
    assert forall|i: int, k: int| 0 <= i < k < fills.len() implies {
        let (p, a) = #[trigger] at[i];
        let (q, b) = #[trigger] at[k];
        ||| p == q && a < b
        ||| side is Bid && p < q
        ||| side is Ask && p > q
    } by {
        assert(ahead(side.other(), at[i], at[k]));
    }
    assert(at.len() == fills.len());
}

/// A limit order makes and loses no quantity. What its fills come to is taken
/// off the other side, and what they leave of the order rests at its price,
/// behind what rests there already, or is refused for want of a slot.
pub proof fn law_limit_order_conserves_quantity(
    book: &mut OrderBook<VecConsumer>,
    order_id: OrderId,
    side: Side,
    price: Price,
    quantity: u64,
    r: BookResult<()>,
)
    requires
        old(book).wf(),
        call_ensures(
            OrderBook::<VecConsumer>::add_limit_order,
            (book, order_id, side, price, quantity),
            r,
        ),
    ensures
        ({
            let (mine, theirs, mine_after, theirs_after) = match side {
                Side::Bid => (
                    old(book)@.bids,
                    old(book)@.asks,
                    final(book)@.bids,
                    final(book)@.asks,
                ),
                Side::Ask => (
                    old(book)@.asks,
                    old(book)@.bids,
                    final(book)@.asks,
                    final(book)@.bids,
                ),
            };
            let queue = if mine.contains_key(price.0) {
                mine[price.0]
            } else {
                Seq::empty()
            };
            let fills = final(book).consumer.fills@.skip(old(book).consumer.fills@.len() as int);
            let filled = tally(fills.map_values(|f: Fill| f.quantity));
            &&& filled <= quantity
            &&& total(theirs_after) + filled == total(theirs)
            &&& match r {
                Ok(_) => if filled == quantity {
                    mine_after == mine
                } else {
                    let after = mine_after[price.0];
                    &&& mine_after == mine.insert(price.0, queue.push(after.last()))
                    &&& after.last().id.id == order_id
                    &&& after.last().quantity == quantity - filled
                    &&& final(book)@.index.contains_key(order_id.0)
                    &&& final(book)@.index[order_id.0] == (after.last().id.slot, side, price)
                    &&& total(mine_after) + filled == total(mine) + quantity
                },
                Err(e) => {
                    &&& e == BookError::SlabFull
                    &&& filled < quantity
                    &&& mine_after == mine
                },
            }
        }),
{
    let (mine, theirs) = match side {
        Side::Bid => (old(book)@.bids, old(book)@.asks),
        Side::Ask => (old(book)@.asks, old(book)@.bids),
    };
    let s = sweep(side.other(), theirs, Some(price.0), quantity);
    old(book).lemma_valid();
    lemma_recorded(old(book).consumer, by_id(s.fills), final(book).consumer);
    lemma_tallied(side.other(), theirs, Some(price.0), quantity);
    assert(by_id(s.fills).map_values(|l: Lot<OrderId>| l.quantity) =~= s.fills.map_values(
        |l: Lot<Ticket>| l.quantity,
    ));
    if r is Ok && s.left > 0 {
        let slot = old(book)@.taken(side, Some(price.0), quantity).free[0];
        let lot = Lot { id: Ticket { slot, id: order_id }, quantity: s.left };
        law_resting_adds_quantity(mine, price.0, lot);
        let queue = if mine.contains_key(price.0) {
            mine[price.0]
        } else {
            Seq::empty()
        };
        assert(queue.push(lot).last() == lot);
    }
}

/// A limit order takes from the other side best price first, and oldest first
/// within a price. It does not touch a price while a better one is left, nor one
/// that is beyond its own. If it is not filled completely then the other side has
/// nothing left that it could trade with.
pub proof fn law_limit_order_takes_the_best_first(
    book: &mut OrderBook<VecConsumer>,
    order_id: OrderId,
    side: Side,
    price: Price,
    quantity: u64,
    r: BookResult<()>,
)
    requires
        old(book).wf(),
        call_ensures(
            OrderBook::<VecConsumer>::add_limit_order,
            (book, order_id, side, price, quantity),
            r,
        ),
    ensures
        ({
            let (theirs, after) = match side {
                Side::Bid => (old(book)@.asks, final(book)@.asks),
                Side::Ask => (old(book)@.bids, final(book)@.bids),
            };
            let fills = final(book).consumer.fills@.skip(old(book).consumer.fills@.len() as int);
            &&& forall|p: u64| #[trigger]
                after.contains_key(p) ==> {
                    let k = theirs[p].len() - after[p].len();
                    &&& theirs.contains_key(p)
                    &&& 0 < after[p].len() <= theirs[p].len()
                    &&& after[p][0].id == theirs[p][k].id
                    &&& 0 < after[p][0].quantity <= theirs[p][k].quantity
                    &&& forall|i: int|
                        0 < i < after[p].len() ==> #[trigger] after[p][i] == theirs[p][i + k]
                }
            &&& forall|p: u64, q: u64| #[trigger]
                theirs.contains_key(p) && #[trigger] after.contains_key(q) && (match side {
                    Side::Bid => q < p,
                    Side::Ask => q > p,
                }) ==> after.contains_key(p) && after[p] == theirs[p]
            &&& forall|p: u64| #[trigger]
                theirs.contains_key(p) && (match side {
                    Side::Bid => p > price.0,
                    Side::Ask => p < price.0,
                }) ==> after.contains_key(p) && after[p] == theirs[p]
            &&& tally(fills.map_values(|f: Fill| f.quantity)) < quantity ==> forall|p: u64|
                #[trigger] after.contains_key(p) ==> match side {
                    Side::Bid => p > price.0,
                    Side::Ask => p < price.0,
                }
        }),
{
    let theirs = match side {
        Side::Bid => old(book)@.asks,
        Side::Ask => old(book)@.bids,
    };
    let s = sweep(side.other(), theirs, Some(price.0), quantity);
    old(book).lemma_valid();
    lemma_recorded(old(book).consumer, by_id(s.fills), final(book).consumer);
    lemma_tallied(side.other(), theirs, Some(price.0), quantity);
    lemma_leavings(side.other(), theirs, Some(price.0), quantity);
    assert(by_id(s.fills).map_values(|l: Lot<OrderId>| l.quantity) =~= s.fills.map_values(
        |l: Lot<Ticket>| l.quantity,
    ));
    assert forall|p: u64| #[trigger] s.levels.contains_key(p) implies leavings(
        theirs,
        s.levels,
        p,
    ) by {}
}

/// A buy below every ask and a sell above every bid trade with nothing: they are
/// put to rest in full, or refused if there is no slot.
pub proof fn law_limit_order_that_does_not_cross_rests_in_full(
    book: &mut OrderBook<VecConsumer>,
    order_id: OrderId,
    side: Side,
    price: Price,
    quantity: u64,
    r: BookResult<()>,
)
    requires
        old(book).wf(),
        call_ensures(
            OrderBook::<VecConsumer>::add_limit_order,
            (book, order_id, side, price, quantity),
            r,
        ),
        quantity > 0,
        match side {
            Side::Bid => forall|p: u64| #[trigger]
                old(book)@.asks.contains_key(p) ==> price.0 < p,
            Side::Ask => forall|p: u64| #[trigger]
                old(book)@.bids.contains_key(p) ==> price.0 > p,
        },
    ensures
        final(book).consumer.fills@ == old(book).consumer.fills@,
        ({
            let (mine, theirs, mine_after, theirs_after) = match side {
                Side::Bid => (
                    old(book)@.bids,
                    old(book)@.asks,
                    final(book)@.bids,
                    final(book)@.asks,
                ),
                Side::Ask => (
                    old(book)@.asks,
                    old(book)@.bids,
                    final(book)@.asks,
                    final(book)@.bids,
                ),
            };
            let queue = if mine.contains_key(price.0) {
                mine[price.0]
            } else {
                Seq::empty()
            };
            let room = old(book)@.free.len();
            &&& theirs_after == theirs
            &&& if room > 0 {
                &&& r is Ok
                &&& mine_after == mine.insert(price.0, queue.push(mine_after[price.0].last()))
                &&& mine_after[price.0].last().id.id == order_id
                &&& mine_after[price.0].last().quantity == quantity
            } else {
                &&& r is Err
                &&& r->Err_0 == BookError::SlabFull
                &&& mine_after == mine
            }
        }),
{
    let (mine, theirs) = match side {
        Side::Bid => (old(book)@.bids, old(book)@.asks),
        Side::Ask => (old(book)@.asks, old(book)@.bids),
    };
    let s = sweep(side.other(), theirs, Some(price.0), quantity);
    old(book).lemma_valid();
    lemma_recorded(old(book).consumer, by_id(s.fills), final(book).consumer);
    lemma_best_exists(side.other(), theirs.dom());
    if let Some(p) = best(side.other(), theirs.dom()) {
        assert(theirs.contains_key(p));
    }
    assert(s.fills =~= Seq::empty());
    assert(s.done() =~= Seq::empty());
    assert(records(by_id(s.fills)) =~= Seq::empty());
    assert(slots_of(s.done()) + old(book)@.free =~= old(book)@.free);
    if r is Ok {
        let slot = old(book)@.taken(side, Some(price.0), quantity).free[0];
        let lot = Lot { id: Ticket { slot, id: order_id }, quantity };
        let queue = if mine.contains_key(price.0) {
            mine[price.0]
        } else {
            Seq::empty()
        };
        assert(queue.push(lot).last() == lot);
    }
    assert(final(book).consumer.fills@ =~= old(book).consumer.fills@);
}

/// A market order trades with the other side at any price, best price first and
/// oldest first within a price, and the consumer has its fills behind the earlier
/// ones. What they come to is what it reports as filled and what the other side
/// has lost. Its own side is left alone.
pub proof fn law_market_order_fills_at_any_price(
    book: &mut OrderBook<VecConsumer>,
    order_id: OrderId,
    side: Side,
    quantity: u64,
    mode: MarketOrderMode,
    r: BookResult<MarketOrderResult>,
)
    requires
        old(book).wf(),
        call_ensures(
            OrderBook::<VecConsumer>::add_market_order,
            (book, order_id, side, quantity, mode),
            r,
        ),
    ensures
        old(book).consumer.fills@.len() <= final(book).consumer.fills@.len(),
        final(book).consumer.fills@.take(old(book).consumer.fills@.len() as int)
            == old(book).consumer.fills@,
        r is Ok,
        ({
            let (mine, theirs, mine_after, after) = match side {
                Side::Bid => (
                    old(book)@.bids,
                    old(book)@.asks,
                    final(book)@.bids,
                    final(book)@.asks,
                ),
                Side::Ask => (
                    old(book)@.asks,
                    old(book)@.bids,
                    final(book)@.asks,
                    final(book)@.bids,
                ),
            };
            let fills = final(book).consumer.fills@.skip(old(book).consumer.fills@.len() as int);
            let filled = tally(fills.map_values(|f: Fill| f.quantity));
            &&& mine_after == mine
            &&& filled + r->Ok_0.remaining == quantity
            &&& total(after) + filled == total(theirs)
            &&& exists|at: Seq<(u64, int)>|
                {
                    &&& #[trigger] at.len() == fills.len()
                    &&& forall|i: int|
                        0 <= i < fills.len() ==> {
                            let lot = theirs[(#[trigger] at[i]).0][at[i].1];
                            &&& theirs.contains_key(at[i].0)
                            &&& 0 <= at[i].1 < theirs[at[i].0].len()
                            &&& fills[i].resting_id == lot.id.id
                            &&& 0 < fills[i].quantity <= lot.quantity
                            &&& i < fills.len() - 1 ==> fills[i].quantity == lot.quantity
                        }
                    &&& forall|i: int, k: int|
                        0 <= i < k < fills.len() ==> {
                            let (p, a) = #[trigger] at[i];
                            let (q, b) = #[trigger] at[k];
                            ||| p == q && a < b
                            ||| side is Bid && p < q
                            ||| side is Ask && p > q
                        }
                }
            &&& forall|p: u64| #[trigger]
                after.contains_key(p) ==> {
                    let k = theirs[p].len() - after[p].len();
                    &&& theirs.contains_key(p)
                    &&& 0 < after[p].len() <= theirs[p].len()
                    &&& after[p][0].id == theirs[p][k].id
                    &&& 0 < after[p][0].quantity <= theirs[p][k].quantity
                    &&& forall|i: int|
                        0 < i < after[p].len() ==> #[trigger] after[p][i] == theirs[p][i + k]
                }
            &&& forall|p: u64, q: u64| #[trigger]
                theirs.contains_key(p) && #[trigger] after.contains_key(q) && (match side {
                    Side::Bid => q < p,
                    Side::Ask => q > p,
                }) ==> after.contains_key(p) && after[p] == theirs[p]
        }),
{
    let theirs = match side {
        Side::Bid => old(book)@.asks,
        Side::Ask => old(book)@.bids,
    };
    let after = match side {
        Side::Bid => final(book)@.asks,
        Side::Ask => final(book)@.bids,
    };
    let killed = mode == MarketOrderMode::FillOrKill && total(theirs) < quantity;
    let wanted = if killed {
        0
    } else {
        quantity
    };
    let s = sweep(side.other(), theirs, None, wanted);
    let fills = final(book).consumer.fills@.skip(old(book).consumer.fills@.len() as int);
    old(book).lemma_valid();
    lemma_best_exists(side.other(), theirs.dom());
    lemma_tallied(side.other(), theirs, None, wanted);
    lemma_leavings(side.other(), theirs, None, wanted);
    assert(by_id(s.fills).map_values(|l: Lot<OrderId>| l.quantity) =~= s.fills.map_values(
        |l: Lot<Ticket>| l.quantity,
    ));
    if killed {
        assert(by_id(s.fills) =~= Seq::empty());
    }
    lemma_recorded(old(book).consumer, by_id(s.fills), final(book).consumer);
    let at = lemma_places(side.other(), theirs, None, wanted);
    assert forall|i: int| 0 <= i < fills.len() implies {
        let lot = theirs[(#[trigger] at[i]).0][at[i].1];
        &&& theirs.contains_key(at[i].0)
        &&& 0 <= at[i].1 < theirs[at[i].0].len()
        &&& fills[i].resting_id == lot.id.id
        &&& 0 < fills[i].quantity <= lot.quantity
        &&& i < fills.len() - 1 ==> fills[i].quantity == lot.quantity
    } by {
        assert(placed(side.other(), theirs, None, s.fills, at, i));
    }
    assert forall|i: int, k: int| 0 <= i < k < fills.len() implies {
        let (p, a) = #[trigger] at[i];
        let (q, b) = #[trigger] at[k];
        ||| p == q && a < b
        ||| side is Bid && p < q
        ||| side is Ask && p > q
    } by {
        assert(ahead(side.other(), at[i], at[k]));
    }
    assert(at.len() == fills.len());
    assert forall|p: u64| #[trigger] after.contains_key(p) implies leavings(
        theirs,
        after,
        p,
    ) by {
        assert(s.levels.contains_key(p));
    }
}

/// A market order that takes what it can get is left with something only if it
/// has emptied the other side. One that is to be filled or killed is filled
/// completely, or else nothing happens at all.
pub proof fn law_market_order_modes(
    book: &mut OrderBook<VecConsumer>,
    order_id: OrderId,
    side: Side,
    quantity: u64,
    mode: MarketOrderMode,
    r: BookResult<MarketOrderResult>,
)
    requires
        old(book).wf(),
        call_ensures(
            OrderBook::<VecConsumer>::add_market_order,
            (book, order_id, side, quantity, mode),
            r,
        ),
    ensures
        r is Ok,
        ({
            let (theirs, after) = match side {
                Side::Bid => (old(book)@.asks, final(book)@.asks),
                Side::Ask => (old(book)@.bids, final(book)@.bids),
            };
            match mode {
                MarketOrderMode::ImmediateOrCancel => {
                    &&& r->Ok_0.remaining > 0 ==> after == Levels::<Ticket>::empty()
                    &&& quantity <= total(theirs) ==> r->Ok_0.remaining == 0
                },
                MarketOrderMode::FillOrKill => if quantity <= total(theirs) {
                    r->Ok_0.remaining == 0
                } else {
                    &&& r->Ok_0.remaining == quantity
                    &&& final(book)@ == old(book)@
                    &&& final(book).consumer.fills@ == old(book).consumer.fills@
                },
            }
        }),
{
    let theirs = match side {
        Side::Bid => old(book)@.asks,
        Side::Ask => old(book)@.bids,
    };
    old(book).lemma_valid();
    law_market_fills_what_there_is(side.other(), theirs, quantity);
    if mode == MarketOrderMode::FillOrKill && total(theirs) < quantity {
        let none = Seq::<Lot<OrderId>>::empty();
        lemma_recorded(old(book).consumer, none, final(book).consumer);
        assert(old(book).consumer.fills@ + records(none) =~= old(book).consumer.fills@);
    }
}

/// Of two market orders for the same quantity on the same book, the one that is
/// to be filled or killed does what the other does if that is filled completely,
/// and otherwise nothing.
pub proof fn law_fill_or_kill_is_all_or_nothing(
    book: &mut OrderBook<VecConsumer>,
    other: &mut OrderBook<VecConsumer>,
    order_id: OrderId,
    side: Side,
    quantity: u64,
    r: BookResult<MarketOrderResult>,
    s: BookResult<MarketOrderResult>,
)
    requires
        old(book).wf(),
        *old(other) == *old(book),
        call_ensures(
            OrderBook::<VecConsumer>::add_market_order,
            (book, order_id, side, quantity, MarketOrderMode::FillOrKill),
            r,
        ),
        call_ensures(
            OrderBook::<VecConsumer>::add_market_order,
            (other, order_id, side, quantity, MarketOrderMode::ImmediateOrCancel),
            s,
        ),
    ensures
        r is Ok,
        s is Ok,
        if s->Ok_0.remaining == 0 {
            &&& r->Ok_0.remaining == 0
            &&& final(book)@ == final(other)@
            &&& final(book).consumer.fills@ == final(other).consumer.fills@
        } else {
            &&& r->Ok_0.remaining == quantity
            &&& final(book)@ == old(book)@
            &&& final(book).consumer.fills@ == old(book).consumer.fills@
        },
{
    let theirs = match side {
        Side::Bid => old(book)@.asks,
        Side::Ask => old(book)@.bids,
    };
    let t = sweep(side.other(), theirs, None, quantity);
    old(book).lemma_valid();
    law_market_fills_what_there_is(side.other(), theirs, quantity);
    if total(theirs) < quantity {
        let none = Seq::<Lot<OrderId>>::empty();
        lemma_recorded(old(book).consumer, none, final(book).consumer);
        assert(old(book).consumer.fills@ + records(none) =~= old(book).consumer.fills@);
    } else {
        lemma_recorded(old(book).consumer, by_id(t.fills), final(book).consumer);
        lemma_recorded(old(other).consumer, by_id(t.fills), final(other).consumer);
    }
}

/// Whatever came of a limit order, the last that its consumer sees of it is a
/// flush.
pub proof fn law_limit_order_ends_in_a_flush<C: FillConsumer>(
    book: &mut OrderBook<C>,
    order_id: OrderId,
    side: Side,
    price: Price,
    quantity: u64,
    r: BookResult<()>,
)
    requires
        call_ensures(OrderBook::<C>::add_limit_order, (book, order_id, side, price, quantity), r),
    ensures
        exists|mid: C| #[trigger] C::flush_step(mid, final(book).consumer),
{
    let s = old(book)@.taking(side, Some(price.0), quantity);
    let mid = choose|mid: C| #[trigger]
        delivered(old(book).consumer, by_id(s.fills), mid) && C::flush_step(
            mid,
            final(book).consumer,
        );
    assert(C::flush_step(mid, final(book).consumer));
}

/// Whatever came of a market order, the last that its consumer sees of it is a
/// flush.
pub proof fn law_market_order_ends_in_a_flush<C: FillConsumer>(
    book: &mut OrderBook<C>,
    order_id: OrderId,
    side: Side,
    quantity: u64,
    mode: MarketOrderMode,
    r: BookResult<MarketOrderResult>,
)
    requires
        call_ensures(OrderBook::<C>::add_market_order, (book, order_id, side, quantity, mode), r),
    ensures
        exists|mid: C| #[trigger] C::flush_step(mid, final(book).consumer),
{
    let s = old(book)@.taking(side, None, quantity);
    let none = Seq::<Lot<OrderId>>::empty();
    if settled(old(book).consumer, none, final(book).consumer) {
        let mid = choose|mid: C| #[trigger]
            delivered(old(book).consumer, none, mid) && C::flush_step(mid, final(book).consumer);
        assert(C::flush_step(mid, final(book).consumer));
    } else {
        let mid = choose|mid: C| #[trigger]
            delivered(old(book).consumer, by_id(s.fills), mid) && C::flush_step(
                mid,
                final(book).consumer,
            );
        assert(C::flush_step(mid, final(book).consumer));
    }
}

/// A cancel takes the order that goes by that id off the book and leaves all
/// others where they are. Without such an order it does nothing and says so. No
/// fill comes of it.
pub proof fn law_cancel_takes_one_order_off<C: FillConsumer>(
    book: &mut OrderBook<C>,
    order_id: OrderId,
    r: BookResult<()>,
)
    requires
        old(book).wf(),
        call_ensures(OrderBook::<C>::cancel_limit_order, (book, order_id), r),
    ensures
        final(book).consumer == old(book).consumer,
        ({
            let (bids, asks) = (old(book)@.bids, old(book)@.asks);
            let (bids_after, asks_after) = (final(book)@.bids, final(book)@.asks);
            match r {
                Ok(_) => {
                    &&& old(book)@.index.contains_key(order_id.0)
                    &&& final(book)@.index == old(book)@.index.remove(order_id.0)
                    &&& {
                        ||| asks_after == asks && exists|p: u64, j: int|
                            {
                                &&& bids.contains_key(p)
                                &&& 0 <= j < bids[p].len()
                                &&& (#[trigger] bids[p][j]).id.id == order_id
                                &&& bids[p][j].id.slot == old(book)@.index[order_id.0].0
                                &&& bids_after == if bids[p].len() == 1 {
                                    bids.remove(p)
                                } else {
                                    bids.insert(p, bids[p].remove(j))
                                }
                            }
                        ||| bids_after == bids && exists|p: u64, j: int|
                            {
                                &&& asks.contains_key(p)
                                &&& 0 <= j < asks[p].len()
                                &&& (#[trigger] asks[p][j]).id.id == order_id
                                &&& asks[p][j].id.slot == old(book)@.index[order_id.0].0
                                &&& asks_after == if asks[p].len() == 1 {
                                    asks.remove(p)
                                } else {
                                    asks.insert(p, asks[p].remove(j))
                                }
                            }
                    }
                },
                Err(e) => {
                    &&& e == BookError::OrderNotFound
                    &&& !old(book)@.index.contains_key(order_id.0)
                    &&& final(book)@ == old(book)@
                },
            }
        }),
{
    let (bids, asks) = (old(book)@.bids, old(book)@.asks);
    old(book).lemma_valid();
    if r is Ok {
        let (slot, side, price) = old(book)@.index[order_id.0];
        let t = Ticket { slot, id: order_id };
        let levels = match side {
            Side::Bid => bids,
            Side::Ask => asks,
        };
        assert(holds(levels, t));
        let (p, j) = choose|p: u64, j: int| rests_at(levels, p, j, t);
        assert(rests_at(levels, p, j, t));
        assert(levels[p][j].id == t);
        lemma_without(levels, p, j, t);
    }
}

/// An order that has been put to rest can be cancelled by its id, and then its
/// own side is as it was before it. An id that has been cancelled is unknown.
pub proof fn law_rested_order_can_be_cancelled(
    book: &mut OrderBook<VecConsumer>,
    order_id: OrderId,
    side: Side,
    price: Price,
    quantity: u64,
    later: &mut OrderBook<VecConsumer>,
    c: BookResult<()>,
    again: &mut OrderBook<VecConsumer>,
    d: BookResult<()>,
)
    requires
        old(book).wf(),
        call_ensures(
            OrderBook::<VecConsumer>::add_limit_order,
            (book, order_id, side, price, quantity),
            Ok::<(), BookError>(()),
        ),
        match side {
            Side::Bid => final(book)@.bids != old(book)@.bids,
            Side::Ask => final(book)@.asks != old(book)@.asks,
        },
        *old(later) == *final(book),
        call_ensures(OrderBook::<VecConsumer>::cancel_limit_order, (later, order_id), c),
        *old(again) == *final(later),
        call_ensures(OrderBook::<VecConsumer>::cancel_limit_order, (again, order_id), d),
    ensures
        c is Ok,
        d == Err::<(), BookError>(BookError::OrderNotFound),
        match side {
            Side::Bid => final(later)@.bids == old(book)@.bids,
            Side::Ask => final(later)@.asks == old(book)@.asks,
        },
        match side {
            Side::Bid => final(later)@.asks == final(book)@.asks,
            Side::Ask => final(later)@.bids == final(book)@.bids,
        },
{
    let mine = match side {
        Side::Bid => old(book)@.bids,
        Side::Ask => old(book)@.asks,
    };
    let theirs = match side {
        Side::Bid => old(book)@.asks,
        Side::Ask => old(book)@.bids,
    };
    let s = sweep(side.other(), theirs, Some(price.0), quantity);
    let traded = old(book)@.taken(side, Some(price.0), quantity);
    let t = Ticket { slot: traded.free[0], id: order_id };
    let lot = Lot { id: t, quantity: s.left };
    old(book).lemma_valid();
    final(book).lemma_valid();
    assert(s.left > 0);
    lemma_new_name(mine, price.0, lot);
    law_add_then_cancel_restores(mine, price.0, lot);
}

/// A new book is empty and has all its slots free, and its consumer is the one
/// that it was given.
pub proof fn law_new_book_is_empty<C: FillConsumer + Default>(
    slab_capacity: usize,
    consumer: C,
    made: OrderBook<C>,
    given: OrderBook<C>,
)
    requires
        call_ensures(OrderBook::<C>::new, (slab_capacity,), made),
        call_ensures(OrderBook::<C>::with_consumer, (slab_capacity, consumer), given),
    ensures
        made@ == given@,
        call_ensures(C::default, (), made.consumer),
        given.consumer == consumer,
        forall|p: u64|
            !(#[trigger] given@.bids.contains_key(p)) && !(
            #[trigger] given@.asks.contains_key(p)),
        given@.free.len() == slab_capacity,
{
}

/// A limit order loses no slot: an order takes one up as long as it rests, and
/// what is left of this one is refused only if there is none.
pub proof fn law_limit_order_loses_no_slot<C: FillConsumer>(
    book: &mut OrderBook<C>,
    order_id: OrderId,
    side: Side,
    price: Price,
    quantity: u64,
    r: BookResult<()>,
)
    requires
        old(book).wf(),
        call_ensures(OrderBook::<C>::add_limit_order, (book, order_id, side, price, quantity), r),
    ensures
        final(book)@.free.len() + crowd(final(book)@.bids) + crowd(final(book)@.asks)
            == old(book)@.free.len() + crowd(old(book)@.bids) + crowd(old(book)@.asks),
        r is Err ==> final(book)@.free.len() == 0,
{
    let (mine, theirs) = match side {
        Side::Bid => (old(book)@.bids, old(book)@.asks),
        Side::Ask => (old(book)@.asks, old(book)@.bids),
    };
    let s = sweep(side.other(), theirs, Some(price.0), quantity);
    old(book).lemma_valid();
    lemma_crowd_swept(side.other(), theirs, Some(price.0), quantity);
    if r is Ok && s.left > 0 {
        let slot = old(book)@.taken(side, Some(price.0), quantity).free[0];
        let id = Ticket { slot, id: order_id };
        lemma_crowd_with_lot(mine, price.0, Lot { id, quantity: s.left });
    }
}

/// A market order loses no slot: the orders that it fills completely give theirs
/// back.
pub proof fn law_market_order_loses_no_slot<C: FillConsumer>(
    book: &mut OrderBook<C>,
    order_id: OrderId,
    side: Side,
    quantity: u64,
    mode: MarketOrderMode,
    r: BookResult<MarketOrderResult>,
)
    requires
        old(book).wf(),
        call_ensures(OrderBook::<C>::add_market_order, (book, order_id, side, quantity, mode), r),
    ensures
        final(book)@.free.len() + crowd(final(book)@.bids) + crowd(final(book)@.asks)
            == old(book)@.free.len() + crowd(old(book)@.bids) + crowd(old(book)@.asks),
{
    let theirs = match side {
        Side::Bid => old(book)@.asks,
        Side::Ask => old(book)@.bids,
    };
    old(book).lemma_valid();
    lemma_crowd_swept(side.other(), theirs, None, quantity);
}

/// A cancel loses no slot: the order gives its slot back.
pub proof fn law_cancel_loses_no_slot<C: FillConsumer>(
    book: &mut OrderBook<C>,
    order_id: OrderId,
    r: BookResult<()>,
)
    requires
        old(book).wf(),
        call_ensures(OrderBook::<C>::cancel_limit_order, (book, order_id), r),
    ensures
        final(book)@.free.len() + crowd(final(book)@.bids) + crowd(final(book)@.asks)
            == old(book)@.free.len() + crowd(old(book)@.bids) + crowd(old(book)@.asks),
{
    let (bids, asks) = (old(book)@.bids, old(book)@.asks);
    old(book).lemma_valid();
    if r is Ok {
        let (slot, side, price) = old(book)@.index[order_id.0];
        let id = Ticket { slot, id: order_id };
        let levels = match side {
            Side::Bid => bids,
            Side::Ask => asks,
        };
        assert(holds(levels, id));
        let (p, j) = choose|p: u64, j: int| rests_at(levels, p, j, id);
        assert(rests_at(levels, p, j, id));
        lemma_crowd_without(levels, p, j, id);
    }
}

/// As long as the orders that rest have different ids, each of them can be
/// cancelled by its id, and that stays so: an order under an id that is not in
/// use is indexed when it comes to rest, and an order that is filled completely
/// is not indexed any more.
pub proof fn law_limit_order_keeps_ids_in_use_known<C: FillConsumer>(
    book: &mut OrderBook<C>,
    order_id: OrderId,
    side: Side,
    price: Price,
    quantity: u64,
    r: BookResult<()>,
)
    requires
        old(book).wf(),
        call_ensures(
            OrderBook::<C>::add_limit_order,
            (book, order_id, side, price, quantity),
            r,
        ),
        !old(book)@.index.contains_key(order_id.0),
        forall|p: u64, j: int|
            old(book)@.bids.contains_key(p) && 0 <= j < old(book)@.bids[p].len() ==> {
                let t = (#[trigger] old(book)@.bids[p][j]).id;
                old(book)@.index.contains_key(t.id.0) && old(book)@.index[t.id.0].0 == t.slot
            },
        forall|p: u64, j: int|
            old(book)@.asks.contains_key(p) && 0 <= j < old(book)@.asks[p].len() ==> {
                let t = (#[trigger] old(book)@.asks[p][j]).id;
                old(book)@.index.contains_key(t.id.0) && old(book)@.index[t.id.0].0 == t.slot
            },
    ensures
        forall|p: u64, j: int|
            final(book)@.bids.contains_key(p) && 0 <= j < final(book)@.bids[p].len() ==> {
                let t = (#[trigger] final(book)@.bids[p][j]).id;
                final(book)@.index.contains_key(t.id.0) && final(book)@.index[t.id.0].0 == t.slot
            },
        forall|p: u64, j: int|
            final(book)@.asks.contains_key(p) && 0 <= j < final(book)@.asks[p].len() ==> {
                let t = (#[trigger] final(book)@.asks[p][j]).id;
                final(book)@.index.contains_key(t.id.0) && final(book)@.index[t.id.0].0 == t.slot
            },
        forall|key: u64| #[trigger]
            final(book)@.index.contains_key(key) && final(book)@.index[key].1 is Bid ==> exists|
                p: u64,
                j: int,
            |
                final(book)@.bids.contains_key(p) && 0 <= j < final(book)@.bids[p].len() && (
                #[trigger] final(book)@.bids[p][j]).id == (Ticket {
                    slot: final(book)@.index[key].0,
                    id: OrderId(key),
                }),
        forall|key: u64| #[trigger]
            final(book)@.index.contains_key(key) && final(book)@.index[key].1 is Ask ==> exists|
                p: u64,
                j: int,
            |
                final(book)@.asks.contains_key(p) && 0 <= j < final(book)@.asks[p].len() && (
                #[trigger] final(book)@.asks[p][j]).id == (Ticket {
                    slot: final(book)@.index[key].0,
                    id: OrderId(key),
                }),
{
    let before = old(book)@;
    let traded = before.taken(side, Some(price.0), quantity);
    let after = final(book)@;
    old(book).lemma_valid();
    final(book).lemma_valid();
    assert(before.all_indexed()) by {
        assert forall|sd: Side, t: Ticket| #[trigger] holds(
            before.on(sd),
            t,
        ) implies before.index.contains_key(t.id.0) && before.index[t.id.0].0 == t.slot by {
            let (p, j) = choose|p: u64, j: int| rests_at(before.on(sd), p, j, t);
            assert(before.on(sd)[p][j].id == t);
        }
    }
    law_filled_ids_are_unknown(before, side, Some(price.0), quantity);
    if after != traded {
        let lot = Lot {
            id: Ticket { slot: traded.free[0], id: order_id },
            quantity: before.taking(side, Some(price.0), quantity).left,
        };
        assert(after.all_indexed()) by {
            assert forall|sd: Side, t: Ticket| #[trigger] holds(
                after.on(sd),
                t,
            ) implies after.index.contains_key(t.id.0) && after.index[t.id.0].0 == t.slot by {
                if sd == side {
                    lemma_holds_with_lot(traded.on(side), price.0, lot, t);
                }
                if t != lot.id {
                    assert(holds(traded.on(sd), t));
                }
            }
        }
    }
    assert(after.all_indexed());
    lemma_all_known(after);
}

/// What it means in places that every resting order is indexed, and every
/// indexed order rests.
proof fn lemma_all_known(v: BookView)
    requires
        v.valid(),
        v.all_indexed(),
    ensures
        forall|p: u64, j: int|
            v.bids.contains_key(p) && 0 <= j < v.bids[p].len() ==> {
                let t = (#[trigger] v.bids[p][j]).id;
                v.index.contains_key(t.id.0) && v.index[t.id.0].0 == t.slot
            },
        forall|p: u64, j: int|
            v.asks.contains_key(p) && 0 <= j < v.asks[p].len() ==> {
                let t = (#[trigger] v.asks[p][j]).id;
                v.index.contains_key(t.id.0) && v.index[t.id.0].0 == t.slot
            },
        forall|key: u64| #[trigger]
            v.index.contains_key(key) && v.index[key].1 is Bid ==> exists|
                p: u64,
                j: int,
            |
                v.bids.contains_key(p) && 0 <= j < v.bids[p].len() && (
                #[trigger] v.bids[p][j]).id == (Ticket {
                    slot: v.index[key].0,
                    id: OrderId(key),
                }),
        forall|key: u64| #[trigger]
            v.index.contains_key(key) && v.index[key].1 is Ask ==> exists|
                p: u64,
                j: int,
            |
                v.asks.contains_key(p) && 0 <= j < v.asks[p].len() && (
                #[trigger] v.asks[p][j]).id == (Ticket {
                    slot: v.index[key].0,
                    id: OrderId(key),
                }),
{
    assert forall|p: u64, j: int| v.bids.contains_key(p) && 0 <= j < v.bids[p].len() implies {
        let t = (#[trigger] v.bids[p][j]).id;
        v.index.contains_key(t.id.0) && v.index[t.id.0].0 == t.slot
    } by {
        let t = v.bids[p][j].id;
        assert(rests_at(v.bids, p, j, t));
        assert(holds(v.on(Side::Bid), t));
    }
    assert forall|p: u64, j: int| v.asks.contains_key(p) && 0 <= j < v.asks[p].len() implies {
        let t = (#[trigger] v.asks[p][j]).id;
        v.index.contains_key(t.id.0) && v.index[t.id.0].0 == t.slot
    } by {
        let t = v.asks[p][j].id;
        assert(rests_at(v.asks, p, j, t));
        assert(holds(v.on(Side::Ask), t));
    }
    assert forall|key: u64| #[trigger]
        v.index.contains_key(key) && v.index[key].1 is Bid implies exists|p: u64, j: int|
        v.bids.contains_key(p) && 0 <= j < v.bids[p].len() && (#[trigger] v.bids[p][j]).id == (Ticket {
            slot: v.index[key].0,
            id: OrderId(key),
        }) by {
        let t = Ticket { slot: v.index[key].0, id: OrderId(key) };
        assert(holds(v.bids, t));
        let (p, j) = choose|p: u64, j: int| rests_at(v.bids, p, j, t);
        assert(v.bids[p][j].id == t);
    }
    assert forall|key: u64| #[trigger]
        v.index.contains_key(key) && v.index[key].1 is Ask implies exists|p: u64, j: int|
        v.asks.contains_key(p) && 0 <= j < v.asks[p].len() && (#[trigger] v.asks[p][j]).id == (Ticket {
            slot: v.index[key].0,
            id: OrderId(key),
        }) by {
        let t = Ticket { slot: v.index[key].0, id: OrderId(key) };
        assert(holds(v.asks, t));
        let (p, j) = choose|p: u64, j: int| rests_at(v.asks, p, j, t);
        assert(v.asks[p][j].id == t);
    }
}

/// At all times every bid is below every ask, every level has orders, and every
/// order has some quantity left and a name of its own.
pub proof fn law_book_is_in_order<C: FillConsumer>(
    book: OrderBook<C>,
    p: u64,
    i: int,
    q: u64,
    j: int,
)
    requires
        book.wf(),
    ensures
        book@.bids.contains_key(p) && book@.asks.contains_key(q) ==> p < q,
        book@.bids.contains_key(p) ==> book@.bids[p].len() > 0,
        book@.asks.contains_key(p) ==> book@.asks[p].len() > 0,
        book@.bids.contains_key(p) && 0 <= i < book@.bids[p].len()
            ==> book@.bids[p][i].quantity > 0,
        book@.asks.contains_key(p) && 0 <= i < book@.asks[p].len()
            ==> book@.asks[p][i].quantity > 0,
        book@.bids.contains_key(p) && 0 <= i < book@.bids[p].len()
            && book@.bids.contains_key(q) && 0 <= j < book@.bids[q].len()
            && book@.bids[p][i].id == book@.bids[q][j].id ==> p == q && i == j,
        book@.asks.contains_key(p) && 0 <= i < book@.asks[p].len()
            && book@.asks.contains_key(q) && 0 <= j < book@.asks[q].len()
            && book@.asks[p][i].id == book@.asks[q][j].id ==> p == q && i == j,
        book@.bids.contains_key(p) && 0 <= i < book@.bids[p].len()
            && book@.asks.contains_key(q) && 0 <= j < book@.asks[q].len()
            ==> book@.bids[p][i].id != book@.asks[q][j].id,
{
    let (bids, asks) = (book@.bids, book@.asks);
    book.lemma_valid();
    if bids.contains_key(p) && 0 <= i < bids[p].len() {
        assert(rests_at(bids, p, i, bids[p][i].id));
        assert(holds(bids, bids[p][i].id));
        if bids.contains_key(q) && 0 <= j < bids[q].len() {
            assert(rests_at(bids, q, j, bids[q][j].id));
        }
    }
    if asks.contains_key(q) && 0 <= j < asks[q].len() {
        assert(rests_at(asks, q, j, asks[q][j].id));
        assert(holds(asks, asks[q][j].id));
        if asks.contains_key(p) && 0 <= i < asks[p].len() {
            assert(rests_at(asks, p, i, asks[p][i].id));
        }
    }
}

/// A limit order can be added as long as all that rests on its side and what it
/// brings can be counted together.
pub proof fn law_limit_order_is_welcome<C: FillConsumer>(
    book: &mut OrderBook<C>,
    order_id: OrderId,
    side: Side,
    price: Price,
    quantity: u64,
)
    requires
        old(book).wf(),
        match side {
            Side::Bid => total(old(book)@.bids) + quantity <= u64::MAX,
            Side::Ask => total(old(book)@.asks) + quantity <= u64::MAX,
        },
    ensures
        call_requires(OrderBook::<C>::add_limit_order, (book, order_id, side, price, quantity)),
{
    let (mine, theirs) = match side {
        Side::Bid => (old(book)@.bids, old(book)@.asks),
        Side::Ask => (old(book)@.asks, old(book)@.bids),
    };
    old(book).lemma_valid();
    lemma_level_within_total(mine, price.0);
    lemma_sweep_leaves(side.other(), theirs, Some(price.0), quantity);
}

/// An id is that of an order that a sweep fills completely exactly if such an
/// order stood in front of what is left of its queue.
proof fn lemma_forgotten(
    side: Side,
    theirs: Levels<Ticket>,
    limit: Option<u64>,
    quantity: u64,
    key: u64,
)
    requires
        sound(theirs),
    ensures
        ({
            let s = sweep(side, theirs, limit, quantity);
            s.done().map_values(|t: Ticket| t.id.0).contains(key) <==> exists|p: u64, j: int|
                {
                    &&& theirs.contains_key(p)
                    &&& 0 <= j < theirs[p].len()
                    &&& (#[trigger] theirs[p][j]).id.id == OrderId(key)
                    &&& !s.levels.contains_key(p) || j < theirs[p].len() - s.levels[p].len()
                }
        }),
{
    let s = sweep(side, theirs, limit, quantity);
    let done = s.done();
    let keys = done.map_values(|t: Ticket| t.id.0);
    law_filled_or_still_there(side, theirs, limit, quantity);
    lemma_leavings(side, theirs, limit, quantity);
    assert forall|p: u64, j: int|
        theirs.contains_key(p) && 0 <= j < theirs[p].len() implies (done.contains(
        (#[trigger] theirs[p][j]).id,
    ) <==> !s.levels.contains_key(p) || j < theirs[p].len() - s.levels[p].len()) by {
        let t = theirs[p][j].id;
        assert(rests_at(theirs, p, j, t));
        assert(holds(theirs, t));
        let k = theirs[p].len() - s.levels[p].len();
        if s.levels.contains_key(p) && j >= k {
            assert(leavings(theirs, s.levels, p));
            if j > k {
                assert(s.levels[p][j - k] == theirs[p][j - k + k]);
            }
            assert(rests_at(s.levels, p, j - k, t));
            assert(holds(s.levels, t));
        } else if holds(s.levels, t) {
            let (q, i) = choose|q: u64, i: int| rests_at(s.levels, q, i, t);
            assert(leavings(theirs, s.levels, q));
            let m = theirs[q].len() - s.levels[q].len();
            if i > 0 {
                assert(s.levels[q][i] == theirs[q][i + m]);
            }
            assert(rests_at(theirs, q, i + m, t));
        }
    }
    if keys.contains(key) {
        let i = keys.index_of(key);
        assert(done.contains(done[i]));
        assert(holds(theirs, done[i]));
        let (p, j) = choose|p: u64, j: int| rests_at(theirs, p, j, done[i]);
        assert(theirs[p][j].id.id == OrderId(key));
    }
    if exists|p: u64, j: int|
        {
            &&& theirs.contains_key(p)
            &&& 0 <= j < theirs[p].len()
            &&& (#[trigger] theirs[p][j]).id.id == OrderId(key)
            &&& !s.levels.contains_key(p) || j < theirs[p].len() - s.levels[p].len()
        } {
        let (p, j) = choose|p: u64, j: int|
            {
                &&& theirs.contains_key(p)
                &&& 0 <= j < theirs[p].len()
                &&& (#[trigger] theirs[p][j]).id.id == OrderId(key)
                &&& !s.levels.contains_key(p) || j < theirs[p].len() - s.levels[p].len()
            };
        let i = done.index_of(theirs[p][j].id);
        assert(keys[i] == key);
    }
}

/// After a limit order exactly those ids are known that were known before and
/// have had no order filled completely, each for the order that it stood for,
/// and the id of the order itself if something of it has come to rest.
pub proof fn law_limit_order_forgets_filled_ids<C: FillConsumer>(
    book: &mut OrderBook<C>,
    order_id: OrderId,
    side: Side,
    price: Price,
    quantity: u64,
    r: BookResult<()>,
    key: u64,
    mine: Levels<Ticket>,
    theirs: Levels<Ticket>,
    mine_after: Levels<Ticket>,
    after: Levels<Ticket>,
)
    requires
        old(book).wf(),
        call_ensures(
            OrderBook::<C>::add_limit_order,
            (book, order_id, side, price, quantity),
            r,
        ),
        side is Bid ==> mine == old(book)@.bids && theirs == old(book)@.asks,
        side is Ask ==> mine == old(book)@.asks && theirs == old(book)@.bids,
        side is Bid ==> mine_after == final(book)@.bids && after == final(book)@.asks,
        side is Ask ==> mine_after == final(book)@.asks && after == final(book)@.bids,
    ensures
        key == order_id.0 && mine_after != mine ==> final(book)@.index.contains_key(key),
        key != order_id.0 || mine_after == mine ==> {
            let filled = exists|p: u64, j: int|
                {
                    &&& theirs.contains_key(p)
                    &&& 0 <= j < theirs[p].len()
                    &&& (#[trigger] theirs[p][j]).id.id == OrderId(key)
                    &&& !after.contains_key(p) || j < theirs[p].len() - after[p].len()
                };
            &&& final(book)@.index.contains_key(key) <==> old(book)@.index.contains_key(key)
                && !filled
            &&& final(book)@.index.contains_key(key) ==> final(book)@.index[key]
                == old(book)@.index[key]
        },
{
    let s = sweep(side.other(), theirs, Some(price.0), quantity);
    assert(s == old(book)@.taking(side, Some(price.0), quantity));
    assert(after == s.levels);
    old(book).lemma_valid();
    lemma_forgotten(side.other(), theirs, Some(price.0), quantity, key);
    if r is Ok && s.left > 0 {
        let slot = old(book)@.taken(side, Some(price.0), quantity).free[0];
        let lot = Lot { id: Ticket { slot, id: order_id }, quantity: s.left };
        law_resting_adds_quantity(mine, price.0, lot);
    }
}

/// After a market order exactly those ids are known that were known before and
/// have had no order filled completely, each for the order that it stood for.
pub proof fn law_market_order_forgets_filled_ids<C: FillConsumer>(
    book: &mut OrderBook<C>,
    order_id: OrderId,
    side: Side,
    quantity: u64,
    mode: MarketOrderMode,
    r: BookResult<MarketOrderResult>,
    key: u64,
    theirs: Levels<Ticket>,
    after: Levels<Ticket>,
)
    requires
        old(book).wf(),
        call_ensures(
            OrderBook::<C>::add_market_order,
            (book, order_id, side, quantity, mode),
            r,
        ),
        side is Bid ==> theirs == old(book)@.asks && after == final(book)@.asks,
        side is Ask ==> theirs == old(book)@.bids && after == final(book)@.bids,
    ensures
        ({
            let filled = exists|p: u64, j: int|
                {
                    &&& theirs.contains_key(p)
                    &&& 0 <= j < theirs[p].len()
                    &&& (#[trigger] theirs[p][j]).id.id == OrderId(key)
                    &&& !after.contains_key(p) || j < theirs[p].len() - after[p].len()
                };
            &&& final(book)@.index.contains_key(key) <==> old(book)@.index.contains_key(key)
                && !filled
            &&& final(book)@.index.contains_key(key) ==> final(book)@.index[key]
                == old(book)@.index[key]
        }),
{
    let killed = mode == MarketOrderMode::FillOrKill && total(theirs) < quantity;
    let wanted = if killed {
        0
    } else {
        quantity
    };
    old(book).lemma_valid();
    lemma_best_exists(side.other(), theirs.dom());
    assert(after == sweep(side.other(), theirs, None, wanted).levels);
    lemma_forgotten(side.other(), theirs, None, wanted, key);
    let s = sweep(side.other(), theirs, None, wanted);
    if killed {
        assert(s.done().map_values(|t: Ticket| t.id.0) =~= Seq::empty());
    }
}

} // verus!
