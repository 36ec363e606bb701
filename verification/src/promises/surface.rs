//! The surface that all engines share, and the harness that is written against
//! it.

use vstd::prelude::*;

use crate::api::{Depth, OrderBookApi};
use crate::errors::{BookError, BookResult};
use crate::laws::{law_market_fills_what_there_is, law_resting_adds_quantity};
use crate::model::{best, holds, lemma_best_exists, lemma_without, rests_at, sweep, total, Lot};
use crate::promises::trades::{leavings, lemma_leavings, lemma_tallied};
use crate::room::{crowd, lemma_crowd_swept, lemma_crowd_with_lot, lemma_crowd_without};
use crate::types::{MarketOrderMode, MarketOrderResult, Price, Side};
use crate::workloads::{lemma_admits, steps_through, volume, Harness, Op, Stage};

verus! {

/// What taking from one side comes to, in places and totals.
proof fn lemma_taken<H>(pre: Depth<H>, side: Side, limit: Option<u64>, qty: u64)
    requires
        pre.valid(),
    ensures
        ({
            let (mine, theirs) = match side {
                Side::Bid => (pre.bids, pre.asks),
                Side::Ask => (pre.asks, pre.bids),
            };
            let s = sweep(side.other(), theirs, limit, qty);
            let post = pre.taken(side, limit, qty);
            &&& s == pre.taking(side, limit, qty)
            &&& post.on(side) == mine
            &&& post.on(side.other()) == s.levels
            &&& total(theirs) == total(s.levels) + (qty - s.left)
            &&& s.left <= qty
            &&& forall|p: u64| #[trigger]
                s.levels.contains_key(p) ==> leavings(theirs, s.levels, p)
        }),
{
    let theirs = match side {
        Side::Bid => pre.asks,
        Side::Ask => pre.bids,
    };
    lemma_tallied(side.other(), theirs, limit, qty);
    lemma_leavings(side.other(), theirs, limit, qty);
}

/// A limit order makes and loses no quantity, whatever the engine. What goes off
/// the other side is what it trades, and the rest of it rests at its price,
/// behind what rests there already, or is refused.
pub proof fn law_limit_order_conserves_quantity<B: OrderBookApi>(
    book: &mut B,
    side: Side,
    price: Price,
    qty: u64,
    r: BookResult<Option<B::Handle>>,
)
    requires
        old(book).depth().valid(),
        call_ensures(B::add_limit, (book, side, price, qty), r),
    ensures
        ({
            let (mine, theirs, mine_after, theirs_after) = match side {
                Side::Bid => (
                    old(book).depth().bids,
                    old(book).depth().asks,
                    final(book).depth().bids,
                    final(book).depth().asks,
                ),
                Side::Ask => (
                    old(book).depth().asks,
                    old(book).depth().bids,
                    final(book).depth().asks,
                    final(book).depth().bids,
                ),
            };
            let queue = if mine.contains_key(price.0) {
                mine[price.0]
            } else {
                Seq::empty()
            };
            let filled = total(theirs) - total(theirs_after);
            &&& 0 <= filled <= qty
            &&& match r {
                Ok(None) => filled == qty && mine_after == mine,
                Ok(Some(h)) => {
                    let lot = Lot { id: h, quantity: (qty - filled) as u64 };
                    &&& filled < qty
                    &&& mine_after == mine.insert(price.0, queue.push(lot))
                    &&& total(mine_after) + filled == total(mine) + qty
                },
                Err(e) => {
                    &&& e == BookError::SlabFull
                    &&& filled < qty
                    &&& mine_after == mine
                },
            }
        }),
{
    let (mine, theirs) = match side {
        Side::Bid => (old(book).depth().bids, old(book).depth().asks),
        Side::Ask => (old(book).depth().asks, old(book).depth().bids),
    };
    lemma_taken(old(book).depth(), side, Some(price.0), qty);
    if let Ok(Some(h)) = r {
        let s = sweep(side.other(), theirs, Some(price.0), qty);
        law_resting_adds_quantity(mine, price.0, Lot { id: h, quantity: s.left });
    }
}

/// A limit order takes from the other side best price first, and oldest first
/// within a price. It does not touch a price while a better one is left, nor one
/// that is beyond its own. If it is not filled completely then the other side has
/// nothing left that it could trade with.
pub proof fn law_limit_order_takes_the_best_first<B: OrderBookApi>(
    book: &mut B,
    side: Side,
    price: Price,
    qty: u64,
    r: BookResult<Option<B::Handle>>,
)
    requires
        old(book).depth().valid(),
        call_ensures(B::add_limit, (book, side, price, qty), r),
    ensures
        ({
            let (theirs, theirs_after) = match side {
                Side::Bid => (old(book).depth().asks, final(book).depth().asks),
                Side::Ask => (old(book).depth().bids, final(book).depth().bids),
            };
            &&& forall|p: u64| #[trigger]
                theirs_after.contains_key(p) ==> {
                    let k = theirs[p].len() - theirs_after[p].len();
                    &&& theirs.contains_key(p)
                    &&& 0 < theirs_after[p].len() <= theirs[p].len()
                    &&& theirs_after[p][0].id == theirs[p][k].id
                    &&& 0 < theirs_after[p][0].quantity <= theirs[p][k].quantity
                    &&& forall|i: int|
                        0 < i < theirs_after[p].len() ==> #[trigger] theirs_after[p][i]
                            == theirs[p][i + k]
                }
            &&& forall|p: u64, q: u64| #[trigger]
                theirs.contains_key(p) && #[trigger] theirs_after.contains_key(q) && (match side {
                    Side::Bid => q < p,
                    Side::Ask => q > p,
                }) ==> theirs_after.contains_key(p) && theirs_after[p] == theirs[p]
            &&& forall|p: u64| #[trigger]
                theirs.contains_key(p) && (match side {
                    Side::Bid => p > price.0,
                    Side::Ask => p < price.0,
                }) ==> theirs_after.contains_key(p) && theirs_after[p] == theirs[p]
            &&& total(theirs) - total(theirs_after) < qty ==> forall|p: u64| #[trigger]
                theirs_after.contains_key(p) ==> match side {
                    Side::Bid => p > price.0,
                    Side::Ask => p < price.0,
                }
        }),
{
    let (mine, theirs) = match side {
        Side::Bid => (old(book).depth().bids, old(book).depth().asks),
        Side::Ask => (old(book).depth().asks, old(book).depth().bids),
    };
    let s = sweep(side.other(), theirs, Some(price.0), qty);
    lemma_taken(old(book).depth(), side, Some(price.0), qty);
    lemma_leavings(side.other(), theirs, Some(price.0), qty);
    assert forall|p: u64| #[trigger] s.levels.contains_key(p) implies leavings(
        theirs,
        s.levels,
        p,
    ) by {}
}

/// A buy below every ask and a sell above every bid trade with nothing: they are
/// put to rest in full, or refused if there is no room.
pub proof fn law_limit_order_that_does_not_cross_rests_in_full<B: OrderBookApi>(
    book: &mut B,
    side: Side,
    price: Price,
    qty: u64,
    r: BookResult<Option<B::Handle>>,
)
    requires
        old(book).depth().valid(),
        call_ensures(B::add_limit, (book, side, price, qty), r),
        qty > 0,
        match side {
            Side::Bid => forall|p: u64| #[trigger]
                old(book).depth().asks.contains_key(p) ==> price.0 < p,
            Side::Ask => forall|p: u64| #[trigger]
                old(book).depth().bids.contains_key(p) ==> price.0 > p,
        },
    ensures
        ({
            let (mine, theirs, mine_after, theirs_after) = match side {
                Side::Bid => (
                    old(book).depth().bids,
                    old(book).depth().asks,
                    final(book).depth().bids,
                    final(book).depth().asks,
                ),
                Side::Ask => (
                    old(book).depth().asks,
                    old(book).depth().bids,
                    final(book).depth().asks,
                    final(book).depth().bids,
                ),
            };
            let queue = if mine.contains_key(price.0) {
                mine[price.0]
            } else {
                Seq::empty()
            };
            let room = match side {
                Side::Bid => old(book).depth().bid_room,
                Side::Ask => old(book).depth().ask_room,
            };
            &&& theirs_after == theirs
            &&& if room > 0 {
                &&& r is Ok
                &&& r->Ok_0 is Some
                &&& mine_after == mine.insert(
                    price.0,
                    queue.push(Lot { id: r->Ok_0->Some_0, quantity: qty }),
                )
            } else {
                &&& r is Err
                &&& r->Err_0 == BookError::SlabFull
                &&& mine_after == mine
            }
        }),
{
    let (mine, theirs) = match side {
        Side::Bid => (old(book).depth().bids, old(book).depth().asks),
        Side::Ask => (old(book).depth().asks, old(book).depth().bids),
    };
    let s = sweep(side.other(), theirs, Some(price.0), qty);
    lemma_best_exists(side.other(), theirs.dom());
    if let Some(p) = best(side.other(), theirs.dom()) {
        assert(theirs.contains_key(p));
    }
    assert(s.spent == 0 && s.left == qty && s.levels == theirs);
}

/// A limit order loses no room: an order takes it up as long as it rests, and
/// what is left of this one is refused only if there is none.
pub proof fn law_limit_order_loses_no_room<B: OrderBookApi>(
    book: &mut B,
    side: Side,
    price: Price,
    qty: u64,
    r: BookResult<Option<B::Handle>>,
)
    requires
        old(book).depth().valid(),
        call_ensures(B::add_limit, (book, side, price, qty), r),
    ensures
        ({
            let (pre, post) = (old(book).depth(), final(book).depth());
            let orders = crowd(pre.bids) + crowd(pre.asks);
            let orders_after = crowd(post.bids) + crowd(post.asks);
            &&& post.pooled == pre.pooled
            &&& if pre.pooled {
                &&& post.bid_room + orders_after == pre.bid_room + orders
                &&& post.ask_room + orders_after == pre.ask_room + orders
            } else {
                &&& post.bid_room + crowd(post.bids) == pre.bid_room + crowd(pre.bids)
                &&& post.ask_room + crowd(post.asks) == pre.ask_room + crowd(pre.asks)
            }
        }),
        r is Err ==> match side {
            Side::Bid => final(book).depth().bid_room == 0,
            Side::Ask => final(book).depth().ask_room == 0,
        },
{
    let (mine, theirs) = match side {
        Side::Bid => (old(book).depth().bids, old(book).depth().asks),
        Side::Ask => (old(book).depth().asks, old(book).depth().bids),
    };
    let s = sweep(side.other(), theirs, Some(price.0), qty);
    lemma_crowd_swept(side.other(), theirs, Some(price.0), qty);
    if let Ok(Some(h)) = r {
        lemma_crowd_with_lot(mine, price.0, Lot { id: h, quantity: s.left });
    }
}

/// A market order trades with the other side at any price, best price first and
/// oldest first within a price, and leaves its own side alone. What it reports
/// as unfilled is what it has not taken off the other side: nothing, if there was
/// enough. One that is to be filled or killed takes all that it asks for or
/// nothing.
pub proof fn law_market_order_takes_the_best_first<B: OrderBookApi>(
    book: &mut B,
    side: Side,
    qty: u64,
    mode: MarketOrderMode,
    r: BookResult<MarketOrderResult>,
)
    requires
        old(book).depth().valid(),
        call_ensures(B::add_market, (book, side, qty, mode), r),
    ensures
        r is Ok,
        ({
            let (mine, theirs, mine_after, theirs_after) = match side {
                Side::Bid => (
                    old(book).depth().bids,
                    old(book).depth().asks,
                    final(book).depth().bids,
                    final(book).depth().asks,
                ),
                Side::Ask => (
                    old(book).depth().asks,
                    old(book).depth().bids,
                    final(book).depth().asks,
                    final(book).depth().bids,
                ),
            };
            &&& mine_after == mine
            &&& total(theirs) - total(theirs_after) + r->Ok_0.remaining == qty
            &&& r->Ok_0.remaining == (if qty <= total(theirs) {
                0
            } else {
                match mode {
                    MarketOrderMode::ImmediateOrCancel => qty - total(theirs),
                    MarketOrderMode::FillOrKill => qty as int,
                }
            })
            &&& forall|p: u64| #[trigger]
                theirs_after.contains_key(p) ==> {
                    let k = theirs[p].len() - theirs_after[p].len();
                    &&& theirs.contains_key(p)
                    &&& 0 < theirs_after[p].len() <= theirs[p].len()
                    &&& theirs_after[p][0].id == theirs[p][k].id
                    &&& 0 < theirs_after[p][0].quantity <= theirs[p][k].quantity
                    &&& forall|i: int|
                        0 < i < theirs_after[p].len() ==> #[trigger] theirs_after[p][i]
                            == theirs[p][i + k]
                }
            &&& forall|p: u64, q: u64| #[trigger]
                theirs.contains_key(p) && #[trigger] theirs_after.contains_key(q) && (match side {
                    Side::Bid => q < p,
                    Side::Ask => q > p,
                }) ==> theirs_after.contains_key(p) && theirs_after[p] == theirs[p]
        }),
        ({
            let (pre, post) = (old(book).depth(), final(book).depth());
            let orders = crowd(pre.bids) + crowd(pre.asks);
            let orders_after = crowd(post.bids) + crowd(post.asks);
            &&& post.pooled == pre.pooled
            &&& if pre.pooled {
                &&& post.bid_room + orders_after == pre.bid_room + orders
                &&& post.ask_room + orders_after == pre.ask_room + orders
            } else {
                &&& post.bid_room + crowd(post.bids) == pre.bid_room + crowd(pre.bids)
                &&& post.ask_room + crowd(post.asks) == pre.ask_room + crowd(pre.asks)
            }
        }),
{
    let (mine, theirs) = match side {
        Side::Bid => (old(book).depth().bids, old(book).depth().asks),
        Side::Ask => (old(book).depth().asks, old(book).depth().bids),
    };
    let killed = mode == MarketOrderMode::FillOrKill && total(theirs) < qty;
    let wanted = if killed {
        0
    } else {
        qty
    };
    let s = sweep(side.other(), theirs, None, wanted);
    lemma_best_exists(side.other(), theirs.dom());
    lemma_taken(old(book).depth(), side, None, wanted);
    lemma_leavings(side.other(), theirs, None, wanted);
    lemma_crowd_swept(side.other(), theirs, None, wanted);
    law_market_fills_what_there_is(side.other(), theirs, qty);
    assert forall|p: u64| #[trigger] s.levels.contains_key(p) implies leavings(
        theirs,
        s.levels,
        p,
    ) by {}
}

/// A cancel takes the order with that handle off the book, gives its room back
/// and leaves all others where they are. Without such an order it does nothing
/// and says so.
pub proof fn law_cancel_takes_one_order_off<B: OrderBookApi>(
    book: &mut B,
    handle: B::Handle,
    r: BookResult<()>,
)
    requires
        old(book).depth().valid(),
        call_ensures(B::cancel, (book, handle), r),
    ensures
        ({
            let (pre, post) = (old(book).depth(), final(book).depth());
            match r {
                Ok(_) => {
                    ||| post.asks == pre.asks && exists|p: u64, j: int|
                        {
                            &&& pre.bids.contains_key(p)
                            &&& 0 <= j < pre.bids[p].len()
                            &&& (#[trigger] pre.bids[p][j]).id == handle
                            &&& post.bids == if pre.bids[p].len() == 1 {
                                pre.bids.remove(p)
                            } else {
                                pre.bids.insert(p, pre.bids[p].remove(j))
                            }
                        }
                    ||| post.bids == pre.bids && exists|p: u64, j: int|
                        {
                            &&& pre.asks.contains_key(p)
                            &&& 0 <= j < pre.asks[p].len()
                            &&& (#[trigger] pre.asks[p][j]).id == handle
                            &&& post.asks == if pre.asks[p].len() == 1 {
                                pre.asks.remove(p)
                            } else {
                                pre.asks.insert(p, pre.asks[p].remove(j))
                            }
                        }
                },
                Err(e) => {
                    &&& e == BookError::OrderNotFound
                    &&& post == pre
                    &&& forall|p: u64, j: int|
                        pre.bids.contains_key(p) && 0 <= j < pre.bids[p].len() ==> (
                        #[trigger] pre.bids[p][j]).id != handle
                    &&& forall|p: u64, j: int|
                        pre.asks.contains_key(p) && 0 <= j < pre.asks[p].len() ==> (
                        #[trigger] pre.asks[p][j]).id != handle
                },
            }
        }),
        ({
            let (pre, post) = (old(book).depth(), final(book).depth());
            let orders = crowd(pre.bids) + crowd(pre.asks);
            let orders_after = crowd(post.bids) + crowd(post.asks);
            &&& post.pooled == pre.pooled
            &&& if pre.pooled {
                &&& post.bid_room + orders_after == pre.bid_room + orders
                &&& post.ask_room + orders_after == pre.ask_room + orders
            } else {
                &&& post.bid_room + crowd(post.bids) == pre.bid_room + crowd(pre.bids)
                &&& post.ask_room + crowd(post.asks) == pre.ask_room + crowd(pre.asks)
            }
        }),
{
    lemma_cancelled(old(book).depth(), handle, r, final(book).depth());
}

/// What a cancel comes to, in places.
pub proof fn lemma_cancelled<H>(pre: Depth<H>, handle: H, r: BookResult<()>, post: Depth<H>)
    requires
        pre.valid(),
        pre.cancel_step(handle, r, post),
    ensures
        match r {
            Ok(_) => {
                ||| post.asks == pre.asks && exists|p: u64, j: int|
                    {
                        &&& pre.bids.contains_key(p)
                        &&& 0 <= j < pre.bids[p].len()
                        &&& (#[trigger] pre.bids[p][j]).id == handle
                        &&& post.bids == if pre.bids[p].len() == 1 {
                            pre.bids.remove(p)
                        } else {
                            pre.bids.insert(p, pre.bids[p].remove(j))
                        }
                    }
                ||| post.bids == pre.bids && exists|p: u64, j: int|
                    {
                        &&& pre.asks.contains_key(p)
                        &&& 0 <= j < pre.asks[p].len()
                        &&& (#[trigger] pre.asks[p][j]).id == handle
                        &&& post.asks == if pre.asks[p].len() == 1 {
                            pre.asks.remove(p)
                        } else {
                            pre.asks.insert(p, pre.asks[p].remove(j))
                        }
                    }
            },
            Err(e) => {
                &&& e == BookError::OrderNotFound
                &&& post == pre
                &&& forall|p: u64, j: int|
                    pre.bids.contains_key(p) && 0 <= j < pre.bids[p].len() ==> (
                    #[trigger] pre.bids[p][j]).id != handle
                &&& forall|p: u64, j: int|
                    pre.asks.contains_key(p) && 0 <= j < pre.asks[p].len() ==> (
                    #[trigger] pre.asks[p][j]).id != handle
            },
        },
        ({
            let orders = crowd(pre.bids) + crowd(pre.asks);
            let orders_after = crowd(post.bids) + crowd(post.asks);
            &&& post.pooled == pre.pooled
            &&& if pre.pooled {
                &&& post.bid_room + orders_after == pre.bid_room + orders
                &&& post.ask_room + orders_after == pre.ask_room + orders
            } else {
                &&& post.bid_room + crowd(post.bids) == pre.bid_room + crowd(pre.bids)
                &&& post.ask_room + crowd(post.asks) == pre.ask_room + crowd(pre.asks)
            }
        }),
{
    if r is Ok {
        let side = pre.half(handle);
        let levels = pre.on(side);
        assert(holds(levels, handle));
        let (p, j) = choose|p: u64, j: int| rests_at(levels, p, j, handle);
        assert(rests_at(levels, p, j, handle));
        assert(levels[p][j].id == handle);
        lemma_without(levels, p, j, handle);
        lemma_crowd_without(levels, p, j, handle);
    } else {
        assert forall|p: u64, j: int|
            pre.bids.contains_key(p) && 0 <= j < pre.bids[p].len() implies (
        #[trigger] pre.bids[p][j]).id != handle by {
            if pre.bids[p][j].id == handle {
                assert(rests_at(pre.bids, p, j, handle));
            }
        }
        assert forall|p: u64, j: int|
            pre.asks.contains_key(p) && 0 <= j < pre.asks[p].len() implies (
        #[trigger] pre.asks[p][j]).id != handle by {
            if pre.asks[p][j].id == handle {
                assert(rests_at(pre.asks, p, j, handle));
            }
        }
    }
}

/// A limit order that is applied goes to the book as it is. If something of it
/// comes to rest, its handle is kept under its id; otherwise the handles stay as
/// they are.
pub proof fn law_applied_limit_order<B: OrderBookApi>(
    harness: &mut Harness<B>,
    id: u64,
    side: Side,
    price: Price,
    qty: u64,
)
    requires
        old(harness).wf(),
        call_ensures(
            Harness::<B>::apply,
            (harness, &(Op::Limit { id, side, price, qty })),
            (),
        ),
    ensures
        ({
            let (mine, theirs, mine_after, theirs_after) = match side {
                Side::Bid => (
                    old(harness).book.depth().bids,
                    old(harness).book.depth().asks,
                    final(harness).book.depth().bids,
                    final(harness).book.depth().asks,
                ),
                Side::Ask => (
                    old(harness).book.depth().asks,
                    old(harness).book.depth().bids,
                    final(harness).book.depth().asks,
                    final(harness).book.depth().bids,
                ),
            };
            let queue = if mine.contains_key(price.0) {
                mine[price.0]
            } else {
                Seq::empty()
            };
            let filled = total(theirs) - total(theirs_after);
            let rests = final(harness).handles@[id];
            let room = match side {
                Side::Bid => final(harness).book.depth().bid_room,
                Side::Ask => final(harness).book.depth().ask_room,
            };
            &&& 0 <= filled <= qty
            &&& {
                ||| {
                    &&& filled == qty
                    &&& mine_after == mine
                    &&& final(harness).handles@ == old(harness).handles@
                }
                ||| {
                    &&& filled < qty
                    &&& mine_after == mine.insert(
                        price.0,
                        queue.push(Lot { id: rests, quantity: (qty - filled) as u64 }),
                    )
                    &&& final(harness).handles@ == old(harness).handles@.insert(id, rests)
                    &&& forall|k: u64| #[trigger]
                        old(harness).handles@.contains_key(k) ==> old(harness).handles@[k] != rests
                }
                ||| {
                    &&& filled < qty
                    &&& room == 0
                    &&& mine_after == mine
                    &&& final(harness).handles@ == old(harness).handles@
                }
            }
            &&& forall|p: u64| #[trigger]
                theirs_after.contains_key(p) ==> {
                    let k = theirs[p].len() - theirs_after[p].len();
                    &&& theirs.contains_key(p)
                    &&& 0 < theirs_after[p].len() <= theirs[p].len()
                    &&& theirs_after[p][0].id == theirs[p][k].id
                    &&& 0 < theirs_after[p][0].quantity <= theirs[p][k].quantity
                    &&& forall|i: int|
                        0 < i < theirs_after[p].len() ==> #[trigger] theirs_after[p][i]
                            == theirs[p][i + k]
                }
            &&& forall|p: u64, q: u64| #[trigger]
                theirs.contains_key(p) && #[trigger] theirs_after.contains_key(q) && (match side {
                    Side::Bid => q < p,
                    Side::Ask => q > p,
                }) ==> theirs_after.contains_key(p) && theirs_after[p] == theirs[p]
            &&& forall|p: u64| #[trigger]
                theirs.contains_key(p) && (match side {
                    Side::Bid => p > price.0,
                    Side::Ask => p < price.0,
                }) ==> theirs_after.contains_key(p) && theirs_after[p] == theirs[p]
            &&& total(theirs) - total(theirs_after) < qty ==> forall|p: u64| #[trigger]
                theirs_after.contains_key(p) ==> match side {
                    Side::Bid => p > price.0,
                    Side::Ask => p < price.0,
                }
        }),
{
    let (mine, theirs) = match side {
        Side::Bid => (old(harness).book.depth().bids, old(harness).book.depth().asks),
        Side::Ask => (old(harness).book.depth().asks, old(harness).book.depth().bids),
    };
    let s = sweep(side.other(), theirs, Some(price.0), qty);
    let r = choose|r: BookResult<Option<B::Handle>>| #[trigger]
        old(harness).stage().limit(id, side, price.0, qty, r, final(harness).stage());
    lemma_taken(old(harness).book.depth(), side, Some(price.0), qty);
    lemma_leavings(side.other(), theirs, Some(price.0), qty);
    assert forall|p: u64| #[trigger] s.levels.contains_key(p) implies leavings(
        theirs,
        s.levels,
        p,
    ) by {}
}

/// A market order that is applied goes to the book as it is, and changes nothing
/// about the handles that are kept.
pub proof fn law_applied_market_order<B: OrderBookApi>(
    harness: &mut Harness<B>,
    side: Side,
    qty: u64,
    mode: MarketOrderMode,
)
    requires
        old(harness).wf(),
        call_ensures(
            Harness::<B>::apply,
            (harness, &(Op::Market { side, qty, mode })),
            (),
        ),
    ensures
        final(harness).handles@ == old(harness).handles@,
        ({
            let (mine, theirs, mine_after, theirs_after) = match side {
                Side::Bid => (
                    old(harness).book.depth().bids,
                    old(harness).book.depth().asks,
                    final(harness).book.depth().bids,
                    final(harness).book.depth().asks,
                ),
                Side::Ask => (
                    old(harness).book.depth().asks,
                    old(harness).book.depth().bids,
                    final(harness).book.depth().asks,
                    final(harness).book.depth().bids,
                ),
            };
            &&& mine_after == mine
            &&& total(theirs) - total(theirs_after) == (if qty <= total(theirs) {
                qty as int
            } else {
                match mode {
                    MarketOrderMode::ImmediateOrCancel => total(theirs) as int,
                    MarketOrderMode::FillOrKill => 0,
                }
            })
            &&& forall|p: u64| #[trigger]
                theirs_after.contains_key(p) ==> {
                    let k = theirs[p].len() - theirs_after[p].len();
                    &&& theirs.contains_key(p)
                    &&& 0 < theirs_after[p].len() <= theirs[p].len()
                    &&& theirs_after[p][0].id == theirs[p][k].id
                    &&& 0 < theirs_after[p][0].quantity <= theirs[p][k].quantity
                    &&& forall|i: int|
                        0 < i < theirs_after[p].len() ==> #[trigger] theirs_after[p][i]
                            == theirs[p][i + k]
                }
            &&& forall|p: u64, q: u64| #[trigger]
                theirs.contains_key(p) && #[trigger] theirs_after.contains_key(q) && (match side {
                    Side::Bid => q < p,
                    Side::Ask => q > p,
                }) ==> theirs_after.contains_key(p) && theirs_after[p] == theirs[p]
        }),
{
    let (mine, theirs) = match side {
        Side::Bid => (old(harness).book.depth().bids, old(harness).book.depth().asks),
        Side::Ask => (old(harness).book.depth().asks, old(harness).book.depth().bids),
    };
    let killed = mode == MarketOrderMode::FillOrKill && total(theirs) < qty;
    let wanted = if killed {
        0
    } else {
        qty
    };
    let s = sweep(side.other(), theirs, None, wanted);
    lemma_best_exists(side.other(), theirs.dom());
    lemma_taken(old(harness).book.depth(), side, None, wanted);
    lemma_leavings(side.other(), theirs, None, wanted);
    law_market_fills_what_there_is(side.other(), theirs, qty);
    assert forall|p: u64| #[trigger] s.levels.contains_key(p) implies leavings(
        theirs,
        s.levels,
        p,
    ) by {}
}

/// A cancel that is applied takes the order off the book whose handle is kept
/// under the id, if it still rests, and the handle is kept no more. Where no
/// handle is kept nothing happens.
pub proof fn law_applied_cancel<B: OrderBookApi>(harness: &mut Harness<B>, id: u64)
    requires
        old(harness).wf(),
        call_ensures(Harness::<B>::apply, (harness, &(Op::Cancel { id })), ()),
    ensures
        final(harness).handles@ == old(harness).handles@.remove(id),
        ({
            let pre = old(harness).book.depth();
            let post = final(harness).book.depth();
            let handle = old(harness).handles@[id];
            if old(harness).handles@.contains_key(id) {
                ||| {
                    &&& post == pre
                    &&& forall|p: u64, j: int|
                        pre.bids.contains_key(p) && 0 <= j < pre.bids[p].len() ==> (
                        #[trigger] pre.bids[p][j]).id != handle
                    &&& forall|p: u64, j: int|
                        pre.asks.contains_key(p) && 0 <= j < pre.asks[p].len() ==> (
                        #[trigger] pre.asks[p][j]).id != handle
                }
                ||| {
                    ||| post.asks == pre.asks && exists|p: u64, j: int|
                        {
                            &&& pre.bids.contains_key(p)
                            &&& 0 <= j < pre.bids[p].len()
                            &&& (#[trigger] pre.bids[p][j]).id == handle
                            &&& post.bids == if pre.bids[p].len() == 1 {
                                pre.bids.remove(p)
                            } else {
                                pre.bids.insert(p, pre.bids[p].remove(j))
                            }
                        }
                    ||| post.bids == pre.bids && exists|p: u64, j: int|
                        {
                            &&& pre.asks.contains_key(p)
                            &&& 0 <= j < pre.asks[p].len()
                            &&& (#[trigger] pre.asks[p][j]).id == handle
                            &&& post.asks == if pre.asks[p].len() == 1 {
                                pre.asks.remove(p)
                            } else {
                                pre.asks.insert(p, pre.asks[p].remove(j))
                            }
                        }
                }
            } else {
                post == pre
            }
        }),
{
    if old(harness).handles@.contains_key(id) {
        let handle = old(harness).handles@[id];
        let r = choose|r: BookResult<()>| #[trigger]
            old(harness).book.depth().cancel_step(handle, r, final(harness).book.depth());
        lemma_cancelled(old(harness).book.depth(), handle, r, final(harness).book.depth());
    } else {
        assert(old(harness).handles@.remove(id) =~= old(harness).handles@);
    }
}

/// A limit order can be added as long as all that rests on its side and what it
/// brings can be counted together.
pub proof fn law_limit_order_is_welcome<B: OrderBookApi>(
    book: &mut B,
    side: Side,
    price: Price,
    qty: u64,
)
    requires
        OrderBookApi::wf(old(book)),
        old(book).depth().valid(),
        match side {
            Side::Bid => total(old(book).depth().bids) + qty <= u64::MAX,
            Side::Ask => total(old(book).depth().asks) + qty <= u64::MAX,
        },
    ensures
        call_requires(B::add_limit, (book, side, price, qty)),
{
    lemma_admits(old(book).depth(), side, price.0, qty);
}

/// What operations may bring to a side is the sum of the quantities of the limit
/// orders among them that are on that side.
pub proof fn law_limit_orders_bring_their_quantity(ops: Seq<Op>, op: Op, side: Side)
    ensures
        volume(Seq::<Op>::empty(), side) == 0,
        volume(ops.push(op), side) == volume(ops, side) + (match op {
            Op::Limit { side: own, qty, .. } => if own == side {
                qty as nat
            } else {
                0
            },
            Op::Cancel { .. } => 0,
            Op::Market { .. } => 0,
        }),
    decreases ops.len(),
{
    if ops.len() > 0 {
        law_limit_orders_bring_their_quantity(ops.drop_first(), op, side);
        assert(ops.push(op).drop_first() =~= ops.drop_first().push(op));
    } else {
        assert(ops.push(op).drop_first() =~= Seq::<Op>::empty());
        assert(volume(ops.push(op).drop_first(), side) == 0);
    }
}

/// Every bid is below every ask, every level has orders, every order has some
/// quantity left, and no two orders have the same handle.
pub proof fn law_book_is_in_order<B: OrderBookApi>(book: B, p: u64, i: int, q: u64, j: int)
    requires
        book.depth().valid(),
    ensures
        ({
            let (bids, asks) = (book.depth().bids, book.depth().asks);
            &&& bids.contains_key(p) && asks.contains_key(q) ==> p < q
            &&& bids.contains_key(p) ==> bids[p].len() > 0
            &&& asks.contains_key(p) ==> asks[p].len() > 0
            &&& bids.contains_key(p) && 0 <= i < bids[p].len() ==> bids[p][i].quantity > 0
            &&& asks.contains_key(p) && 0 <= i < asks[p].len() ==> asks[p][i].quantity > 0
            &&& bids.contains_key(p) && 0 <= i < bids[p].len() && bids.contains_key(q) && 0 <= j
                < bids[q].len() && bids[p][i].id == bids[q][j].id ==> p == q && i == j
            &&& asks.contains_key(p) && 0 <= i < asks[p].len() && asks.contains_key(q) && 0 <= j
                < asks[q].len() && asks[p][i].id == asks[q][j].id ==> p == q && i == j
            &&& bids.contains_key(p) && 0 <= i < bids[p].len() && asks.contains_key(q) && 0 <= j
                < asks[q].len() ==> bids[p][i].id != asks[q][j].id
        }),
{
    let (bids, asks) = (book.depth().bids, book.depth().asks);
    if bids.contains_key(p) && 0 <= i < bids[p].len() {
        assert(rests_at(bids, p, i, bids[p][i].id));
        assert(holds(bids, bids[p][i].id));
        if bids.contains_key(q) && 0 <= j < bids[q].len() {
            assert(rests_at(bids, q, j, bids[q][j].id));
        }
    }
    if asks.contains_key(q) && 0 <= j < asks[q].len() {
        assert(rests_at(asks, q, j, asks[q][j].id));
        assert(holds(asks, asks[q][j].id));
        if asks.contains_key(p) && 0 <= i < asks[p].len() {
            assert(rests_at(asks, p, i, asks[p][i].id));
        }
    }
}

/// Operations are applied one after the other, each of them and in order.
pub proof fn law_all_are_applied_in_order<B: OrderBookApi>(harness: &mut Harness<B>, ops: &[Op])
    requires
        call_ensures(Harness::<B>::apply_all, (harness, ops), ()),
    ensures
        exists|states: Seq<Stage<B::Handle>>|
            {
                &&& #[trigger] states.len() == ops@.len() + 1
                &&& states[0].depth == old(harness).book.depth()
                &&& states[0].handles == old(harness).handles@
                &&& states[ops@.len() as int].depth == final(harness).book.depth()
                &&& states[ops@.len() as int].handles == final(harness).handles@
                &&& forall|i: int|
                    0 <= i < ops@.len() ==> states[i].step(#[trigger] ops@[i], states[i + 1])
            },
{
    let states = choose|states: Seq<Stage<B::Handle>>| #[trigger]
        steps_through(states, ops@) && states[0] == old(harness).stage()
            && states[ops@.len() as int] == final(harness).stage();
    assert(states.len() == ops@.len() + 1);
}

} // verus!
