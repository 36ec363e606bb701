//! What holds of every book, whatever the engine and whoever trades.

use vstd::prelude::*;

use crate::api::Depth;
use crate::errors::BookResult;
use crate::model::{
    best, crosses, distinct_ids, holds, lemma_best_exists, lemma_holds_with_lot,
    lemma_sweep_leaves, lemma_swept_held, lemma_take, lemma_take_rest, lemma_total_remove,
    lemma_without, lots_at, queue_total, rests_at, sound, sweep, take, total, uncrossed, with_lot,
    without, Levels, Lot,
};
use crate::types::{MarketOrderMode, MarketOrderResult, Side};

verus! {

/// Taking from a queue neither makes nor loses quantity.
proof fn lemma_take_conserves<I>(queue: Seq<Lot<I>>, quantity: u64)
    ensures
        ({
            let t = take(queue, quantity);
            &&& queue_total(t.fills) + t.left == quantity
            &&& queue_total(t.fills) + queue_total(t.rest) == queue_total(queue)
        }),
    decreases queue.len(),
{
    let t = take(queue, quantity);
    if queue.len() == 0 || quantity == 0 {
    } else if queue[0].quantity <= quantity {
        let u = take(queue.drop_first(), (quantity - queue[0].quantity) as u64);
        lemma_take_conserves(queue.drop_first(), (quantity - queue[0].quantity) as u64);
        assert(t.fills.drop_first() =~= u.fills);
    } else {
        assert(t.fills.drop_first() =~= Seq::empty());
        assert(t.rest.drop_first() =~= queue.drop_first());
        assert(queue_total(t.fills) == quantity) by {
            assert(queue_total(t.fills.drop_first()) == 0);
        }
    }
}

/// The total of two queues, one behind the other.
pub proof fn lemma_queue_total_concat<I>(a: Seq<Lot<I>>, b: Seq<Lot<I>>)
    ensures
        queue_total(a + b) == queue_total(a) + queue_total(b),
    decreases a.len(),
{
    if a.len() == 0 {
        assert(a + b =~= b);
    } else {
        lemma_queue_total_concat(a.drop_first(), b);
        assert((a + b).drop_first() =~= a.drop_first() + b);
    }
}

/// Quantity is conserved: what an aggressor brings is either filled or left
/// over, and what was resting is either filled or still rests.
pub proof fn law_quantity_is_conserved<I>(
    side: Side,
    levels: Levels<I>,
    limit: Option<u64>,
    quantity: u64,
)
    requires
        levels.dom().finite(),
    ensures
        ({
            let s = sweep(side, levels, limit, quantity);
            &&& queue_total(s.fills) + s.left == quantity
            &&& queue_total(s.fills) + total(s.levels) == total(levels)
        }),
    decreases levels.dom().len(),
{
    let s = sweep(side, levels, limit, quantity);
    lemma_best_exists(side, levels.dom());
    if let Some(p) = best(side, levels.dom()) {
        if quantity > 0 && crosses(side, limit, p) {
            let t = take(levels[p], quantity);
            lemma_take_conserves(levels[p], quantity);
            lemma_take(levels[p], quantity);
            lemma_total_remove(levels, p);
            if t.rest.len() == 0 {
                let u = sweep(side, levels.remove(p), limit, t.left);
                law_quantity_is_conserved(side, levels.remove(p), limit, t.left);
                lemma_queue_total_concat(t.fills, u.fills);
            } else {
                lemma_total_remove(s.levels, p);
                assert(s.levels.remove(p) =~= levels.remove(p));
            }
        }
    }
}

/// A market order is filled as far as the other side goes: nothing is left
/// over as long as enough was resting, and otherwise the side is emptied.
pub proof fn law_market_fills_what_there_is<I>(side: Side, levels: Levels<I>, quantity: u64)
    requires
        levels.dom().finite(),
    ensures
        ({
            let s = sweep(side, levels, None, quantity);
            &&& quantity <= total(levels) ==> s.left == 0
            &&& quantity > total(levels) ==> s.left == quantity - total(levels)
            &&& s.left > 0 ==> s.levels == Levels::<I>::empty()
        }),
{
    let s = sweep(side, levels, None, quantity);
    law_quantity_is_conserved(side, levels, None, quantity);
    lemma_sweep_leaves(side, levels, None, quantity);
    if s.left > 0 {
        assert forall|p: u64| !s.levels.contains_key(p) by {}
        assert(s.levels =~= Levels::<I>::empty());
        assert(total(s.levels) == 0);
    }
}

/// The orders of a side in the order in which they are served: best price
/// first, oldest first within a price.
pub open spec fn ranked<I>(side: Side, levels: Levels<I>) -> Seq<Lot<I>>
    decreases levels.dom().len(),
    when levels.dom().finite()
{
    match best(side, levels.dom()) {
        None => Seq::empty(),
        Some(p) => if levels.contains_key(p) {
            levels[p] + ranked(side, levels.remove(p))
        } else {
            Seq::empty()
        },
    }
}

/// Price-time priority: fills go down the ranking of the resting orders
/// without skipping any. Each order is filled completely except possibly the
/// last one, which keeps some of its quantity.
pub proof fn law_price_time_priority<I>(
    side: Side,
    levels: Levels<I>,
    limit: Option<u64>,
    quantity: u64,
)
    requires
        levels.dom().finite(),
    ensures
        ({
            let s = sweep(side, levels, limit, quantity);
            let r = ranked(side, levels);
            &&& s.spent <= s.fills.len() <= s.spent + 1
            &&& s.fills.len() <= r.len()
            &&& forall|i: int| 0 <= i < s.spent ==> #[trigger] s.fills[i] == r[i]
            &&& s.fills.len() > s.spent ==> {
                &&& s.fills[s.spent as int].id == r[s.spent as int].id
                &&& s.fills[s.spent as int].quantity < r[s.spent as int].quantity
                &&& s.left == 0
            }
        }),
    decreases levels.dom().len(),
{
    let s = sweep(side, levels, limit, quantity);
    lemma_best_exists(side, levels.dom());
    if let Some(p) = best(side, levels.dom()) {
        assert(levels.contains_key(p));
        if quantity > 0 && crosses(side, limit, p) {
            let t = take(levels[p], quantity);
            let r = ranked(side, levels);
            lemma_take(levels[p], quantity);
            lemma_take_partial(levels[p], quantity);
            if t.rest.len() == 0 {
                let u = sweep(side, levels.remove(p), limit, t.left);
                law_price_time_priority(side, levels.remove(p), limit, t.left);
                let n = levels[p].len();
                assert(t.fills.len() == n);
                assert forall|i: int| 0 <= i < s.spent implies #[trigger] s.fills[i] == r[i] by {
                    if i >= n {
                        assert(s.fills[i] == u.fills[i - n]);
                    }
                }
                if s.fills.len() > s.spent {
                    assert(s.fills[s.spent as int] == u.fills[u.spent as int]);
                    assert(r[s.spent as int] == ranked(side, levels.remove(p))[u.spent as int]);
                }
            }
        }
    }
}

/// A partial fill leaves some of the order.
proof fn lemma_take_partial<I>(queue: Seq<Lot<I>>, quantity: u64)
    ensures
        ({
            let t = take(queue, quantity);
            t.fills.len() > t.spent ==> t.fills[t.spent as int].quantity
                < queue[t.spent as int].quantity
        }),
    decreases queue.len(),
{
    if queue.len() == 0 || quantity == 0 {
    } else if queue[0].quantity <= quantity {
        let left = (quantity - queue[0].quantity) as u64;
        let t = take(queue, quantity);
        let u = take(queue.drop_first(), left);
        lemma_take_partial(queue.drop_first(), left);
        lemma_take(queue.drop_first(), left);
        if t.fills.len() > t.spent {
            assert(t.fills[t.spent as int] == u.fills[u.spent as int]);
            assert(queue[t.spent as int] == queue.drop_first()[u.spent as int]);
        }
    }
}

/// No order is filled at a price beyond the aggressor's limit, and if quantity
/// is left over then no acceptable price is left.
pub proof fn law_limit_is_respected<I>(
    side: Side,
    levels: Levels<I>,
    limit: Option<u64>,
    quantity: u64,
)
    requires
        levels.dom().finite(),
    ensures
        ({
            let s = sweep(side, levels, limit, quantity);
            &&& forall|i: int|
                0 <= i < s.fills.len() ==> fillable(side, levels, limit, (#[trigger] s.fills[i]).id)
            &&& s.left > 0 ==> forall|p: u64| #[trigger]
                s.levels.contains_key(p) ==> !crosses(side, limit, p)
        }),
    decreases levels.dom().len(),
{
    let s = sweep(side, levels, limit, quantity);
    lemma_sweep_leaves(side, levels, limit, quantity);
    lemma_best_exists(side, levels.dom());
    if let Some(p) = best(side, levels.dom()) {
        if quantity > 0 && crosses(side, limit, p) {
            let t = take(levels[p], quantity);
            lemma_take(levels[p], quantity);
            assert forall|i: int| 0 <= i < t.fills.len() implies fillable(
                side,
                levels,
                limit,
                (#[trigger] t.fills[i]).id,
            ) by {
                assert(rests_at(levels, p, i, t.fills[i].id));
            }
            if t.rest.len() == 0 {
                let fewer = levels.remove(p);
                let u = sweep(side, fewer, limit, t.left);
                law_limit_is_respected(side, fewer, limit, t.left);
                assert forall|i: int| 0 <= i < s.fills.len() implies fillable(
                    side,
                    levels,
                    limit,
                    (#[trigger] s.fills[i]).id,
                ) by {
                    if i < t.fills.len() {
                        assert(s.fills[i] == t.fills[i]);
                    } else {
                        let f = u.fills[i - t.fills.len()];
                        assert(s.fills[i] == f);
                        let (q, j) = choose|q: u64, j: int| #[trigger]
                            rests_at(fewer, q, j, f.id) && crosses(side, limit, q);
                        assert(rests_at(levels, q, j, f.id));
                    }
                }
            }
        }
    }
}

/// An order named `id` rests at a price that `limit` allows.
pub open spec fn fillable<I>(side: Side, levels: Levels<I>, limit: Option<u64>, id: I) -> bool {
    exists|p: u64, j: int| #[trigger] rests_at(levels, p, j, id) && crosses(side, limit, p)
}

/// Every order either is filled completely, and then rests no more, or still
/// rests. None is filled completely twice.
pub proof fn law_filled_or_still_there<I>(
    side: Side,
    levels: Levels<I>,
    limit: Option<u64>,
    quantity: u64,
)
    requires
        levels.dom().finite(),
        distinct_ids(levels),
    ensures
        ({
            let s = sweep(side, levels, limit, quantity);
            &&& s.done().no_duplicates()
            &&& distinct_ids(s.levels)
            &&& forall|id: I| #[trigger]
                holds(levels, id) <==> s.done().contains(id) || holds(s.levels, id)
            &&& forall|id: I| #[trigger] s.done().contains(id) ==> !holds(s.levels, id)
        }),
    decreases levels.dom().len(),
{
    let s = sweep(side, levels, limit, quantity);
    let done = s.done();
    lemma_best_exists(side, levels.dom());
    lemma_sweep_leaves(side, levels, limit, quantity);
    if best(side, levels.dom()) is None || quantity == 0 || !crosses(
        side,
        limit,
        best(side, levels.dom())->0,
    ) {
        assert(done =~= Seq::empty());
    } else {
        let p = best(side, levels.dom())->0;
        let queue = levels[p];
        let t = take(queue, quantity);
        lemma_take(queue, quantity);
        lemma_take_rest(queue, quantity);
        if t.rest.len() == 0 {
            let fewer = levels.remove(p);
            let u = sweep(side, fewer, limit, t.left);
            let n = queue.len();
            assert(distinct_ids(fewer)) by {
                assert forall|a: u64, i: int, b: u64, j: int, id: I|
                    #![trigger rests_at(fewer, a, i, id), rests_at(fewer, b, j, id)]
                    rests_at(fewer, a, i, id) && rests_at(fewer, b, j, id) implies a == b && i
                    == j by {
                    assert(rests_at(levels, a, i, id) && rests_at(levels, b, j, id));
                }
            }
            law_filled_or_still_there(side, fewer, limit, t.left);
            lemma_sweep_leaves(side, fewer, limit, t.left);
            assert forall|i: int| 0 <= i < done.len() implies #[trigger] done[i] == (if i < n {
                queue[i].id
            } else {
                u.done()[i - n]
            }) by {}
            assert forall|id: I| #[trigger]
                holds(levels, id) <==> done.contains(id) || holds(s.levels, id) by {
                if holds(levels, id) {
                    let (q, i) = choose|q: u64, i: int| rests_at(levels, q, i, id);
                    if q == p {
                        assert(done[i] == id);
                    } else {
                        assert(rests_at(fewer, q, i, id));
                        assert(holds(fewer, id));
                        if u.done().contains(id) {
                            let j = u.done().index_of(id);
                            assert(done[j + n] == id);
                        }
                    }
                }
                if done.contains(id) {
                    let i = done.index_of(id);
                    if i < n {
                        assert(rests_at(levels, p, i, id));
                    } else {
                        assert(u.done()[i - n] == id);
                        assert(holds(fewer, id));
                    }
                }
                if holds(fewer, id) {
                    let (q, i) = choose|q: u64, i: int| rests_at(fewer, q, i, id);
                    assert(rests_at(levels, q, i, id));
                }
            }
            assert forall|id: I| #[trigger] done.contains(id) implies !holds(s.levels, id) by {
                let i = done.index_of(id);
                if i < n {
                    assert(rests_at(levels, p, i, id));
                    if holds(s.levels, id) {
                        assert(holds(fewer, id));
                        let (q, j) = choose|q: u64, j: int| rests_at(fewer, q, j, id);
                        assert(rests_at(levels, q, j, id));
                    }
                } else {
                    assert(u.done()[i - n] == id);
                    assert(u.done().contains(id));
                }
            }
            assert forall|i: int, j: int| 0 <= i < j < done.len() implies done[i] != done[j] by {
                if i < n {
                    assert(rests_at(levels, p, i, done[i]));
                    if j < n {
                        assert(rests_at(levels, p, j, done[j]));
                    } else {
                        assert(u.done().contains(u.done()[j - n]));
                        assert(holds(fewer, done[j]));
                        let (q, k) = choose|q: u64, k: int| rests_at(fewer, q, k, done[j]);
                        assert(rests_at(levels, q, k, done[j]));
                    }
                }
            }
        } else {
            let n = t.spent;
            assert forall|i: int| 0 <= i < done.len() implies #[trigger] done[i]
                == queue[i].id by {}
            assert forall|q: u64, i: int, id: I| #[trigger]
                rests_at(s.levels, q, i, id) implies rests_at(
                levels,
                q,
                if q == p {
                    i + n
                } else {
                    i
                },
                id,
            ) by {}
            assert forall|id: I| #[trigger]
                holds(levels, id) <==> done.contains(id) || holds(s.levels, id) by {
                if holds(levels, id) {
                    let (q, i) = choose|q: u64, i: int| rests_at(levels, q, i, id);
                    if q == p && i < n {
                        assert(done[i] == id);
                    } else {
                        assert(rests_at(
                            s.levels,
                            q,
                            if q == p {
                                i - n
                            } else {
                                i
                            },
                            id,
                        ));
                    }
                }
                if done.contains(id) {
                    let i = done.index_of(id);
                    assert(rests_at(levels, p, i, id));
                }
                if holds(s.levels, id) {
                    lemma_swept_held(side, levels, limit, quantity, id);
                }
            }
            assert forall|id: I| #[trigger] done.contains(id) implies !holds(s.levels, id) by {
                let i = done.index_of(id);
                assert(rests_at(levels, p, i, id));
                if holds(s.levels, id) {
                    let (q, j) = choose|q: u64, j: int| rests_at(s.levels, q, j, id);
                    assert(rests_at(
                        levels,
                        q,
                        if q == p {
                            j + n
                        } else {
                            j
                        },
                        id,
                    ));
                }
            }
            assert forall|i: int, j: int| 0 <= i < j < done.len() implies done[i] != done[j] by {
                assert(rests_at(levels, p, i, done[i]));
                assert(rests_at(levels, p, j, done[j]));
            }
            assert forall|a: u64, i: int, b: u64, j: int, id: I|
                #![trigger rests_at(s.levels, a, i, id), rests_at(s.levels, b, j, id)]
                rests_at(s.levels, a, i, id) && rests_at(s.levels, b, j, id) implies a == b && i
                == j by {
                assert(rests_at(
                    levels,
                    a,
                    if a == p {
                        i + n
                    } else {
                        i
                    },
                    id,
                ));
                assert(rests_at(
                    levels,
                    b,
                    if b == p {
                        j + n
                    } else {
                        j
                    },
                    id,
                ));
            }
        }
    }
}

/// A level holds no more than its side.
pub proof fn lemma_level_within_total<I>(levels: Levels<I>, price: u64)
    requires
        levels.dom().finite(),
    ensures
        queue_total(lots_at(levels, price)) <= total(levels),
{
    if levels.contains_key(price) {
        lemma_total_remove(levels, price);
    }
}

/// An order that is put to rest adds its quantity to its side.
pub proof fn law_resting_adds_quantity<I>(levels: Levels<I>, price: u64, lot: Lot<I>)
    requires
        levels.dom().finite(),
    ensures
        total(with_lot(levels, price, lot)) == total(levels) + lot.quantity,
{
    let more = with_lot(levels, price, lot);
    let queue = lots_at(levels, price);
    lemma_total_remove(more, price);
    assert(more.remove(price) =~= levels.remove(price));
    lemma_queue_total_concat(queue, seq![lot]);
    assert(queue.push(lot) =~= queue + seq![lot]);
    assert(queue_total(seq![lot]) == lot.quantity) by {
        assert(seq![lot].drop_first() =~= Seq::empty());
        assert(queue_total(seq![lot].drop_first()) == 0);
    }
    if levels.contains_key(price) {
        lemma_total_remove(levels, price);
    } else {
        assert(levels.remove(price) =~= levels);
    }
}

/// An order that is cancelled takes its quantity off its side.
pub proof fn law_cancelling_takes_quantity_off<I>(levels: Levels<I>, price: u64, pos: int, id: I)
    requires
        sound(levels),
        rests_at(levels, price, pos, id),
    ensures
        total(without(levels, id)) + levels[price][pos].quantity == total(levels),
{
    let queue = levels[price];
    lemma_without(levels, price, pos, id);
    lemma_total_remove(levels, price);
    lemma_queue_total_remove(queue, pos);
    if queue.len() == 1 {
        assert(queue.remove(pos) =~= Seq::empty());
    } else {
        let fewer = without(levels, id);
        lemma_total_remove(fewer, price);
        assert(fewer.remove(price) =~= levels.remove(price));
    }
}

/// Taking one lot out of a queue takes its quantity off the total.
proof fn lemma_queue_total_remove<I>(queue: Seq<Lot<I>>, pos: int)
    requires
        0 <= pos < queue.len(),
    ensures
        queue_total(queue) == queue_total(queue.remove(pos)) + queue[pos].quantity,
    decreases queue.len(),
{
    if pos == 0 {
        assert(queue.remove(0) =~= queue.drop_first());
    } else {
        lemma_queue_total_remove(queue.drop_first(), pos - 1);
        assert(queue.remove(pos).drop_first() =~= queue.drop_first().remove(pos - 1));
    }
}

/// Putting an order to rest and cancelling it leaves its side as it was.
pub proof fn law_add_then_cancel_restores<I>(levels: Levels<I>, price: u64, lot: Lot<I>)
    requires
        sound(levels),
        !holds(levels, lot.id),
    ensures
        without(with_lot(levels, price, lot), lot.id) == levels,
{
    let more = with_lot(levels, price, lot);
    let queue = lots_at(levels, price);
    let pos = queue.len() as int;
    assert(rests_at(more, price, pos, lot.id));
    assert forall|p: u64, i: int, q: u64, j: int, id: I|
        #![trigger rests_at(more, p, i, id), rests_at(more, q, j, id)]
        rests_at(more, p, i, id) && rests_at(more, q, j, id) implies p == q && i == j by {
        assert(rests_at(levels, p, i, id) || (p == price && i == pos));
        assert(rests_at(levels, q, j, id) || (q == price && j == pos));
        if id == lot.id {
            assert(!rests_at(levels, p, i, id) && !rests_at(levels, q, j, id));
        }
    }
    lemma_without(more, price, pos, lot.id);
    assert(queue.push(lot).remove(pos) =~= queue);
    assert(without(more, lot.id) =~= levels);
}

/// A fill-or-kill order is filled completely, or else nothing at all happens
/// and its whole quantity is reported back.
pub proof fn law_fill_or_kill<H>(
    pre: Depth<H>,
    side: Side,
    qty: u64,
    r: BookResult<MarketOrderResult>,
    post: Depth<H>,
)
    requires
        pre.valid(),
        pre.market_step(side, qty, MarketOrderMode::FillOrKill, r, post),
    ensures
        r is Ok,
        r->Ok_0.remaining == 0 || (r->Ok_0.remaining == qty && post == pre),
{
    law_market_fills_what_there_is(side.other(), pre.on(side.other()), qty);
}

/// A market order never rests, and what it reports as unfilled is what it did
/// not trade: no more than it asked for, and off the other side goes exactly the
/// difference.
pub proof fn law_market_order_never_rests<H>(
    pre: Depth<H>,
    side: Side,
    qty: u64,
    mode: MarketOrderMode,
    r: BookResult<MarketOrderResult>,
    post: Depth<H>,
)
    requires
        pre.valid(),
        pre.market_step(side, qty, mode, r, post),
    ensures
        post.on(side) == pre.on(side),
        r is Ok,
        r->Ok_0.remaining <= qty,
        total(post.on(side.other())) + (qty - r->Ok_0.remaining) == total(pre.on(side.other())),
{
    law_quantity_is_conserved(side.other(), pre.on(side.other()), None, qty);
}

/// A limit order that does not cross only rests, and cancelling it leaves the
/// book as it was.
pub proof fn law_quote_then_cancel_restores<H>(
    pre: Depth<H>,
    side: Side,
    price: u64,
    qty: u64,
    r: BookResult<Option<H>>,
    mid: Depth<H>,
    c: BookResult<()>,
    post: Depth<H>,
)
    requires
        pre.valid(),
        pre.limit_step(side, price, qty, r, mid),
        r is Ok,
        r->Ok_0 is Some,
        forall|p: u64| #[trigger]
            pre.on(side.other()).contains_key(p) ==> !crosses(side.other(), Some(price), p),
        mid.cancel_step(r->Ok_0->Some_0, c, post),
    ensures
        c is Ok,
        post == pre,
{
    let h = r->Ok_0->Some_0;
    let opp = side.other();
    let s = pre.taking(side, Some(price), qty);
    lemma_best_exists(opp, pre.on(opp).dom());
    if let Some(p) = best(opp, pre.on(opp).dom()) {
        assert(pre.on(opp).contains_key(p));
    }
    assert(s.levels == pre.on(opp) && s.left == qty && s.spent == 0);
    let traded = pre.taken(side, Some(price), qty);
    assert(traded =~= pre);
    let lot = Lot { id: h, quantity: qty };
    lemma_holds_with_lot(pre.on(side), price, lot, h);
    law_add_then_cancel_restores(pre.on(side), price, lot);
    assert(mid.has(h));
    assert(mid.half(h) == side);
    assert(post =~= pre);
}

/// Taking what it can from the other side and resting what is left never
/// crosses the book.
pub proof fn law_limit_order_leaves_book_uncrossed<H>(
    pre: Depth<H>,
    side: Side,
    price: u64,
    qty: u64,
    r: BookResult<Option<H>>,
    post: Depth<H>,
)
    requires
        pre.valid(),
        pre.limit_step(side, price, qty, r, post),
    ensures
        uncrossed(post.bids, post.asks),
{
    let opp = side.other();
    lemma_sweep_leaves(opp, pre.on(opp), Some(price), qty);
    assert forall|p: u64, q: u64| #[trigger]
        post.bids.contains_key(p) && #[trigger] post.asks.contains_key(q) implies p < q by {
        let mine = match side {
            Side::Bid => p,
            Side::Ask => q,
        };
        let theirs = match side {
            Side::Bid => q,
            Side::Ask => p,
        };
        assert(post.on(opp).contains_key(theirs));
        assert(pre.on(opp).contains_key(theirs));
        if pre.on(side).contains_key(mine) {
            assert(pre.bids.contains_key(p) && pre.asks.contains_key(q));
        }
    }
}

} // verus!
