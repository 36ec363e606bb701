//! What keeps the warm workloads going: each hot call leaves the book in the
//! shape that its setup gave it, so it can be called over and over.

use vstd::prelude::*;

use crate::api::Depth;
use crate::errors::{BookError, BookResult};
use crate::model::{
    best, crosses, distinct_ids, is_best, lemma_best_exists, lemma_best_unique, lemma_total_remove,
    lemma_without, lots_at, queue_total, rests_at, sweep, take, total, with_lot, Levels, Lot,
};
use crate::types::{MarketOrderResult, Side};
use crate::warm::{
    crossing_pair, deep_asks, deep_orders, deep_orders_within, deep_pairs, deep_quotes,
    heavy_prices, lined_up, lines_through, market_taken, match_quotes, near_quotes, quote_step,
    quoted, quotes_through, rebuilt, spread_price, spread_prices, sweep_quotes, swept_once,
    toggled, Line, Quote, DEEP_LEVELS, DEEP_MID, DEEP_NEAR_LEVELS, HEAVY_DEPTH, HEAVY_PRICE,
    MATCH_DEPTH, MATCH_PRICE, SPREAD_K, SPREAD_MID, SPREAD_TARGET, SWEEP_LEVELS, SWEEP_MID,
    SWEEP_STRIPS, SWEEP_TOTAL,
};

verus! {

/// No order resting opposite to `side` can trade at `price`.
pub open spec fn clear<H>(depth: Depth<H>, side: Side, price: u64) -> bool {
    forall|p: u64| #[trigger]
        depth.on(side.other()).contains_key(p) ==> !crosses(side.other(), Some(price), p)
}

/// A limit order that nothing crosses, and that there is room for, comes to
/// rest.
proof fn lemma_rests<H>(
    pre: Depth<H>,
    side: Side,
    price: u64,
    qty: u64,
    r: BookResult<Option<H>>,
    post: Depth<H>,
)
    requires
        pre.on(side.other()).dom().finite(),
        clear(pre, side, price),
        pre.room(side) > 0,
        qty > 0,
        pre.limit_step(side, price, qty, r, post),
    ensures
        r is Ok,
        r->Ok_0 is Some,
        !pre.has(r->Ok_0->Some_0),
        post == pre.rested(side, price, r->Ok_0->Some_0, qty),
{
    let opp = side.other();
    lemma_best_exists(opp, pre.on(opp).dom());
    if let Some(p) = best(opp, pre.on(opp).dom()) {
        assert(pre.on(opp).contains_key(p));
    }
    assert(pre.taken(side, Some(price), qty) =~= pre);
}

/// The `add_cancel` workload holds no order or one: its first hot call puts a
/// bid to rest in an empty book, and its second one empties the book again.
pub proof fn law_add_cancel_is_steady<H>(
    start: Depth<H>,
    up: Depth<H>,
    resting: Option<H>,
    down: Depth<H>,
    left: Option<H>,
)
    requires
        start.bids == Levels::<H>::empty(),
        start.asks == Levels::<H>::empty(),
        start.bid_room > 0,
        start.pooled ==> start.bid_room == start.ask_room,
        toggled(start, None, up, resting),
        toggled(up, resting, down, left),
    ensures
        resting matches Some(h) && up == start.rested(Side::Bid, 100, h, 1),
        left is None,
        down == start,
{
    let r = choose|r: BookResult<Option<H>>| #[trigger]
        start.limit_step(Side::Bid, 100, 1, r, up) && resting == (match r {
            Ok(Some(h)) => Some(h),
            _ => None,
        });
    lemma_rests(start, Side::Bid, 100, 1, r, up);
    let h = r->Ok_0->Some_0;
    let c = choose|c: BookResult<()>| #[trigger] up.cancel_step(h, c, down);
    let queue = seq![Lot { id: h, quantity: 1u64 }];
    assert(up.bids =~= Levels::<H>::empty().insert(100, queue)) by {
        assert(Seq::<Lot<H>>::empty().push(Lot { id: h, quantity: 1u64 }) =~= queue);
    }
    assert(rests_at(up.bids, 100, 0, h));
    assert(distinct_ids(up.bids));
    lemma_without(up.bids, 100, 0, h);
    assert(up.bids.remove(100) =~= Levels::<H>::empty());
    assert(down =~= start);
}

/// The lots of orders of quantity 1.
pub open spec fn lots_of<H>(handles: Seq<H>) -> Seq<Lot<H>> {
    Seq::new(handles.len(), |i: int| Lot { id: handles[i], quantity: 1 })
}

/// The orders of `line` are all that rests: bids of quantity 1 at the one price
/// of the `cancel_heavy` workload, in the order in which they are queued.
pub open spec fn heavy_line<H>(line: Line<H>) -> bool {
    &&& line.depth.asks == Levels::<H>::empty()
    &&& line.handles.no_duplicates()
    &&& line.depth.bids == (if line.handles.len() == 0 {
        Levels::<H>::empty()
    } else {
        Levels::<H>::empty().insert(HEAVY_PRICE, lots_of(line.handles))
    })
}

/// One more bid at the one price.
proof fn lemma_heavy_joined<H>(pre: Line<H>, post: Line<H>)
    requires
        heavy_line(pre),
        pre.depth.bid_room > 0,
        pre.joined(HEAVY_PRICE, post),
    ensures
        heavy_line(post),
        post.handles.len() == pre.handles.len() + 1,
        post.handles.drop_last() == pre.handles,
        post.depth.bid_room == pre.depth.bid_room - 1,
{
    let r = choose|r: BookResult<Option<H>>| #[trigger] pre.bid(HEAVY_PRICE, r, post);
    lemma_rests(pre.depth, Side::Bid, HEAVY_PRICE, 1, r, post.depth);
    let h = r->Ok_0->Some_0;
    assert(!pre.handles.contains(h)) by {
        if pre.handles.contains(h) {
            let i = choose|i: int| 0 <= i < pre.handles.len() && pre.handles[i] == h;
            assert(rests_at(pre.depth.bids, HEAVY_PRICE, i, h));
        }
    }
    assert(post.handles.drop_last() =~= pre.handles);
    assert(lots_of(post.handles) =~= lots_at(pre.depth.bids, HEAVY_PRICE).push(
        Lot { id: h, quantity: 1 },
    ));
    assert(post.depth.bids =~= Levels::<H>::empty().insert(HEAVY_PRICE, lots_of(post.handles)));
}

/// The `cancel_heavy` workload keeps its level as deep as its setup made it:
/// a hot call adds an order at the back and cancels the one at the front, so
/// the level never empties.
pub proof fn law_cancel_heavy_is_steady<H>(pre: Line<H>, post: Line<H>)
    requires
        heavy_line(pre),
        pre.handles.len() == HEAVY_DEPTH,
        pre.depth.bid_room > 0,
        pre.turned(HEAVY_PRICE, post),
    ensures
        heavy_line(post),
        post.handles.len() == HEAVY_DEPTH,
        post.handles.drop_last() == pre.handles.drop_first(),
        post.depth.bid_room == pre.depth.bid_room,
{
    let mid = choose|mid: Line<H>| #[trigger] pre.joined(HEAVY_PRICE, mid) && mid.served(post);
    lemma_heavy_joined(pre, mid);
    let h = mid.handles[0];
    let r = choose|r: BookResult<()>| #[trigger] mid.depth.cancel_step(h, r, post.depth);
    let bids = mid.depth.bids;
    assert(rests_at(bids, HEAVY_PRICE, 0, h));
    assert(distinct_ids(bids)) by {
        assert forall|p: u64, i: int, q: u64, j: int, id: H|
            #![trigger rests_at(bids, p, i, id), rests_at(bids, q, j, id)]
            rests_at(bids, p, i, id) && rests_at(bids, q, j, id) implies p == q && i == j by {
            assert(mid.handles[i] == id && mid.handles[j] == id);
        }
    }
    lemma_without(bids, HEAVY_PRICE, 0, h);
    assert(bids[HEAVY_PRICE].remove(0) =~= lots_of(post.handles));
    assert(post.depth.bids =~= Levels::<H>::empty().insert(HEAVY_PRICE, lots_of(post.handles)));
    assert(post.handles.drop_last() =~= mid.handles.drop_last().drop_first());
    assert(post.handles.no_duplicates());
}

/// The setup of the `cancel_heavy` workload makes a level as deep as it wants
/// it, out of an empty book that has room for one order more than that.
pub proof fn law_cancel_heavy_starts_steady<H>(start: Line<H>, post: Line<H>)
    requires
        start.depth.bids == Levels::<H>::empty(),
        start.depth.asks == Levels::<H>::empty(),
        start.handles == Seq::<H>::empty(),
        start.depth.bid_room > HEAVY_DEPTH,
        lined_up(start, heavy_prices(HEAVY_DEPTH as nat), post),
    ensures
        heavy_line(post),
        post.handles.len() == HEAVY_DEPTH,
        post.depth.bid_room == start.depth.bid_room - HEAVY_DEPTH,
{
    lemma_heavy_lined_up(start, HEAVY_DEPTH as nat, post);
}

/// Bids are added one after the other.
proof fn lemma_lined_split<H>(pre: Line<H>, prices: Seq<u64>, post: Line<H>) -> (mid: Line<H>)
    requires
        lined_up(pre, prices, post),
        prices.len() > 0,
    ensures
        lined_up(pre, prices.drop_last(), mid),
        mid.joined(prices.last(), post),
{
    let states = choose|states: Seq<Line<H>>| #[trigger]
        lines_through(states, prices) && states[0] == pre && states[prices.len() as int] == post;
    assert(lines_through(states, prices) && states[0] == pre && states[prices.len() as int]
        == post);
    let fewer = states.drop_last();
    let front = prices.drop_last();
    assert forall|i: int| 0 <= i < front.len() implies fewer[i].joined(
        #[trigger] front[i],
        fewer[i + 1],
    ) by {
        assert(states[i].joined(prices[i], states[i + 1]));
    }
    assert(lines_through(fewer, front));
    let last = prices.len() - 1;
    assert(states[last].joined(prices[last], states[last + 1]));
    states[last]
}

proof fn lemma_heavy_lined_up<H>(start: Line<H>, n: nat, post: Line<H>)
    requires
        start.depth.bids == Levels::<H>::empty(),
        start.depth.asks == Levels::<H>::empty(),
        start.handles == Seq::<H>::empty(),
        start.depth.bid_room > n,
        lined_up(start, heavy_prices(n), post),
    ensures
        heavy_line(post),
        post.handles.len() == n,
        post.depth.bid_room == start.depth.bid_room - n,
    decreases n,
{
    if n > 0 {
        let mid = lemma_lined_split(start, heavy_prices(n), post);
        assert(heavy_prices(n).drop_last() =~= heavy_prices((n - 1) as nat));
        lemma_heavy_lined_up(start, (n - 1) as nat, mid);
        lemma_heavy_joined(mid, post);
    }
}

/// The `k`th price of the cycle of the `add_spread` workload, counted on without
/// end.
pub open spec fn cycle_price(k: nat) -> u64 {
    (SPREAD_MID + k % SPREAD_K as nat) as u64
}

/// The orders of `line` are all that rests: bids of quantity 1, each alone at
/// its price, at successive prices of the cycle from the `first` one on.
pub open spec fn spread_line<H>(line: Line<H>, first: nat) -> bool {
    &&& line.depth.asks == Levels::<H>::empty()
    &&& line.handles.no_duplicates()
    &&& forall|i: int|
        0 <= i < line.handles.len() ==> lots_at(
            line.depth.bids,
            cycle_price((first + i) as nat),
        ) == seq![Lot { id: #[trigger] line.handles[i], quantity: 1u64 }]
    &&& forall|p: u64| #[trigger]
        line.depth.bids.contains_key(p) ==> exists|i: int|
            0 <= i < line.handles.len() && p == #[trigger] cycle_price((first + i) as nat)
}

/// Successive prices of the cycle differ, up to a whole cycle.
proof fn lemma_cycle(first: nat, i: int, j: int)
    requires
        0 <= i < SPREAD_K,
        0 <= j < SPREAD_K,
        cycle_price((first + i) as nat) == cycle_price((first + j) as nat),
    ensures
        i == j,
{
}

/// One more bid, at the next price of the cycle.
proof fn lemma_spread_joined<H>(pre: Line<H>, first: nat, post: Line<H>)
    requires
        spread_line(pre, first),
        pre.handles.len() < SPREAD_K,
        pre.depth.bid_room > 0,
        pre.joined(cycle_price(first + pre.handles.len()), post),
    ensures
        spread_line(post, first),
        !pre.depth.bids.contains_key(cycle_price(first + pre.handles.len())),
        post.handles.len() == pre.handles.len() + 1,
        post.handles.drop_last() == pre.handles,
        post.depth.bid_room == pre.depth.bid_room - 1,
{
    let n = pre.handles.len() as int;
    let price = cycle_price(first + pre.handles.len());
    let r = choose|r: BookResult<Option<H>>| #[trigger] pre.bid(price, r, post);
    lemma_rests(pre.depth, Side::Bid, price, 1, r, post.depth);
    let h = r->Ok_0->Some_0;
    if pre.depth.bids.contains_key(price) {
        let i = choose|i: int|
            0 <= i < pre.handles.len() && price == #[trigger] cycle_price((first + i) as nat);
        lemma_cycle(first, i, n);
    }
    assert(!pre.handles.contains(h)) by {
        if pre.handles.contains(h) {
            let i = choose|i: int| 0 <= i < pre.handles.len() && pre.handles[i] == h;
            let p = cycle_price((first + i) as nat);
            assert(lots_at(pre.depth.bids, p)[0].id == pre.handles[i]);
            assert(rests_at(pre.depth.bids, p, 0, h));
        }
    }
    assert(post.handles.drop_last() =~= pre.handles);
    let bids = post.depth.bids;
    assert forall|i: int| 0 <= i < post.handles.len() implies lots_at(
        bids,
        cycle_price((first + i) as nat),
    ) == seq![Lot { id: #[trigger] post.handles[i], quantity: 1u64 }] by {
        let p = cycle_price((first + i) as nat);
        if i < n {
            assert(lots_at(pre.depth.bids, p) == seq![
                Lot { id: pre.handles[i], quantity: 1u64 },
            ]);
            if p == price {
                lemma_cycle(first, i, n);
            }
        } else {
            assert(lots_at(bids, p) =~= seq![Lot { id: h, quantity: 1u64 }]);
        }
    }
    assert forall|p: u64| #[trigger] bids.contains_key(p) implies exists|i: int|
        0 <= i < post.handles.len() && p == #[trigger] cycle_price((first + i) as nat) by {
        if p == price {
            assert(p == cycle_price((first + n) as nat));
        } else {
            assert(pre.depth.bids.contains_key(p));
            let i = choose|i: int|
                0 <= i < pre.handles.len() && p == #[trigger] cycle_price((first + i) as nat);
            assert(p == cycle_price((first + i) as nat));
        }
    }
}

/// Where each order is alone at its price, what rests is what is queued.
proof fn lemma_spread_lots<H>(line: Line<H>, first: nat)
    requires
        spread_line(line, first),
        line.handles.len() <= SPREAD_K,
    ensures
        distinct_ids(line.depth.bids),
        forall|p: u64| #[trigger]
            line.depth.bids.contains_key(p) ==> line.depth.bids[p].len() == 1,
{
    let bids = line.depth.bids;
    assert forall|p: u64| #[trigger] bids.contains_key(p) implies bids[p].len() == 1 by {
        let i = choose|i: int|
            0 <= i < line.handles.len() && p == #[trigger] cycle_price((first + i) as nat);
        assert(lots_at(bids, p) == seq![Lot { id: line.handles[i], quantity: 1u64 }]);
    }
    assert forall|p: u64, i: int, q: u64, j: int, id: H|
        #![trigger rests_at(bids, p, i, id), rests_at(bids, q, j, id)]
        rests_at(bids, p, i, id) && rests_at(bids, q, j, id) implies p == q && i == j by {
        let k = choose|k: int|
            0 <= k < line.handles.len() && p == #[trigger] cycle_price((first + k) as nat);
        let m = choose|m: int|
            0 <= m < line.handles.len() && q == #[trigger] cycle_price((first + m) as nat);
        assert(lots_at(bids, p) == seq![Lot { id: line.handles[k], quantity: 1u64 }]);
        assert(lots_at(bids, q) == seq![Lot { id: line.handles[m], quantity: 1u64 }]);
        assert(lots_at(bids, p)[i].id == line.handles[k]);
        assert(lots_at(bids, q)[j].id == line.handles[m]);
    }
}

/// There is a level at the price of each queued order.
proof fn lemma_spread_at<H>(line: Line<H>, first: nat, i: int)
    requires
        spread_line(line, first),
        0 <= i < line.handles.len(),
    ensures
        line.depth.bids.contains_key(cycle_price((first + i) as nat)),
{
    let p = cycle_price((first + i) as nat);
    assert(lots_at(line.depth.bids, p) == seq![Lot { id: line.handles[i], quantity: 1u64 }]);
    assert(lots_at(line.depth.bids, p).len() == 1);
}

/// The oldest order is cancelled, and its level goes.
proof fn lemma_spread_served<H>(pre: Line<H>, first: nat, post: Line<H>)
    requires
        spread_line(pre, first),
        0 < pre.handles.len() <= SPREAD_K,
        pre.served(post),
    ensures
        spread_line(post, first + 1),
        post.handles == pre.handles.drop_first(),
        post.depth.bids == pre.depth.bids.remove(cycle_price(first)),
        post.depth.bid_room == pre.depth.bid_room + 1,
{
    let h = pre.handles[0];
    let r = choose|r: BookResult<()>| #[trigger] pre.depth.cancel_step(h, r, post.depth);
    let bids = pre.depth.bids;
    let gone = cycle_price(first);
    assert(gone == cycle_price((first + 0) as nat));
    assert(lots_at(bids, gone) == seq![Lot { id: pre.handles[0], quantity: 1u64 }]);
    assert(lots_at(bids, gone).len() == 1);
    assert(lots_at(bids, gone)[0].id == h);
    assert(rests_at(bids, gone, 0, h));
    lemma_spread_lots(pre, first);
    lemma_without(bids, gone, 0, h);
    let left = post.depth.bids;
    assert forall|i: int| 0 <= i < post.handles.len() implies lots_at(
        left,
        cycle_price((first + 1 + i) as nat),
    ) == seq![Lot { id: #[trigger] post.handles[i], quantity: 1u64 }] by {
        let p = cycle_price((first + 1 + i) as nat);
        assert(p == cycle_price((first + (i + 1)) as nat));
        assert(lots_at(bids, p) == seq![Lot { id: pre.handles[i + 1], quantity: 1u64 }]);
        if p == gone {
            lemma_cycle(first, i + 1, 0);
        }
    }
    assert forall|p: u64| #[trigger] left.contains_key(p) implies exists|i: int|
        0 <= i < post.handles.len() && p == #[trigger] cycle_price((first + 1 + i) as nat) by {
        assert(bids.contains_key(p));
        let i = choose|i: int|
            0 <= i < pre.handles.len() && p == #[trigger] cycle_price((first + i) as nat);
        assert(i > 0);
        assert(p == cycle_price((first + 1 + (i - 1)) as nat));
    }
}

/// The cursor points at the price behind the queued ones, and stays there when
/// both move on.
proof fn lemma_cursor(first: nat, cursor: u64)
    requires
        cursor as nat % SPREAD_K as nat == (first + SPREAD_TARGET as nat) % SPREAD_K as nat,
    ensures
        spread_price(cursor) == cycle_price(first + SPREAD_TARGET as nat),
        cursor.wrapping_add(1) as nat % SPREAD_K as nat == (first + 1 + SPREAD_TARGET as nat)
            % SPREAD_K as nat,
{
}

/// The `add_spread` workload keeps as many orders as its setup made, each alone
/// at its price: a hot call opens a level that was not there and drains the
/// level of the oldest order.
pub proof fn law_add_spread_is_steady<H>(pre: Line<H>, first: nat, cursor: u64, post: Line<H>)
    requires
        spread_line(pre, first),
        pre.handles.len() == SPREAD_TARGET,
        cursor as nat % SPREAD_K as nat == (first + SPREAD_TARGET as nat) % SPREAD_K as nat,
        pre.depth.bid_room > 0,
        pre.turned(spread_price(cursor), post),
    ensures
        spread_line(post, first + 1),
        post.handles.len() == SPREAD_TARGET,
        post.handles.drop_last() == pre.handles.drop_first(),
        post.depth.bid_room == pre.depth.bid_room,
        cursor.wrapping_add(1) as nat % SPREAD_K as nat == (first + 1 + SPREAD_TARGET as nat)
            % SPREAD_K as nat,
        !pre.depth.bids.contains_key(spread_price(cursor)),
        post.depth.bids.contains_key(spread_price(cursor)),
        pre.depth.bids.contains_key(cycle_price(first)),
        !post.depth.bids.contains_key(cycle_price(first)),
{
    let price = spread_price(cursor);
    lemma_cursor(first, cursor);
    let mid = choose|mid: Line<H>| #[trigger] pre.joined(price, mid) && mid.served(post);
    lemma_spread_joined(pre, first, mid);
    lemma_spread_served(mid, first, post);
    assert(post.handles.drop_last() =~= mid.handles.drop_last().drop_first());
    lemma_spread_at(pre, first, 0);
    lemma_spread_at(mid, first, SPREAD_TARGET as int);
    assert(price != cycle_price(first)) by {
        if price == cycle_price(first) {
            lemma_cycle(first, 0, SPREAD_TARGET as int);
        }
    }
}

/// The setup of the `add_spread` workload makes as many orders as it wants, each
/// alone at its price, out of an empty book that has room for one order more
/// than that.
pub proof fn law_add_spread_starts_steady<H>(start: Line<H>, post: Line<H>)
    requires
        start.depth.bids == Levels::<H>::empty(),
        start.depth.asks == Levels::<H>::empty(),
        start.handles == Seq::<H>::empty(),
        start.depth.bid_room > SPREAD_TARGET,
        lined_up(start, spread_prices(SPREAD_TARGET as nat), post),
    ensures
        spread_line(post, 0),
        post.handles.len() == SPREAD_TARGET,
        post.depth.bid_room == start.depth.bid_room - SPREAD_TARGET,
{
    lemma_spread_lined_up(start, SPREAD_TARGET as nat, post);
}

proof fn lemma_spread_lined_up<H>(start: Line<H>, n: nat, post: Line<H>)
    requires
        n <= SPREAD_K,
        start.depth.bids == Levels::<H>::empty(),
        start.depth.asks == Levels::<H>::empty(),
        start.handles == Seq::<H>::empty(),
        start.depth.bid_room > n,
        lined_up(start, spread_prices(n), post),
    ensures
        spread_line(post, 0),
        post.handles.len() == n,
        post.depth.bid_room == start.depth.bid_room - n,
    decreases n,
{
    if n > 0 {
        let mid = lemma_lined_split(start, spread_prices(n), post);
        assert(spread_prices(n).drop_last() =~= spread_prices((n - 1) as nat));
        lemma_spread_lined_up(start, (n - 1) as nat, mid);
        assert(spread_prices(n).last() == cycle_price((n - 1) as nat));
        lemma_spread_joined(mid, 0, post);
    }
}

/// Every level has lots, and every lot has quantity 1.
pub open spec fn unit<H>(levels: Levels<H>) -> bool {
    &&& levels.dom().finite()
    &&& forall|p: u64| #[trigger] levels.contains_key(p) ==> levels[p].len() > 0
    &&& forall|p: u64, i: int|
        levels.contains_key(p) && 0 <= i < levels[p].len() ==> (#[trigger] levels[p][i]).quantity
            == 1
}

/// How many lots rest at `price`.
pub open spec fn count<H>(levels: Levels<H>, price: u64) -> nat {
    lots_at(levels, price).len()
}

/// How many of `quotes` are on `side`.
pub open spec fn quotes_on(quotes: Seq<Quote>, side: Side) -> nat
    decreases quotes.len(),
{
    if quotes.len() == 0 {
        0
    } else {
        quotes_on(quotes.drop_last(), side) + (if quotes.last().side == side {
            1nat
        } else {
            0
        })
    }
}

/// How many of `quotes` are on `side` at `price`.
pub open spec fn quotes_at(quotes: Seq<Quote>, side: Side, price: u64) -> nat
    decreases quotes.len(),
{
    if quotes.len() == 0 {
        0
    } else {
        quotes_at(quotes.drop_last(), side, price) + (if quotes.last().side == side
            && quotes.last().price == price {
            1nat
        } else {
            0
        })
    }
}

/// How much room on `side` it takes to put `quotes` to rest.
pub open spec fn room_for<H>(depth: Depth<H>, quotes: Seq<Quote>, side: Side) -> nat {
    if depth.pooled {
        quotes.len()
    } else {
        quotes_on(quotes, side)
    }
}

/// Bids are below `mid` and asks above it.
pub open spec fn parted<H>(depth: Depth<H>, mid: u64) -> bool {
    &&& forall|p: u64| #[trigger] depth.bids.contains_key(p) ==> p < mid
    &&& forall|p: u64| #[trigger] depth.asks.contains_key(p) ==> p > mid
}

/// The quotes are for quantity 1, bids below `mid` and asks above it.
pub open spec fn quotes_parted(quotes: Seq<Quote>, mid: u64) -> bool {
    forall|i: int|
        0 <= i < quotes.len() ==> (#[trigger] quotes[i]).qty == 1 && match quotes[i].side {
            Side::Bid => quotes[i].price < mid,
            Side::Ask => quotes[i].price > mid,
        }
}

/// Quotes are added one after the other.
proof fn lemma_quoted_split<H>(pre: Depth<H>, quotes: Seq<Quote>, post: Depth<H>) -> (mid: Depth<H>)
    requires
        quoted(pre, quotes, post),
        quotes.len() > 0,
    ensures
        quoted(pre, quotes.drop_last(), mid),
        quote_step(mid, quotes.last(), post),
{
    let states = choose|states: Seq<Depth<H>>| #[trigger]
        quotes_through(states, quotes) && states[0] == pre && states[quotes.len() as int] == post;
    assert(quotes_through(states, quotes) && states[0] == pre && states[quotes.len() as int]
        == post);
    let fewer = states.drop_last();
    let front = quotes.drop_last();
    assert forall|i: int| 0 <= i < front.len() implies quote_step(
        fewer[i],
        #[trigger] front[i],
        fewer[i + 1],
    ) by {
        assert(quote_step(states[i], quotes[i], states[i + 1]));
    }
    assert(quotes_through(fewer, front));
    let last = quotes.len() - 1;
    assert(quote_step(states[last], quotes[last], states[last + 1]));
    states[last]
}

/// Quotes that do not cross come to rest, each one at its price.
proof fn lemma_quotes_rest<H>(pre: Depth<H>, quotes: Seq<Quote>, mid: u64, post: Depth<H>)
    requires
        unit(pre.bids),
        unit(pre.asks),
        parted(pre, mid),
        quotes_parted(quotes, mid),
        room_for(pre, quotes, Side::Bid) <= pre.bid_room,
        room_for(pre, quotes, Side::Ask) <= pre.ask_room,
        quoted(pre, quotes, post),
    ensures
        unit(post.bids),
        unit(post.asks),
        parted(post, mid),
        post.pooled == pre.pooled,
        post.bid_room == pre.bid_room - room_for(pre, quotes, Side::Bid),
        post.ask_room == pre.ask_room - room_for(pre, quotes, Side::Ask),
        forall|p: u64| #[trigger]
            count(post.bids, p) == count(pre.bids, p) + quotes_at(quotes, Side::Bid, p),
        forall|p: u64| #[trigger]
            count(post.asks, p) == count(pre.asks, p) + quotes_at(quotes, Side::Ask, p),
    decreases quotes.len(),
{
    if quotes.len() == 0 {
        let states = choose|states: Seq<Depth<H>>| #[trigger]
            quotes_through(states, quotes) && states[0] == pre && states[quotes.len() as int]
                == post;
        assert(quotes_through(states, quotes) && states[0] == pre && states[quotes.len() as int]
            == post);
    } else {
        let near = lemma_quoted_split(pre, quotes, post);
        let front = quotes.drop_last();
        let q = quotes.last();
        assert(quotes_parted(front, mid)) by {
            assert forall|i: int| 0 <= i < front.len() implies (#[trigger] front[i]).qty == 1
                && match front[i].side {
                Side::Bid => front[i].price < mid,
                Side::Ask => front[i].price > mid,
            } by {
                assert(front[i] == quotes[i]);
            }
        }
        lemma_quotes_rest(pre, front, mid, near);
        lemma_quote_rests(near, q, mid, post);
        assert forall|p: u64| #[trigger] count(post.bids, p) == count(pre.bids, p) + quotes_at(
            quotes,
            Side::Bid,
            p,
        ) by {
            assert(count(near.bids, p) == count(pre.bids, p) + quotes_at(front, Side::Bid, p));
            assert(q.side is Bid ==> count(post.on(q.side), p) == count(post.bids, p));
        }
        assert forall|p: u64| #[trigger] count(post.asks, p) == count(pre.asks, p) + quotes_at(
            quotes,
            Side::Ask,
            p,
        ) by {
            assert(count(near.asks, p) == count(pre.asks, p) + quotes_at(front, Side::Ask, p));
            assert(q.side is Ask ==> count(post.on(q.side), p) == count(post.asks, p));
        }
    }
}

/// A quote that does not cross comes to rest at its price.
proof fn lemma_quote_rests<H>(pre: Depth<H>, q: Quote, mid: u64, post: Depth<H>)
    requires
        unit(pre.bids),
        unit(pre.asks),
        parted(pre, mid),
        q.qty == 1,
        q.side is Bid ==> q.price < mid,
        q.side is Ask ==> q.price > mid,
        pre.room(q.side) > 0,
        pre.pooled ==> pre.bid_room > 0 && pre.ask_room > 0,
        quote_step(pre, q, post),
    ensures
        unit(post.bids),
        unit(post.asks),
        parted(post, mid),
        post.pooled == pre.pooled,
        post.bid_room == pre.bid_room - (if pre.pooled || q.side is Bid {
            1int
        } else {
            0
        }),
        post.ask_room == pre.ask_room - (if pre.pooled || q.side is Ask {
            1int
        } else {
            0
        }),
        post.on(q.side.other()) == pre.on(q.side.other()),
        forall|p: u64| #[trigger]
            count(post.on(q.side), p) == count(pre.on(q.side), p) + (if p == q.price {
                1nat
            } else {
                0
            }),
{
    let r = choose|r: BookResult<Option<H>>| #[trigger]
        pre.limit_step(q.side, q.price, q.qty, r, post);
    assert(clear(pre, q.side, q.price));
    lemma_rests(pre, q.side, q.price, q.qty, r, post);
    let lot = Lot { id: r->Ok_0->Some_0, quantity: 1u64 };
    let before = pre.on(q.side);
    let after = post.on(q.side);
    assert(after == with_lot(before, q.price, lot));
    assert(unit(after)) by {
        assert forall|p: u64, i: int|
            after.contains_key(p) && 0 <= i < after[p].len() implies (#[trigger]
        after[p][i]).quantity == 1 by {
            if p == q.price {
                if i < lots_at(before, p).len() {
                    assert(after[p][i] == before[p][i]);
                }
            } else {
                assert(after[p][i] == before[p][i]);
            }
        }
    }
}

/// The asks up to `bound`.
pub open spec fn upto<H>(levels: Levels<H>, bound: u64) -> Levels<H> {
    Map::new(|p: u64| levels.contains_key(p) && p <= bound, |p: u64| levels[p])
}

/// The asks beyond `bound`.
pub open spec fn beyond<H>(levels: Levels<H>, bound: u64) -> Levels<H> {
    Map::new(|p: u64| levels.contains_key(p) && p > bound, |p: u64| levels[p])
}

/// A queue of lots of quantity 1 holds as much as it is long.
proof fn lemma_unit_queue<H>(queue: Seq<Lot<H>>)
    requires
        forall|i: int| 0 <= i < queue.len() ==> (#[trigger] queue[i]).quantity == 1,
    ensures
        queue_total(queue) == queue.len(),
    decreases queue.len(),
{
    if queue.len() > 0 {
        let rest = queue.drop_first();
        assert forall|i: int| 0 <= i < rest.len() implies (#[trigger] rest[i]).quantity == 1 by {
            assert(rest[i] == queue[i + 1]);
        }
        lemma_unit_queue(rest);
    }
}

/// A queue is taken whole by whoever wants at least as much as it holds.
proof fn lemma_take_whole<H>(queue: Seq<Lot<H>>, quantity: u64)
    requires
        forall|i: int| 0 <= i < queue.len() ==> (#[trigger] queue[i]).quantity == 1,
        queue.len() <= quantity,
    ensures
        take(queue, quantity).rest.len() == 0,
        take(queue, quantity).left == quantity - queue.len(),
        take(queue, quantity).spent == queue.len(),
    decreases queue.len(),
{
    if queue.len() > 0 {
        let rest = queue.drop_first();
        assert forall|i: int| 0 <= i < rest.len() implies (#[trigger] rest[i]).quantity == 1 by {
            assert(rest[i] == queue[i + 1]);
        }
        lemma_take_whole(rest, (quantity - 1) as u64);
    }
}

/// A market order for exactly what is offered up to a price takes that and
/// nothing else.
proof fn lemma_takes_band<H>(levels: Levels<H>, bound: u64, quantity: u64)
    requires
        unit(levels),
        total(upto(levels, bound)) == quantity,
    ensures
        ({
            let s = sweep(Side::Ask, levels, None, quantity);
            &&& s.levels == beyond(levels, bound)
            &&& s.left == 0
            &&& s.spent == quantity
        }),
    decreases levels.dom().len(),
{
    let low = upto(levels, bound);
    assert(low.dom().subset_of(levels.dom()));
    vstd::set_lib::lemma_set_subset_finite(levels.dom(), low.dom());
    lemma_best_exists(Side::Ask, levels.dom());
    if low.dom() =~= Set::<u64>::empty() {
        assert(beyond(levels, bound) =~= levels) by {
            assert forall|p: u64| levels.contains_key(p) implies p > bound by {
                if p <= bound {
                    assert(low.contains_key(p));
                }
            }
        }
    } else {
        let some = low.dom().choose();
        assert(low.contains_key(some));
        assert(levels.dom().contains(some));
        let p = best(Side::Ask, levels.dom())->0;
        assert(is_best(Side::Ask, levels.dom(), p));
        assert(p <= some <= bound);
        let queue = levels[p];
        assert(low.contains_key(p) && low[p] == queue);
        lemma_total_remove(low, p);
        assert(low.remove(p) =~= upto(levels.remove(p), bound));
        assert forall|i: int| 0 <= i < queue.len() implies (#[trigger] queue[i]).quantity == 1 by {
            assert(levels[p][i].quantity == 1);
        }
        lemma_unit_queue(queue);
        lemma_take_whole(queue, quantity);
        let fewer = levels.remove(p);
        assert(unit(fewer)) by {
            assert forall|q: u64, i: int|
                fewer.contains_key(q) && 0 <= i < fewer[q].len() implies (#[trigger]
            fewer[q][i]).quantity == 1 by {
                assert(levels[q][i].quantity == 1);
            }
        }
        lemma_takes_band(fewer, bound, (quantity - queue.len()) as u64);
        assert(beyond(fewer, bound) =~= beyond(levels, bound));
    }
}

/// The sum of `n(d)` for each `d` beyond `lo` up to `hi`.
pub open spec fn band(n: spec_fn(nat) -> nat, lo: nat, hi: nat) -> nat
    decreases hi,
{
    if hi <= lo {
        0
    } else {
        band(n, lo, (hi - 1) as nat) + n(hi)
    }
}

/// What is offered in a band, counted level by level.
proof fn lemma_band_total<H>(
    levels: Levels<H>,
    mid: u64,
    lo: nat,
    hi: nat,
    n: spec_fn(nat) -> nat,
)
    requires
        unit(levels),
        mid + hi <= u64::MAX,
        forall|p: u64| #[trigger] levels.contains_key(p) ==> mid + lo < p <= mid + hi,
        forall|d: nat| lo < d <= hi ==> count(levels, (mid + d) as u64) == #[trigger] n(d),
    ensures
        total(levels) == band(n, lo, hi),
    decreases hi,
{
    if hi <= lo {
        assert(levels.dom() =~= Set::<u64>::empty());
    } else {
        let p = (mid + hi) as u64;
        let fewer = levels.remove(p);
        assert(count(levels, p) == n(hi));
        assert(unit(fewer)) by {
            assert forall|q: u64, i: int|
                fewer.contains_key(q) && 0 <= i < fewer[q].len() implies (#[trigger]
            fewer[q][i]).quantity == 1 by {
                assert(levels[q][i].quantity == 1);
            }
        }
        assert forall|d: nat| lo < d <= hi - 1 implies count(fewer, (mid + d) as u64)
            == #[trigger] n(d) by {
            assert(count(levels, (mid + d) as u64) == n(d));
        }
        lemma_band_total(fewer, mid, lo, (hi - 1) as nat, n);
        if levels.contains_key(p) {
            let queue = levels[p];
            assert forall|i: int| 0 <= i < queue.len() implies (#[trigger] queue[i]).quantity
                == 1 by {
                assert(levels[p][i].quantity == 1);
            }
            lemma_unit_queue(queue);
            lemma_total_remove(levels, p);
        } else {
            assert(fewer =~= levels);
        }
    }
}

/// A number of equal quotes.
proof fn lemma_equal_quotes(quotes: Seq<Quote>, q: Quote, side: Side, p: u64)
    requires
        forall|i: int| 0 <= i < quotes.len() ==> #[trigger] quotes[i] == q,
    ensures
        quotes_on(quotes, side) == (if side == q.side {
            quotes.len()
        } else {
            0
        }),
        quotes_at(quotes, side, p) == (if side == q.side && p == q.price {
            quotes.len()
        } else {
            0
        }),
    decreases quotes.len(),
{
    if quotes.len() > 0 {
        let front = quotes.drop_last();
        assert forall|i: int| 0 <= i < front.len() implies #[trigger] front[i] == q by {
            assert(front[i] == quotes[i]);
        }
        lemma_equal_quotes(front, q, side, p);
        assert(quotes.last() == q);
    }
}

/// All that rests is asks of quantity 1 at the one price of the `match_single`
/// workload, as many as it keeps.
pub open spec fn match_book<H>(depth: Depth<H>) -> bool {
    &&& depth.bids == Levels::<H>::empty()
    &&& unit(depth.asks)
    &&& forall|p: u64| #[trigger]
        count(depth.asks, p) == (if p == MATCH_PRICE {
            MATCH_DEPTH as nat
        } else {
            0
        })
    &&& depth.pooled ==> depth.bid_room == depth.ask_room
}

/// The setup of the `match_single` workload makes a level as deep as it wants
/// it, out of an empty book with enough room.
pub proof fn law_match_single_starts_steady<H>(start: Depth<H>, post: Depth<H>)
    requires
        start.bids == Levels::<H>::empty(),
        start.asks == Levels::<H>::empty(),
        start.ask_room >= MATCH_DEPTH,
        start.pooled ==> start.bid_room == start.ask_room,
        quoted(start, match_quotes(MATCH_DEPTH as nat), post),
    ensures
        match_book(post),
        post.ask_room == start.ask_room - MATCH_DEPTH,
{
    let quotes = match_quotes(MATCH_DEPTH as nat);
    let q = Quote { side: Side::Ask, price: MATCH_PRICE, qty: 1 };
    lemma_equal_quotes(quotes, q, Side::Bid, MATCH_PRICE);
    lemma_equal_quotes(quotes, q, Side::Ask, MATCH_PRICE);
    lemma_quotes_rest(start, quotes, 99, post);
    assert forall|p: u64| #[trigger] count(post.asks, p) == (if p == MATCH_PRICE {
        MATCH_DEPTH as nat
    } else {
        0
    }) by {
        lemma_equal_quotes(quotes, q, Side::Ask, p);
    }
    assert(post.bids =~= Levels::<H>::empty()) by {
        assert forall|p: u64| !post.bids.contains_key(p) by {
            assert(count(post.bids, p) == count(start.bids, p) + quotes_at(quotes, Side::Bid, p));
            lemma_equal_quotes(quotes, q, Side::Bid, p);
        }
    }
}

/// The `match_single` workload keeps its level as deep as its setup made it: a
/// hot call adds an ask at the back and fills the one at the front, and nothing
/// of the crossing bid rests.
pub proof fn law_match_single_is_steady<H>(pre: Depth<H>, post: Depth<H>)
    requires
        match_book(pre),
        pre.ask_room > 0,
        quoted(pre, crossing_pair(), post),
    ensures
        match_book(post),
        post.ask_room == pre.ask_room,
        post.asks[MATCH_PRICE].drop_last() == pre.asks[MATCH_PRICE].drop_first(),
{
    let pair = crossing_pair();
    let mid = lemma_quoted_split(pre, pair, post);
    let near = lemma_quoted_split(pre, pair.drop_last(), mid);
    let none = pair.drop_last().drop_last();
    let states = choose|states: Seq<Depth<H>>| #[trigger]
        quotes_through(states, none) && states[0] == pre && states[none.len() as int] == near;
    assert(quotes_through(states, none) && states[0] == pre && states[none.len() as int] == near);
    assert(near == pre);
    let ask = pair[0];
    assert(pair.drop_last().last() == ask);
    assert(count(pre.asks, MATCH_PRICE) == MATCH_DEPTH);
    assert forall|p: u64| #[trigger] pre.asks.contains_key(p) implies p == MATCH_PRICE by {
        assert(count(pre.asks, p) > 0);
    }
    // The ask comes to rest.
    let r = choose|r: BookResult<Option<H>>| #[trigger]
        pre.limit_step(ask.side, ask.price, ask.qty, r, mid);
    lemma_rests(pre, Side::Ask, MATCH_PRICE, 1, r, mid);
    let lot = Lot { id: r->Ok_0->Some_0, quantity: 1u64 };
    let queue = pre.asks[MATCH_PRICE];
    let deeper = queue.push(lot);
    assert(mid.asks =~= pre.asks.insert(MATCH_PRICE, deeper));
    // The bid fills the front of the level.
    let bid = pair[1];
    let c = choose|c: BookResult<Option<H>>| #[trigger]
        mid.limit_step(bid.side, bid.price, bid.qty, c, post);
    assert(is_best(Side::Ask, mid.asks.dom(), MATCH_PRICE));
    lemma_best_unique(Side::Ask, mid.asks.dom(), MATCH_PRICE);
    assert(queue[0].quantity == 1);
    assert(deeper[0] == queue[0]);
    assert(take(deeper, 1).rest == deeper.drop_first() && take(deeper, 1).left == 0 && take(
        deeper,
        1,
    ).spent == 1) by {
        assert(take(deeper.drop_first(), 0).rest == deeper.drop_first());
    }
    let rest = deeper.drop_first();
    assert(rest.len() == MATCH_DEPTH);
    assert(post.asks =~= mid.asks.insert(MATCH_PRICE, rest));
    assert(rest.drop_last() =~= queue.drop_first());
    assert forall|p: u64, i: int|
        post.asks.contains_key(p) && 0 <= i < post.asks[p].len() implies (#[trigger]
    post.asks[p][i]).quantity == 1 by {
        assert(p == MATCH_PRICE);
        if i < rest.len() - 1 {
            assert(post.asks[p][i] == queue[i + 1]);
        }
    }
    assert(post.ask_room == pre.ask_room);
}

/// All that rests is asks of quantity 1: one at each price of the `sweep`
/// workload, from the lowest that has not been swept yet. There is room to put
/// back what has been swept.
pub open spec fn sweep_book<H>(depth: Depth<H>, strips_left: nat) -> bool {
    let gone = SWEEP_TOTAL - SWEEP_LEVELS * strips_left;
    &&& depth.bids == Levels::<H>::empty()
    &&& unit(depth.asks)
    &&& forall|p: u64| #[trigger]
        count(depth.asks, p) == (if SWEEP_MID + gone < p <= SWEEP_MID + SWEEP_TOTAL {
            1nat
        } else {
            0
        })
    &&& depth.ask_room >= gone
    &&& depth.pooled ==> depth.bid_room == depth.ask_room
}

/// The quotes that fill the book are one at each price.
proof fn lemma_sweep_quotes(n: nat, p: u64)
    requires
        n <= SWEEP_TOTAL,
    ensures
        quotes_parted(sweep_quotes(n), SWEEP_MID),
        quotes_on(sweep_quotes(n), Side::Bid) == 0,
        quotes_on(sweep_quotes(n), Side::Ask) == n,
        quotes_at(sweep_quotes(n), Side::Bid, p) == 0,
        quotes_at(sweep_quotes(n), Side::Ask, p) == (if SWEEP_MID < p <= SWEEP_MID + n {
            1nat
        } else {
            0
        }),
    decreases n,
{
    if n > 0 {
        lemma_sweep_quotes((n - 1) as nat, p);
        assert(sweep_quotes(n).drop_last() =~= sweep_quotes((n - 1) as nat));
    }
}

/// Filling an empty ask side.
proof fn lemma_sweep_filled<H>(pre: Depth<H>, post: Depth<H>)
    requires
        sweep_book(pre, 0),
        quoted(pre, sweep_quotes(SWEEP_TOTAL as nat), post),
    ensures
        sweep_book(post, SWEEP_STRIPS as nat),
        post.ask_room == pre.ask_room - SWEEP_TOTAL,
{
    let quotes = sweep_quotes(SWEEP_TOTAL as nat);
    lemma_sweep_quotes(SWEEP_TOTAL as nat, 0);
    assert forall|p: u64| !pre.asks.contains_key(p) by {
        assert(count(pre.asks, p) == 0);
    }
    lemma_quotes_rest(pre, quotes, SWEEP_MID, post);
    assert(post.bids =~= Levels::<H>::empty()) by {
        assert forall|p: u64| !post.bids.contains_key(p) by {
            lemma_sweep_quotes(SWEEP_TOTAL as nat, p);
            assert(count(post.bids, p) == count(pre.bids, p) + quotes_at(quotes, Side::Bid, p));
        }
    }
    assert forall|p: u64| #[trigger] count(post.asks, p) == (if SWEEP_MID < p <= SWEEP_MID
        + SWEEP_TOTAL {
        1nat
    } else {
        0
    }) by {
        lemma_sweep_quotes(SWEEP_TOTAL as nat, p);
        assert(count(post.asks, p) == count(pre.asks, p) + quotes_at(quotes, Side::Ask, p));
        assert(count(pre.asks, p) == 0);
    }
}

/// The setup of the `sweep` workload fills an empty book that has enough room.
pub proof fn law_sweep_starts_steady<H>(start: Depth<H>, post: Depth<H>)
    requires
        start.bids == Levels::<H>::empty(),
        start.asks == Levels::<H>::empty(),
        start.ask_room >= SWEEP_TOTAL,
        start.pooled ==> start.bid_room == start.ask_room,
        quoted(start, sweep_quotes(SWEEP_TOTAL as nat), post),
    ensures
        sweep_book(post, SWEEP_STRIPS as nat),
{
    lemma_sweep_filled(start, post);
}

pub open spec fn one_each() -> spec_fn(nat) -> nat {
    |d: nat| 1nat
}

proof fn lemma_one_each(lo: nat, hi: nat)
    requires
        lo <= hi,
    ensures
        band(one_each(), lo, hi) == hi - lo,
    decreases hi,
{
    if lo < hi {
        lemma_one_each(lo, (hi - 1) as nat);
    }
}

/// Each hot call of the `sweep` workload takes the lowest levels that are left,
/// as many as it wants, and no others. When none are left the next call fills
/// the book first.
pub proof fn law_sweep_is_steady<H>(pre: Depth<H>, strips_left: nat, post: Depth<H>)
    requires
        sweep_book(pre, strips_left),
        strips_left <= SWEEP_STRIPS,
        swept_once(pre, strips_left == 0, post),
    ensures
        sweep_book(
            post,
            if strips_left == 0 {
                (SWEEP_STRIPS - 1) as nat
            } else {
                (strips_left - 1) as nat
            },
        ),
{
    let refill = strips_left == 0;
    let (full, r) = choose|mid: Depth<H>, r: BookResult<MarketOrderResult>|
        (if refill {
            quoted(pre, sweep_quotes(SWEEP_TOTAL as nat), mid)
        } else {
            mid == pre
        }) && #[trigger] market_taken(mid, SWEEP_LEVELS, r, post);
    assert(market_taken(full, SWEEP_LEVELS, r, post));
    let strips = if refill {
        SWEEP_STRIPS as nat
    } else {
        strips_left
    };
    if refill {
        lemma_sweep_filled(pre, full);
    }
    lemma_strip_taken(full, strips, r, post);
}

/// One sweep of a book that has something left.
proof fn lemma_strip_taken<H>(
    pre: Depth<H>,
    strips_left: nat,
    r: BookResult<MarketOrderResult>,
    post: Depth<H>,
)
    requires
        sweep_book(pre, strips_left),
        0 < strips_left <= SWEEP_STRIPS,
        market_taken(pre, SWEEP_LEVELS, r, post),
    ensures
        sweep_book(post, (strips_left - 1) as nat),
{
    let lo = (SWEEP_TOTAL - SWEEP_LEVELS * strips_left) as nat;
    let hi = lo + SWEEP_LEVELS as nat;
    let bound = (SWEEP_MID + hi) as u64;
    let low = upto(pre.asks, bound);
    assert(low.dom().subset_of(pre.asks.dom()));
    vstd::set_lib::lemma_set_subset_finite(pre.asks.dom(), low.dom());
    assert(unit(low)) by {
        assert forall|p: u64, i: int|
            low.contains_key(p) && 0 <= i < low[p].len() implies (#[trigger] low[p][i]).quantity
            == 1 by {
            assert(pre.asks[p][i].quantity == 1);
        }
    }
    assert forall|p: u64| #[trigger] low.contains_key(p) implies SWEEP_MID + lo < p <= SWEEP_MID
        + hi by {
        assert(count(pre.asks, p) > 0);
    }
    assert forall|d: nat| lo < d <= hi implies count(low, (SWEEP_MID + d) as u64)
        == #[trigger] one_each()(d) by {
        assert(count(pre.asks, (SWEEP_MID + d) as u64) == 1);
    }
    lemma_band_total(low, SWEEP_MID, lo, hi, one_each());
    lemma_one_each(lo, hi);
    lemma_takes_band(pre.asks, bound, SWEEP_LEVELS);
    let left = beyond(pre.asks, bound);
    assert(post.asks == left);
    assert forall|p: u64| #[trigger] count(left, p) == (if SWEEP_MID + hi < p <= SWEEP_MID
        + SWEEP_TOTAL {
        1nat
    } else {
        0
    }) by {
        assert(count(pre.asks, p) == (if SWEEP_MID + lo < p <= SWEEP_MID + SWEEP_TOTAL {
            1nat
        } else {
            0
        }));
    }
    assert(unit(left)) by {
        assert(left.dom().subset_of(pre.asks.dom()));
        vstd::set_lib::lemma_set_subset_finite(pre.asks.dom(), left.dom());
        assert forall|p: u64, i: int|
            left.contains_key(p) && 0 <= i < left[p].len() implies (#[trigger] left[p][i]).quantity
            == 1 by {
            assert(pre.asks[p][i].quantity == 1);
        }
    }
}

/// How many orders of the deep book rest `d` ticks away from the mid; none
/// beyond its last level.
pub open spec fn deep_at(d: int) -> nat {
    if 0 < d <= DEEP_LEVELS {
        deep_orders(d as u64)
    } else {
        0
    }
}

/// All that rests is orders of quantity 1, on each side densest next to the mid
/// and thinner with distance.
pub open spec fn deep_book<H>(depth: Depth<H>) -> bool {
    &&& unit(depth.bids)
    &&& unit(depth.asks)
    &&& forall|p: u64| #[trigger] count(depth.bids, p) == deep_at(DEEP_MID - p)
    &&& forall|p: u64| #[trigger] count(depth.asks, p) == deep_at(p - DEEP_MID)
    &&& depth.pooled ==> depth.bid_room == depth.ask_room
}

/// Quotes in two parts.
proof fn lemma_quotes_concat(a: Seq<Quote>, b: Seq<Quote>, side: Side, p: u64)
    ensures
        quotes_on(a + b, side) == quotes_on(a, side) + quotes_on(b, side),
        quotes_at(a + b, side, p) == quotes_at(a, side, p) + quotes_at(b, side, p),
    decreases b.len(),
{
    if b.len() == 0 {
        assert(a + b =~= a);
    } else {
        lemma_quotes_concat(a, b.drop_last(), side, p);
        assert((a + b).drop_last() =~= a + b.drop_last());
        assert((a + b).last() == b.last());
    }
}

/// The quotes at one distance from the mid.
proof fn lemma_deep_pairs(d: u64, n: nat, side: Side, p: u64)
    requires
        0 < d <= DEEP_LEVELS,
    ensures
        quotes_on(deep_pairs(d, n), side) == n,
        quotes_at(deep_pairs(d, n), side, p) == (if p == (match side {
            Side::Bid => DEEP_MID - d,
            Side::Ask => DEEP_MID + d,
        }) {
            n
        } else {
            0
        }),
    decreases n,
{
    if n > 0 {
        let quotes = deep_pairs(d, n);
        let front = quotes.drop_last();
        lemma_deep_pairs(d, (n - 1) as nat, side, p);
        assert(front.drop_last() =~= deep_pairs(d, (n - 1) as nat));
        assert(quotes.last().side is Ask && front.last().side is Bid);
        assert(quotes_on(front, side) == quotes_on(front.drop_last(), side) + (if side is Bid {
            1nat
        } else {
            0
        }));
        assert(quotes_at(front, side, p) == quotes_at(front.drop_last(), side, p) + (if side is Bid
            && p == DEEP_MID - d {
            1nat
        } else {
            0
        }));
    }
}

/// The quotes up to some distance from the mid.
proof fn lemma_deep_quotes(d: nat, p: u64)
    requires
        d <= DEEP_LEVELS,
    ensures
        quotes_parted(deep_quotes(d), DEEP_MID),
        deep_quotes(d).len() == 2 * deep_orders_within(d),
        quotes_on(deep_quotes(d), Side::Bid) == deep_orders_within(d),
        quotes_on(deep_quotes(d), Side::Ask) == deep_orders_within(d),
        quotes_at(deep_quotes(d), Side::Bid, p) == (if 0 < DEEP_MID - p <= d {
            deep_at(DEEP_MID - p)
        } else {
            0
        }),
        quotes_at(deep_quotes(d), Side::Ask, p) == (if 0 < p - DEEP_MID <= d {
            deep_at(p - DEEP_MID)
        } else {
            0
        }),
    decreases d,
{
    if d > 0 {
        let e = d as u64;
        let inner = deep_quotes((d - 1) as nat);
        let outer = deep_pairs(e, deep_orders(e));
        lemma_deep_quotes((d - 1) as nat, p);
        lemma_deep_pairs(e, deep_orders(e), Side::Bid, p);
        lemma_deep_pairs(e, deep_orders(e), Side::Ask, p);
        lemma_quotes_concat(inner, outer, Side::Bid, p);
        lemma_quotes_concat(inner, outer, Side::Ask, p);
        let all = deep_quotes(d);
        assert forall|i: int| 0 <= i < all.len() implies (#[trigger] all[i]).qty == 1
            && match all[i].side {
            Side::Bid => all[i].price < DEEP_MID,
            Side::Ask => all[i].price > DEEP_MID,
        } by {
            if i < inner.len() {
                assert(all[i] == inner[i]);
            } else {
                assert(all[i] == outer[i - inner.len()]);
            }
        }
    }
}

/// The setup of the `deep_book` workload gives an empty book with enough room
/// its shape.
pub proof fn law_deep_book_starts_steady<H>(start: Depth<H>, post: Depth<H>)
    requires
        start.bids == Levels::<H>::empty(),
        start.asks == Levels::<H>::empty(),
        start.pooled ==> start.bid_room == start.ask_room && start.ask_room >= 2
            * deep_orders_within(DEEP_LEVELS as nat),
        start.bid_room >= deep_orders_within(DEEP_LEVELS as nat),
        start.ask_room >= deep_orders_within(DEEP_LEVELS as nat),
        quoted(start, deep_quotes(DEEP_LEVELS as nat), post),
    ensures
        deep_book(post),
{
    let quotes = deep_quotes(DEEP_LEVELS as nat);
    lemma_deep_quotes(DEEP_LEVELS as nat, 0);
    lemma_quotes_rest(start, quotes, DEEP_MID, post);
    assert forall|p: u64| #[trigger] count(post.bids, p) == deep_at(DEEP_MID - p) by {
        lemma_deep_quotes(DEEP_LEVELS as nat, p);
    }
    assert forall|p: u64| #[trigger] count(post.asks, p) == deep_at(p - DEEP_MID) by {
        lemma_deep_quotes(DEEP_LEVELS as nat, p);
    }
}

/// The asks up to some distance from the mid.
proof fn lemma_near_quotes(d: nat, p: u64)
    requires
        d <= DEEP_LEVELS,
    ensures
        quotes_parted(near_quotes(d), DEEP_MID),
        near_quotes(d).len() == deep_orders_within(d),
        quotes_on(near_quotes(d), Side::Bid) == 0,
        quotes_on(near_quotes(d), Side::Ask) == deep_orders_within(d),
        quotes_at(near_quotes(d), Side::Bid, p) == 0,
        quotes_at(near_quotes(d), Side::Ask, p) == (if 0 < p - DEEP_MID <= d {
            deep_at(p - DEEP_MID)
        } else {
            0
        }),
    decreases d,
{
    if d > 0 {
        let e = d as u64;
        let inner = near_quotes((d - 1) as nat);
        let outer = deep_asks(e, deep_orders(e));
        let q = Quote { side: Side::Ask, price: (DEEP_MID + e) as u64, qty: 1 };
        lemma_near_quotes((d - 1) as nat, p);
        lemma_equal_quotes(outer, q, Side::Bid, p);
        lemma_equal_quotes(outer, q, Side::Ask, p);
        lemma_quotes_concat(inner, outer, Side::Bid, p);
        lemma_quotes_concat(inner, outer, Side::Ask, p);
        let all = near_quotes(d);
        assert forall|i: int| 0 <= i < all.len() implies (#[trigger] all[i]).qty == 1
            && match all[i].side {
            Side::Bid => all[i].price < DEEP_MID,
            Side::Ask => all[i].price > DEEP_MID,
        } by {
            if i < inner.len() {
                assert(all[i] == inner[i]);
            } else {
                assert(all[i] == outer[i - inner.len()]);
            }
        }
    }
}

pub open spec fn deep_profile() -> spec_fn(nat) -> nat {
    |d: nat| deep_orders(d as u64)
}

proof fn lemma_deep_band(d: nat)
    ensures
        band(deep_profile(), 0, d) == deep_orders_within(d),
    decreases d,
{
    if d > 0 {
        lemma_deep_band((d - 1) as nat);
    }
}

/// The market order of a hot call takes exactly the near band.
proof fn lemma_near_taken<H>(
    pre: Depth<H>,
    qty: u64,
    r: BookResult<MarketOrderResult>,
    post: Depth<H>,
)
    requires
        deep_book(pre),
        qty == deep_orders_within(DEEP_NEAR_LEVELS as nat),
        market_taken(pre, qty, r, post),
    ensures
        r == Ok::<MarketOrderResult, BookError>(MarketOrderResult { remaining: 0 }),
        post == pre.put(
            Side::Ask,
            beyond(pre.asks, (DEEP_MID + DEEP_NEAR_LEVELS) as u64),
        ).widened(Side::Ask, qty as int),
        unit(post.asks),
{
    let hi = DEEP_NEAR_LEVELS as nat;
    let bound = (DEEP_MID + hi) as u64;
    let low = upto(pre.asks, bound);
    assert(low.dom().subset_of(pre.asks.dom()));
    vstd::set_lib::lemma_set_subset_finite(pre.asks.dom(), low.dom());
    assert(unit(low)) by {
        assert forall|p: u64, i: int|
            low.contains_key(p) && 0 <= i < low[p].len() implies (#[trigger] low[p][i]).quantity
            == 1 by {
            assert(pre.asks[p][i].quantity == 1);
        }
    }
    assert forall|p: u64| #[trigger] low.contains_key(p) implies DEEP_MID + 0 < p <= DEEP_MID
        + hi by {
        assert(count(pre.asks, p) > 0);
    }
    assert forall|d: nat| 0 < d <= hi implies count(low, (DEEP_MID + d) as u64)
        == #[trigger] deep_profile()(d) by {
        assert(count(pre.asks, (DEEP_MID + d) as u64) == deep_at(d as int));
    }
    lemma_band_total(low, DEEP_MID, 0, hi, deep_profile());
    lemma_deep_band(hi);
    lemma_takes_band(pre.asks, bound, qty);
    let left = beyond(pre.asks, bound);
    assert(unit(left)) by {
        assert(left.dom().subset_of(pre.asks.dom()));
        vstd::set_lib::lemma_set_subset_finite(pre.asks.dom(), left.dom());
        assert forall|p: u64, i: int|
            left.contains_key(p) && 0 <= i < left[p].len() implies (#[trigger] left[p][i]).quantity
            == 1 by {
            assert(pre.asks[p][i].quantity == 1);
        }
    }
}

/// A hot call of the `deep_book` workload gives the book back its shape: its
/// market order takes exactly the near band, which is then built again.
pub proof fn law_deep_book_is_steady<H>(pre: Depth<H>, qty: u64, post: Depth<H>)
    requires
        deep_book(pre),
        qty == deep_orders_within(DEEP_NEAR_LEVELS as nat),
        rebuilt(pre, qty, post),
    ensures
        deep_book(post),
        post.bid_room == pre.bid_room,
        post.ask_room == pre.ask_room,
{
    let (mid, r) = choose|mid: Depth<H>, r: BookResult<MarketOrderResult>| #[trigger]
        market_taken(pre, qty, r, mid) && quoted(mid, near_quotes(DEEP_NEAR_LEVELS as nat), post);
    assert(market_taken(pre, qty, r, mid));
    let quotes = near_quotes(DEEP_NEAR_LEVELS as nat);
    lemma_near_taken(pre, qty, r, mid);
    lemma_near_quotes(DEEP_NEAR_LEVELS as nat, 0);
    assert forall|p: u64| #[trigger] mid.bids.contains_key(p) implies p < DEEP_MID by {
        assert(count(pre.bids, p) > 0);
    }
    assert forall|p: u64| #[trigger] mid.asks.contains_key(p) implies p > DEEP_MID by {
        assert(count(pre.asks, p) > 0);
    }
    lemma_quotes_rest(mid, quotes, DEEP_MID, post);
    assert forall|p: u64| #[trigger] count(post.bids, p) == deep_at(DEEP_MID - p) by {
        lemma_near_quotes(DEEP_NEAR_LEVELS as nat, p);
        assert(count(mid.bids, p) == count(pre.bids, p));
    }
    assert forall|p: u64| #[trigger] count(post.asks, p) == deep_at(p - DEEP_MID) by {
        lemma_near_quotes(DEEP_NEAR_LEVELS as nat, p);
        assert(count(pre.asks, p) == deep_at(p - DEEP_MID));
        assert(count(mid.asks, p) == (if p > DEEP_MID + DEEP_NEAR_LEVELS {
            count(pre.asks, p)
        } else {
            0
        }));
    }
}

} // verus!
