//! No room is ever lost: what an order takes up while it rests comes back when
//! it leaves the book.

use vstd::prelude::*;

use crate::api::Depth;
use crate::errors::BookResult;
use crate::model::{
    best, crosses, lemma_best_exists, lemma_sweep_leaves, lemma_take, lemma_without, rests_at,
    sound, sweep, take, with_lot, without, Levels, Lot,
};
use crate::types::{MarketOrderMode, MarketOrderResult, Side};
use crate::workloads::{played, steps_through, Op, Stage};

verus! {

/// How many orders rest on one side.
pub open spec fn crowd<I>(levels: Levels<I>) -> nat
    decreases levels.dom().len(),
    when levels.dom().finite()
{
    if levels.dom() =~= Set::empty() {
        0
    } else {
        let p = levels.dom().choose();
        levels[p].len() + crowd(levels.remove(p))
    }
}

/// The number does not depend on the order in which levels are counted.
proof fn lemma_crowd_remove<I>(levels: Levels<I>, p: u64)
    requires
        levels.dom().finite(),
        levels.contains_key(p),
    ensures
        crowd(levels) == levels[p].len() + crowd(levels.remove(p)),
    decreases levels.dom().len(),
{
    let c = levels.dom().choose();
    assert(levels.dom().contains(p));
    assert(levels.dom().contains(c));
    if c != p {
        lemma_crowd_remove(levels.remove(c), p);
        lemma_crowd_remove(levels.remove(p), c);
        assert(levels.remove(c).remove(p) =~= levels.remove(p).remove(c));
    }
}

/// Every resting order counts as one: none rests on an empty side, and each level
/// adds as many as stand in its queue.
pub proof fn law_every_order_counts<I>(levels: Levels<I>, price: u64, queue: Seq<Lot<I>>)
    requires
        levels.dom().finite(),
        !levels.contains_key(price),
    ensures
        crowd(Levels::<I>::empty()) == 0,
        crowd(levels.insert(price, queue)) == crowd(levels) + queue.len(),
{
    let more = levels.insert(price, queue);
    lemma_crowd_remove(more, price);
    assert(more.remove(price) =~= levels);
}

/// An order that is put to rest is one more.
pub proof fn lemma_crowd_with_lot<I>(levels: Levels<I>, price: u64, lot: Lot<I>)
    requires
        levels.dom().finite(),
    ensures
        crowd(with_lot(levels, price, lot)) == crowd(levels) + 1,
{
    let more = with_lot(levels, price, lot);
    lemma_crowd_remove(more, price);
    assert(more.remove(price) =~= levels.remove(price));
    if levels.contains_key(price) {
        lemma_crowd_remove(levels, price);
    } else {
        assert(levels.remove(price) =~= levels);
    }
}

/// An order that is cancelled is one less.
pub proof fn lemma_crowd_without<I>(levels: Levels<I>, price: u64, pos: int, id: I)
    requires
        sound(levels),
        rests_at(levels, price, pos, id),
    ensures
        crowd(without(levels, id)) + 1 == crowd(levels),
{
    lemma_without(levels, price, pos, id);
    lemma_crowd_remove(levels, price);
    if levels[price].len() > 1 {
        let fewer = without(levels, id);
        lemma_crowd_remove(fewer, price);
        assert(fewer.remove(price) =~= levels.remove(price));
    }
}

/// Orders that are filled completely leave, and no others.
pub proof fn lemma_crowd_swept<I>(
    side: Side,
    levels: Levels<I>,
    limit: Option<u64>,
    quantity: u64,
)
    requires
        levels.dom().finite(),
    ensures
        ({
            let s = sweep(side, levels, limit, quantity);
            crowd(s.levels) + s.spent == crowd(levels)
        }),
    decreases levels.dom().len(),
{
    lemma_best_exists(side, levels.dom());
    if let Some(p) = best(side, levels.dom()) {
        if quantity > 0 && crosses(side, limit, p) {
            let t = take(levels[p], quantity);
            lemma_take(levels[p], quantity);
            lemma_crowd_remove(levels, p);
            if t.rest.len() == 0 {
                lemma_crowd_swept(side, levels.remove(p), limit, t.left);
            } else {
                let next = levels.insert(p, t.rest);
                lemma_crowd_remove(next, p);
                assert(next.remove(p) =~= levels.remove(p));
            }
        }
    }
}

/// How many orders of `side` the book can hold: those that rest, and those that
/// there is room for. Where both sides draw on the same room, orders of the
/// other side count too.
pub open spec fn size<H>(depth: Depth<H>, side: Side) -> nat {
    depth.room(side) + crowd(depth.on(side)) + (if depth.pooled {
        crowd(depth.on(side.other()))
    } else {
        0
    })
}

/// Trading frees as much room as orders leave.
proof fn lemma_taken_keeps_size<H>(
    pre: Depth<H>,
    side: Side,
    limit: Option<u64>,
    qty: u64,
    own: Side,
)
    requires
        pre.valid(),
    ensures
        size(pre.taken(side, limit, qty), own) == size(pre, own),
        pre.taken(side, limit, qty).on(side.other()).dom().finite(),
{
    let opp = side.other();
    lemma_crowd_swept(opp, pre.on(opp), limit, qty);
    lemma_sweep_leaves(opp, pre.on(opp), limit, qty);
}

/// A limit order loses no room, whether it trades, rests or is refused.
pub proof fn law_limit_orders_lose_no_room<H>(
    pre: Depth<H>,
    side: Side,
    price: u64,
    qty: u64,
    r: BookResult<Option<H>>,
    post: Depth<H>,
    own: Side,
)
    requires
        pre.valid(),
        pre.limit_step(side, price, qty, r, post),
    ensures
        size(post, own) == size(pre, own),
{
    let traded = pre.taken(side, Some(price), qty);
    lemma_taken_keeps_size(pre, side, Some(price), qty, own);
    if let Ok(Some(h)) = r {
        let left = pre.taking(side, Some(price), qty).left;
        lemma_crowd_with_lot(traded.on(side), price, Lot { id: h, quantity: left });
    }
}

/// A market order loses no room, whether it trades or is killed.
pub proof fn law_market_orders_lose_no_room<H>(
    pre: Depth<H>,
    side: Side,
    qty: u64,
    mode: MarketOrderMode,
    r: BookResult<MarketOrderResult>,
    post: Depth<H>,
    own: Side,
)
    requires
        pre.valid(),
        pre.market_step(side, qty, mode, r, post),
    ensures
        size(post, own) == size(pre, own),
{
    lemma_taken_keeps_size(pre, side, None, qty, own);
}

/// A cancel gives back the room of the order that it takes out, and changes
/// nothing if there is no such order.
pub proof fn law_cancels_lose_no_room<H>(
    pre: Depth<H>,
    h: H,
    r: BookResult<()>,
    post: Depth<H>,
    own: Side,
)
    requires
        pre.valid(),
        pre.cancel_step(h, r, post),
    ensures
        size(post, own) == size(pre, own),
{
    if r is Ok {
        let side = pre.half(h);
        let levels = pre.on(side);
        let (price, pos) = choose|price: u64, pos: int| rests_at(levels, price, pos, h);
        assert(rests_at(levels, price, pos, h));
        lemma_crowd_without(levels, price, pos, h);
    }
}

/// No operation loses room.
proof fn lemma_step_keeps_size<H>(pre: Stage<H>, op: Op, post: Stage<H>, own: Side)
    requires
        pre.depth.valid(),
        pre.step(op, post),
    ensures
        size(post.depth, own) == size(pre.depth, own),
        post.depth.pooled == pre.depth.pooled,
{
    match op {
        Op::Limit { id, side, price, qty } => {
            let r = choose|r: BookResult<Option<H>>| #[trigger]
                pre.limit(id, side, price.0, qty, r, post);
            law_limit_orders_lose_no_room(pre.depth, side, price.0, qty, r, post.depth, own);
        },
        Op::Cancel { id } => {
            if pre.handles.contains_key(id) {
                let h = pre.handles[id];
                let r = choose|r: BookResult<()>| #[trigger]
                    pre.depth.cancel_step(h, r, post.depth);
                law_cancels_lose_no_room(pre.depth, h, r, post.depth, own);
            }
        },
        Op::Market { side, qty, mode } => {
            let r = choose|r: BookResult<MarketOrderResult>| #[trigger]
                pre.depth.market_step(side, qty, mode, r, post.depth);
            law_market_orders_lose_no_room(pre.depth, side, qty, mode, r, post.depth, own);
        },
    }
}

proof fn lemma_steps_keep_size<H>(states: Seq<Stage<H>>, ops: Seq<Op>, n: nat, own: Side)
    requires
        steps_through(states, ops),
        n <= ops.len(),
    ensures
        size(states[n as int].depth, own) == size(states[0].depth, own),
        states[n as int].depth.pooled == states[0].depth.pooled,
    decreases n,
{
    if n > 0 {
        lemma_steps_keep_size(states, ops, (n - 1) as nat, own);
        assert(states[n - 1].depth.valid());
        assert(states[n - 1].step(ops[n - 1], states[n - 1 + 1]));
        lemma_step_keeps_size(states[n - 1], ops[n - 1], states[n as int], own);
    }
}

/// However many operations are played, no room is lost.
pub proof fn law_runs_lose_no_room<H>(pre: Stage<H>, ops: Seq<Op>, post: Stage<H>, own: Side)
    requires
        played(pre, ops, post),
    ensures
        size(post.depth, own) == size(pre.depth, own),
        post.depth.pooled == pre.depth.pooled,
{
    let states = choose|states: Seq<Stage<H>>| #[trigger]
        steps_through(states, ops) && states[0] == pre && states[ops.len() as int] == post;
    assert(steps_through(states, ops) && states[0] == pre && states[ops.len() as int] == post);
    lemma_steps_keep_size(states, ops, ops.len(), own);
}

} // verus!
