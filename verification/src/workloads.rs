//! Streams of operations, and the harness that applies them to any book.
//!
//! A workload is a list of [`Op`]s. Operations name orders by ids of the
//! caller's own; the [`Harness`] keeps the map from id to engine handle, so that
//! a cancel can name an order by its id although the engine mints the handles.

use std::collections::HashMap;

use vstd::prelude::*;

use crate::api::{Depth, OrderBookApi};
use crate::dice::{range12, ratio12, Dice12};
use crate::errors::{BookError, BookResult};
use crate::laws::{
    law_cancelling_takes_quantity_off, law_quantity_is_conserved, law_resting_adds_quantity,
    lemma_level_within_total,
};
use crate::model::{holds, lemma_holds_with_lot, lemma_sweep_leaves, rests_at, total, Levels, Lot};
use crate::types::{MarketOrderMode, MarketOrderResult, Price, Side, SlabAllocator};

verus! {

/// A single market-affecting action. Ids are the workload's own.
#[derive(Debug, Clone, Copy)]
pub enum Op {
    Limit { id: u64, side: Side, price: Price, qty: u64 },
    Cancel { id: u64 },
    /// Market orders never rest.
    Market { side: Side, qty: u64, mode: MarketOrderMode },
}

impl Op {
    /// What the operation may add to what rests on `side`.
    pub open spec fn brings(self, side: Side) -> nat {
        match self {
            Op::Limit { side: own, qty, .. } => if own == side {
                qty as nat
            } else {
                0
            },
            _ => 0,
        }
    }
}

/// What some operations may add to what rests on `side`.
pub open spec fn volume(ops: Seq<Op>, side: Side) -> nat
    decreases ops.len(),
{
    if ops.len() == 0 {
        0
    } else {
        ops[0].brings(side) + volume(ops.drop_first(), side)
    }
}

/// A book together with the handles of the orders that ids stand for.
#[verifier::ext_equal]
pub struct Stage<H> {
    pub depth: Depth<H>,
    pub handles: Map<u64, H>,
}

impl<H> Stage<H> {
    /// Adding a limit order under `id` with outcome `r` turns this into `post`.
    pub open spec fn limit(
        self,
        id: u64,
        side: Side,
        price: u64,
        qty: u64,
        r: BookResult<Option<H>>,
        post: Stage<H>,
    ) -> bool {
        &&& self.depth.limit_step(side, price, qty, r, post.depth)
        &&& match r {
            Ok(Some(h)) => {
                &&& forall|k: u64| #[trigger]
                    self.handles.contains_key(k) ==> self.handles[k] != h
                &&& post.handles == self.handles.insert(id, h)
            },
            _ => post.handles == self.handles,
        }
    }

    /// Applying `op` may turn this into `post`.
    ///
    /// The handle of an order that is put to rest is kept under the order's id;
    /// it differs from all handles kept so far. A cancel drops the handle kept
    /// under its id; without one it does nothing.
    pub open spec fn step(self, op: Op, post: Stage<H>) -> bool {
        match op {
            Op::Limit { id, side, price, qty } => exists|r: BookResult<Option<H>>| #[trigger]
                self.limit(id, side, price.0, qty, r, post),
            Op::Cancel { id } => if self.handles.contains_key(id) {
                &&& post.handles == self.handles.remove(id)
                &&& exists|r: BookResult<()>| #[trigger]
                    self.depth.cancel_step(self.handles[id], r, post.depth)
            } else {
                post == self
            },
            Op::Market { side, qty, mode } => {
                &&& post.handles == self.handles
                &&& exists|r: BookResult<MarketOrderResult>| #[trigger]
                    self.depth.market_step(side, qty, mode, r, post.depth)
            },
        }
    }
}

/// `states` are the stages gone through while `ops` are applied in order, each
/// of them in order.
pub open spec fn steps_through<H>(states: Seq<Stage<H>>, ops: Seq<Op>) -> bool {
    &&& states.len() == ops.len() + 1
    &&& forall|i: int| 0 <= i < states.len() ==> (#[trigger] states[i]).depth.valid()
    &&& forall|i: int|
        0 <= i < ops.len() ==> states[i].step(#[trigger] ops[i], states[i + 1])
}

/// Applying `ops` in order may turn `pre` into `post`.
pub open spec fn played<H>(pre: Stage<H>, ops: Seq<Op>, post: Stage<H>) -> bool {
    exists|states: Seq<Stage<H>>| #[trigger]
        steps_through(states, ops) && states[0] == pre && states[ops.len() as int] == post
}

/// Drives a stream of operations against any book.
pub struct Harness<B: OrderBookApi> {
    pub book: B,
    pub handles: HashMap<u64, B::Handle>,
}

impl<B: OrderBookApi> Harness<B> {
    /// The book and the handles.
    pub open spec fn stage(self) -> Stage<B::Handle> {
        Stage { depth: self.book.depth(), handles: self.handles@ }
    }

    /// The book is in order, and every handle that is kept has come from it.
    pub open spec fn wf(self) -> bool {
        &&& in_order(self.book)
        &&& forall|id: u64| #[trigger]
            self.handles@.contains_key(id) ==> self.book.issued(self.handles@[id])
    }

    /// A harness for a new book.
    pub fn new(slab_capacity: usize) -> (r: Self)
        requires
            B::fits(slab_capacity),
        ensures
            r.wf(),
            r.stage() == (Stage { depth: B::made(slab_capacity), handles: Map::empty() }),
            r.book.depth().bids == Levels::<B::Handle>::empty(),
            r.book.depth().asks == Levels::<B::Handle>::empty(),
            r.book.spare() == B::lifetime(),
    {
        Harness { book: B::new(slab_capacity), handles: HashMap::new() }
    }

    /// A harness for a new book with memory from the given allocator.
    pub fn new_with_alloc(slab_capacity: usize, alloc: SlabAllocator) -> (r: BookResult<Self>)
        requires
            B::fits(slab_capacity),
        ensures
            alloc == SlabAllocator::System ==> r is Ok,
            match r {
                Ok(h) => {
                    &&& h.wf()
                    &&& h.stage() == (Stage {
                        depth: B::made(slab_capacity),
                        handles: Map::empty(),
                    })
                    &&& h.book.depth().bids == Levels::<B::Handle>::empty()
                    &&& h.book.depth().asks == Levels::<B::Handle>::empty()
                    &&& h.book.spare() == B::lifetime()
                },
                Err(e) => e == BookError::UnsupportedAllocator,
            },
    {
        Ok(
            Harness {
                book: B::new_with_alloc(slab_capacity, alloc)?,
                handles: HashMap::new(),
            },
        )
    }

    /// Apply one operation.
    pub fn apply(&mut self, op: &Op)
        requires
            old(self).wf(),
            old(self).book.spare() > 0,
            *op matches Op::Limit { side, price, qty, .. } ==> old(self).book.depth().admits(
                side,
                price.0,
                qty,
            ),
        ensures
            final(self).wf(),
            old(self).stage().step(*op, final(self).stage()),
            final(self).book.spare() + 1 >= old(self).book.spare(),
    {
        let ghost this = *self;
        match *op {
            Op::Limit { id, side, price, qty } => {
                let r = self.book.add_limit(side, price, qty);
                if let Ok(Some(h)) = r {
                    self.handles.insert(id, h);
                    proof {
                        let traded = this.book.depth().taken(side, Some(price.0), qty);
                        let left = this.book.depth().taking(side, Some(price.0), qty).left;
                        lemma_holds_with_lot(
                            traded.on(side),
                            price.0,
                            Lot { id: h, quantity: left },
                            h,
                        );
                        assert(self.book.depth().has(h));
                    }
                }
                proof {
                    assert(this.stage().limit(id, side, price.0, qty, r, self.stage()));
                }
            },
            Op::Cancel { id } => {
                if let Some(h) = self.handles.remove(&id) {
                    let r = self.book.cancel(h);
                    proof {
                        assert(this.stage().depth.cancel_step(h, r, self.stage().depth));
                    }
                } else {
                    assert(self.stage() =~= this.stage());
                }
            },
            Op::Market { side, qty, mode } => {
                let r = self.book.add_market(side, qty, mode);
                proof {
                    assert(this.stage().depth.market_step(
                        side,
                        qty,
                        mode,
                        r,
                        self.stage().depth,
                    ));
                }
            },
        }
    }

    /// Apply operations in order.
    pub fn apply_all(&mut self, ops: &[Op])
        requires
            old(self).wf(),
            old(self).book.spare() >= ops@.len(),
            forall|side: Side|
                total(#[trigger] old(self).book.depth().on(side)) + volume(ops@, side) <= u64::MAX,
        ensures
            final(self).wf(),
            played(old(self).stage(), ops@, final(self).stage()),
            final(self).book.spare() + ops@.len() >= old(self).book.spare(),
            forall|side: Side|
                total(#[trigger] final(self).book.depth().on(side)) <= total(
                    old(self).book.depth().on(side),
                ) + volume(ops@, side),
    {
        let ghost this = *self;
        let ghost mut states = seq![self.stage()];
        proof {
            assert(ops@.skip(0) =~= ops@);
        }
        let mut i: usize = 0;
        while i < ops.len()
            invariant
                i <= ops@.len(),
                this == *old(self),
                self.wf(),
                self.book.spare() + i >= this.book.spare(),
                this.book.spare() >= ops@.len(),
                states.len() == i + 1,
                states[0] == this.stage(),
                states[i as int] == self.stage(),
                forall|j: int|
                    0 <= j < i ==> states[j].step(#[trigger] ops@[j], states[j + 1]),
                forall|j: int| 0 <= j <= i ==> (#[trigger] states[j]).depth.valid(),
                forall|side: Side|
                    total(#[trigger] this.book.depth().on(side)) + volume(ops@, side) <= u64::MAX,
                forall|side: Side|
                    total(#[trigger] self.book.depth().on(side)) + volume(
                        ops@.skip(i as int),
                        side,
                    ) <= total(this.book.depth().on(side)) + volume(ops@, side),
            decreases ops@.len() - i,
        {
            let ghost before = *self;
            let ghost rest = ops@.skip(i as int);
            proof {
                assert(rest[0] == ops@[i as int]);
                assert(rest.drop_first() =~= ops@.skip(i + 1));
                if let Op::Limit { side, price, qty, .. } = ops@[i as int] {
                    assert(total(this.book.depth().on(side)) + volume(ops@, side) <= u64::MAX);
                    assert(total(before.book.depth().on(side)) + volume(rest, side) <= u64::MAX);
                    lemma_admits(before.book.depth(), side, price.0, qty);
                }
            }
            self.apply(&ops[i]);
            proof {
                states = states.push(self.stage());
                assert forall|side: Side|
                    total(#[trigger] self.book.depth().on(side)) + volume(
                        ops@.skip(i + 1),
                        side,
                    ) <= total(this.book.depth().on(side)) + volume(ops@, side) by {
                    lemma_step_total(before.stage(), ops@[i as int], self.stage(), side);
                    assert(total(before.book.depth().on(side)) + volume(rest, side) <= total(
                        this.book.depth().on(side),
                    ) + volume(ops@, side));
                }
            }
            i = i + 1;
        }
        proof {
            assert(steps_through(states, ops@));
        }
    }
}

/// A limit order adds no more to a side than it brings.
pub proof fn lemma_limit_total<H>(
    a: Depth<H>,
    own: Side,
    price: u64,
    qty: u64,
    r: BookResult<Option<H>>,
    b: Depth<H>,
    side: Side,
)
    requires
        a.valid(),
        a.limit_step(own, price, qty, r, b),
    ensures
        total(b.on(side)) <= total(a.on(side)) + (if side == own {
            qty as nat
        } else {
            0
        }),
{
    let s = a.taking(own, Some(price), qty);
    law_quantity_is_conserved(own.other(), a.on(own.other()), Some(price), qty);
    lemma_sweep_leaves(own.other(), a.on(own.other()), Some(price), qty);
    if let Ok(Some(h)) = r {
        law_resting_adds_quantity(a.on(own), price, Lot { id: h, quantity: s.left });
    }
}

/// A cancel adds nothing to a side.
pub proof fn lemma_cancel_total<H>(a: Depth<H>, h: H, r: BookResult<()>, b: Depth<H>, side: Side)
    requires
        a.valid(),
        a.cancel_step(h, r, b),
    ensures
        total(b.on(side)) <= total(a.on(side)),
{
    if r is Ok {
        let half = a.half(h);
        let levels = a.on(half);
        assert(holds(levels, h));
        let (p, i) = choose|p: u64, i: int| rests_at(levels, p, i, h);
        law_cancelling_takes_quantity_off(levels, p, i, h);
    }
}

/// A market order adds nothing to a side.
pub proof fn lemma_market_total<H>(
    a: Depth<H>,
    own: Side,
    qty: u64,
    mode: MarketOrderMode,
    r: BookResult<MarketOrderResult>,
    b: Depth<H>,
    side: Side,
)
    requires
        a.valid(),
        a.market_step(own, qty, mode, r, b),
    ensures
        total(b.on(side)) <= total(a.on(side)),
{
    law_quantity_is_conserved(own.other(), a.on(own.other()), None, qty);
}

/// An operation adds no more to a side than it brings.
proof fn lemma_step_total<H>(pre: Stage<H>, op: Op, post: Stage<H>, side: Side)
    requires
        pre.depth.valid(),
        pre.step(op, post),
    ensures
        total(post.depth.on(side)) <= total(pre.depth.on(side)) + op.brings(side),
{
    let a = pre.depth;
    let b = post.depth;
    match op {
        Op::Limit { id, side: own, price, qty } => {
            let r = choose|r: BookResult<Option<H>>| #[trigger]
                pre.limit(id, own, price.0, qty, r, post);
            lemma_limit_total(a, own, price.0, qty, r, b, side);
        },
        Op::Cancel { id } => {
            if pre.handles.contains_key(id) {
                let h = pre.handles[id];
                let r = choose|r: BookResult<()>| #[trigger] a.cancel_step(h, r, b);
                lemma_cancel_total(a, h, r, b, side);
            }
        },
        Op::Market { side: own, qty, mode } => {
            let r = choose|r: BookResult<MarketOrderResult>| #[trigger]
                a.market_step(own, qty, mode, r, b);
            lemma_market_total(a, own, qty, mode, r, b, side);
        },
    }
}

/// A limit order is admitted if all that rests on its side and what it brings
/// can be counted together.
pub proof fn lemma_admits<H>(depth: Depth<H>, side: Side, price: u64, qty: u64)
    requires
        depth.valid(),
        total(depth.on(side)) + qty <= u64::MAX,
    ensures
        depth.admits(side, price, qty),
{
    lemma_level_within_total(depth.on(side), price);
    lemma_sweep_leaves(side.other(), depth.on(side.other()), Some(price), qty);
}

/// The book is consistent, shows a book in order, and accepts the handles that
/// it has issued.
pub open spec fn in_order<B: OrderBookApi>(book: B) -> bool {
    &&& book.wf()
    &&& book.depth().valid()
    &&& forall|h: B::Handle| #[trigger] book.issued(h) ==> book.accepts(h)
}

/// The operation at position `k` of a stream that fills a book evenly: at
/// each distance from `mid`, `orders_per_level` bids below it and then as many
/// asks above it.
pub open spec fn uniform_op(orders_per_level: u64, mid: u64, start_id: u64, k: int) -> Op {
    let i = k / (2 * orders_per_level) + 1;
    let bid = k % (2 * orders_per_level) < orders_per_level;
    Op::Limit {
        id: (start_id + k) as u64,
        side: if bid {
            Side::Bid
        } else {
            Side::Ask
        },
        price: Price(
            (if bid {
                mid - i
            } else {
                mid + i
            }) as u64,
        ),
        qty: 1,
    }
}

/// Fill a book evenly: `levels` price levels on each side around `mid`, with
/// `orders_per_level` orders of quantity 1 at each. Ids count up from
/// `start_id`.
pub fn populate_uniform_ops(
    levels: u64,
    orders_per_level: u64,
    mid: u64,
    start_id: u64,
) -> (ops: Vec<Op>)
    requires
        levels * orders_per_level * 2 <= usize::MAX,
        start_id + levels * orders_per_level * 2 <= u64::MAX,
        orders_per_level > 0 ==> levels <= mid && mid + levels <= u64::MAX,
    ensures
        ops@ == Seq::new(
            (levels * orders_per_level * 2) as nat,
            |k: int| uniform_op(orders_per_level, mid, start_id, k),
        ),
{
    let mut ops: Vec<Op> = Vec::new();
    if orders_per_level == 0 {
        assert(levels * orders_per_level * 2 == 0) by (nonlinear_arith)
            requires
                orders_per_level == 0,
        ;
        assert(ops@ =~= Seq::new(0, |k: int| uniform_op(orders_per_level, mid, start_id, k)));
        return ops;
    }
    let mut id = start_id;
    let mut i: u64 = 1;
    let ghost width = 2 * orders_per_level;
    let ghost n = levels * orders_per_level * 2;
    assert(n == levels * width) by (nonlinear_arith)
        requires
            width == 2 * orders_per_level,
            n == levels * orders_per_level * 2,
    ;
    assert((i - 1) * width == 0) by (nonlinear_arith)
        requires
            i == 1,
    ;
    while i <= levels
        invariant
            width == 2 * orders_per_level,
            n == levels * width,
            n == levels * orders_per_level * 2,
            n <= usize::MAX,
            start_id + n <= u64::MAX,
            levels <= mid,
            mid + levels <= u64::MAX,
            1 <= i <= levels + 1,
            ops@.len() == (i - 1) * width,
            id == start_id + ops@.len(),
            forall|k: int|
                0 <= k < ops@.len() ==> #[trigger] ops@[k] == uniform_op(
                    orders_per_level,
                    mid,
                    start_id,
                    k,
                ),
        decreases levels + 1 - i,
    {
        let ghost base = ops@.len() as int;
        proof {
            assert(i * width <= levels * width) by (nonlinear_arith)
                requires
                    i <= levels,
                    width >= 0,
            ;
            assert(i * width == (i - 1) * width + width) by (nonlinear_arith);
        }
        let mut j: u64 = 0;
        while j < orders_per_level
            invariant
                width == 2 * orders_per_level,
                base == (i - 1) * width,
                base + width <= n,
                start_id + n <= u64::MAX,
                1 <= i <= levels <= mid,
                j <= orders_per_level,
                ops@.len() == base + j,
                id == start_id + ops@.len(),
                forall|k: int|
                    0 <= k < ops@.len() ==> #[trigger] ops@[k] == uniform_op(
                        orders_per_level,
                        mid,
                        start_id,
                        k,
                    ),
            decreases orders_per_level - j,
        {
            proof {
                lemma_place(i - 1, width, base + j, j as int);
            }
            ops.push(Op::Limit { id, side: Side::Bid, price: Price(mid - i), qty: 1 });
            id = id + 1;
            j = j + 1;
        }
        let mut j: u64 = 0;
        while j < orders_per_level
            invariant
                width == 2 * orders_per_level,
                base == (i - 1) * width,
                base + width <= n,
                start_id + n <= u64::MAX,
                1 <= i <= levels,
                mid + levels <= u64::MAX,
                j <= orders_per_level,
                ops@.len() == base + orders_per_level + j,
                id == start_id + ops@.len(),
                forall|k: int|
                    0 <= k < ops@.len() ==> #[trigger] ops@[k] == uniform_op(
                        orders_per_level,
                        mid,
                        start_id,
                        k,
                    ),
            decreases orders_per_level - j,
        {
            proof {
                lemma_place(i - 1, width, base + orders_per_level + j, orders_per_level + j);
            }
            ops.push(Op::Limit { id, side: Side::Ask, price: Price(mid + i), qty: 1 });
            id = id + 1;
            j = j + 1;
        }
        i = i + 1;
    }
    assert(ops@ =~= Seq::new(n as nat, |k: int| uniform_op(orders_per_level, mid, start_id, k)));
    ops
}

/// Where position `k` lies among blocks of `width`.
proof fn lemma_place(block: int, width: int, k: int, offset: int)
    requires
        0 <= block,
        0 <= offset < width,
        k == block * width + offset,
    ensures
        k / width == block,
        k % width == offset,
{
    vstd::arithmetic::div_mod::lemma_fundamental_div_mod_converse(k, width, block, offset);
}

/// What a mixed stream is made from.
pub struct Mix {
    pub mid: u64,
    /// Adds lie 1 to this many ticks away from `mid`.
    pub spread_ticks: u64,
    /// The share of adds, as a fraction.
    pub add_numerator: u32,
    pub add_denominator: u32,
    /// Ids are counted up from here.
    pub start_id: u64,
}

impl Mix {
    /// The parts fit together: prices and the share of adds are in their range.
    pub open spec fn valid(self) -> bool {
        &&& 1 <= self.spread_ticks <= self.mid
        &&& self.mid + self.spread_ticks <= u64::MAX
        &&& 0 < self.add_denominator
        &&& self.add_numerator <= self.add_denominator
    }
}

/// Add an order of quantity 1, `offset` ticks away from `mid` on its own side.
pub open spec fn quote_at(id: u64, bid: bool, offset: u64, mid: u64) -> Op {
    Op::Limit {
        id,
        side: if bid {
            Side::Bid
        } else {
            Side::Ask
        },
        price: Price(
            (if bid {
                mid - offset
            } else {
                mid + offset
            }) as u64,
        ),
        qty: 1,
    }
}

/// The operation that adds an order of quantity 1, `offset` ticks away from
/// `mid` on its own side.
pub fn mixed_add(id: u64, bid: bool, offset: u64, mid: u64) -> (op: Op)
    requires
        offset <= mid,
        mid + offset <= u64::MAX,
    ensures
        op == quote_at(id, bid, offset, mid),
{
    let side = if bid {
        Side::Bid
    } else {
        Side::Ask
    };
    let price = match side {
        Side::Bid => Price(mid - offset),
        Side::Ask => Price(mid + offset),
    };
    Op::Limit { id, side, price, qty: 1 }
}

/// Some operation of `ops` adds an order under `id`.
pub open spec fn adds(ops: Seq<Op>, id: u64) -> bool {
    exists|j: int| 0 <= j < ops.len() && (#[trigger] ops[j] matches Op::Limit { id: k, .. } && k == id)
}

/// Every cancel names an order that has been added before it.
pub open spec fn cancels_its_own(ops: Seq<Op>) -> bool {
    forall|i: int|
        0 <= i < ops.len() ==> (#[trigger] ops[i] matches Op::Cancel { id } ==> adds(
            ops.take(i),
            id,
        ))
}

/// Every order has quantity 1, bids lie below `mid` and asks above it, none
/// further than `spread_ticks`.
pub open spec fn straddles(ops: Seq<Op>, mid: u64, spread_ticks: u64) -> bool {
    forall|i: int|
        0 <= i < ops.len() ==> (#[trigger] ops[i] matches Op::Limit { side, price, qty, .. } ==> {
            &&& qty == 1
            &&& match side {
                Side::Bid => mid - spread_ticks <= price.0 < mid,
                Side::Ask => mid < price.0 <= mid + spread_ticks,
            }
        })
}

/// The next operation of a mixed stream, with the dice and the last id given
/// out after it. Nothing can be cancelled before the first add.
pub open spec fn mixed_next(m: Mix, dice: Dice12, last_id: u64) -> (Op, Dice12, u64) {
    let (add, tossed) = if last_id == m.start_id {
        (true, dice.pos)
    } else {
        ratio12(dice.seed, dice.pos, m.add_numerator, m.add_denominator)
    };
    if add {
        let (bid, sided) = ratio12(dice.seed, tossed, 1, 2);
        let (offset, pos) = range12(dice.seed, sided, 1, m.spread_ticks);
        let id = (last_id + 1) as u64;
        (quote_at(id, bid, offset, m.mid), Dice12 { seed: dice.seed, pos }, id)
    } else {
        let (id, pos) = range12(dice.seed, tossed, (m.start_id + 1) as u64, last_id);
        (Op::Cancel { id }, Dice12 { seed: dice.seed, pos }, last_id)
    }
}

/// The next `n` operations of a mixed stream.
pub open spec fn mixed_stream(m: Mix, dice: Dice12, last_id: u64, n: nat) -> Seq<Op>
    decreases n,
{
    if n == 0 {
        Seq::empty()
    } else {
        let (op, after, last) = mixed_next(m, dice, last_id);
        seq![op] + mixed_stream(m, after, last, (n - 1) as nat)
    }
}

/// A mixed stream of adds and cancels, determined by its seed.
///
/// The given share of operations adds an order (random side, quantity 1, up to
/// `spread_ticks` away from `mid`); the others cancel an id of the stream's own.
/// Ids count up from `start_id + 1`.
pub fn mixed_workload_ops(
    seed: u64,
    n_ops: usize,
    mid: u64,
    spread_ticks: u64,
    add_numerator: u32,
    add_denominator: u32,
    start_id: u64,
) -> (ops: Vec<Op>)
    requires
        (Mix { mid, spread_ticks, add_numerator, add_denominator, start_id }).valid(),
        start_id + n_ops <= u64::MAX,
    ensures
        ops@ == mixed_stream(
            (Mix { mid, spread_ticks, add_numerator, add_denominator, start_id }),
            (Dice12 { seed, pos: 0 }),
            start_id,
            n_ops as nat,
        ),
        ops@.len() == n_ops,
        cancels_its_own(ops@),
        straddles(ops@, mid, spread_ticks),
        forall|i: int| 0 <= i < n_ops ==> !(#[trigger] ops@[i] is Market),
        forall|i: int|
            0 <= i < n_ops && (i == 0 || add_numerator == add_denominator) ==> #[trigger] ops@[i]
                is Limit,
        forall|i: int| 0 < i < n_ops && add_numerator == 0 ==> #[trigger] ops@[i] is Cancel,
{
    let ghost m = Mix { mid, spread_ticks, add_numerator, add_denominator, start_id };
    let mut dice = Dice12::new(seed);
    let ghost all = mixed_stream(m, dice, start_id, n_ops as nat);
    let mut ops: Vec<Op> = Vec::new();
    let mut next_id = start_id;
    let mut i: usize = 0;
    assert(ops@ + all =~= all);
    while i < n_ops
        invariant
            m == (Mix { mid, spread_ticks, add_numerator, add_denominator, start_id }),
            m.valid(),
            start_id + n_ops <= u64::MAX,
            i <= n_ops,
            start_id <= next_id <= start_id + i,
            all == ops@ + mixed_stream(m, dice, next_id, (n_ops - i) as nat),
            ops@.len() == i,
            cancels_its_own(ops@),
            straddles(ops@, mid, spread_ticks),
            forall|id: u64| start_id < id <= next_id ==> #[trigger] adds(ops@, id),
            i > 0 ==> next_id > start_id,
            forall|j: int| 0 <= j < i ==> !(#[trigger] ops@[j] is Market),
            forall|j: int|
                0 <= j < i && (j == 0 || add_numerator == add_denominator) ==> #[trigger] ops@[j]
                    is Limit,
            forall|j: int| 0 < j < i && add_numerator == 0 ==> #[trigger] ops@[j] is Cancel,
        decreases n_ops - i,
    {
        let ghost before = ops@;
        let ghost (op, after, last) = mixed_next(m, dice, next_id);
        let ghost rest = mixed_stream(m, after, last, (n_ops - i - 1) as nat);
        let do_add = next_id == start_id || dice.ratio(add_numerator, add_denominator);
        if do_add {
            next_id = next_id + 1;
            let bid = dice.ratio(1, 2);
            let offset = dice.range(1, spread_ticks);
            ops.push(mixed_add(next_id, bid, offset, mid));
        } else {
            let target = dice.range(start_id + 1, next_id);
            ops.push(Op::Cancel { id: target });
        }
        proof {
            assert(dice == after && next_id == last);
            assert(before + (seq![op] + rest) =~= before.push(op) + rest);
            assert forall|id: u64| start_id < id <= next_id implies #[trigger] adds(ops@, id) by {
                if adds(before, id) {
                    let j = choose|j: int|
                        0 <= j < before.len() && (#[trigger] before[j] matches Op::Limit { id: k, .. }
                            && k == id);
                    assert(ops@[j] == before[j]);
                } else {
                    assert(ops@[i as int] == op);
                }
            }
            assert forall|j: int| 0 <= j < ops@.len() implies (
            #[trigger] ops@[j] matches Op::Cancel { id } ==> adds(ops@.take(j), id)) by {
                assert(ops@.take(j) =~= before.take(j));
                assert(before.take(i as int) =~= before);
                if j < i {
                    assert(ops@[j] == before[j]);
                }
            }
            assert forall|j: int| 0 <= j < before.len() implies #[trigger] ops@[j] == before[j] by {}
        }
        i = i + 1;
    }
    assert(ops@ + mixed_stream(m, dice, next_id, 0) =~= ops@);
    ops
}

/// The same arguments give the same stream: two calls agree in length and in
/// every operation.
pub proof fn law_mixed_workload_is_deterministic(
    seed: u64,
    n_ops: usize,
    mid: u64,
    spread_ticks: u64,
    add_numerator: u32,
    add_denominator: u32,
    start_id: u64,
    a: Vec<Op>,
    b: Vec<Op>,
)
    requires
        call_ensures(
            mixed_workload_ops,
            (seed, n_ops, mid, spread_ticks, add_numerator, add_denominator, start_id),
            a,
        ),
        call_ensures(
            mixed_workload_ops,
            (seed, n_ops, mid, spread_ticks, add_numerator, add_denominator, start_id),
            b,
        ),
    ensures
        a@.len() == b@.len(),
        forall|i: int| 0 <= i < a@.len() ==> #[trigger] a@[i] == b@[i],
{
}

} // verus!
