//! Warm workloads: for each a setup that brings a book into its steady state,
//! and a hot function that can be called over and over.

use std::collections::VecDeque;

use vstd::prelude::*;

use crate::api::{Depth, OrderBookApi};
use crate::dice::Dice12;
use crate::errors::{BookError, BookResult};
use crate::model::{lemma_holds_with_lot, total, Levels, Lot};
use crate::scenarios::{event_to_op, Event};
use crate::types::{MarketOrderMode, MarketOrderResult, Price, Side, SlabAllocator};
use crate::workloads::{
    in_order, lemma_admits, lemma_limit_total, lemma_market_total, mixed_stream,
    mixed_workload_ops, played, populate_uniform_ops, uniform_op, volume, Harness, Mix, Op, Stage,
};

verus! {

/// The plan of a warm workload: how large a slab it wants, and how often its
/// hot function is called before anything is measured.
#[derive(Debug, Clone, Copy)]
pub struct Workload {
    pub name: &'static str,
    pub slab_cap: usize,
    pub warmup_iters: usize,
}

/// A limit order, without a name.
pub struct Quote {
    pub side: Side,
    pub price: u64,
    pub qty: u64,
}

/// Adding `q` may turn `pre` into `post`.
pub open spec fn quote_step<H>(pre: Depth<H>, q: Quote, post: Depth<H>) -> bool {
    exists|r: BookResult<Option<H>>| #[trigger]
        pre.limit_step(q.side, q.price, q.qty, r, post)
}

/// `states` are the books gone through while `quotes` are added in order.
pub open spec fn quotes_through<H>(states: Seq<Depth<H>>, quotes: Seq<Quote>) -> bool {
    &&& states.len() == quotes.len() + 1
    &&& forall|i: int|
        0 <= i < quotes.len() ==> quote_step(states[i], #[trigger] quotes[i], states[i + 1])
}

/// Adding `quotes` in order may turn `pre` into `post`.
pub open spec fn quoted<H>(pre: Depth<H>, quotes: Seq<Quote>, post: Depth<H>) -> bool {
    exists|states: Seq<Depth<H>>| #[trigger]
        quotes_through(states, quotes) && states[0] == pre && states[quotes.len() as int] == post
}

/// No quote.
proof fn lemma_quoted_none<H>(depth: Depth<H>)
    ensures
        quoted(depth, Seq::<Quote>::empty(), depth),
{
    assert(quotes_through(seq![depth], Seq::<Quote>::empty()));
}

/// One quote more.
proof fn lemma_quoted_push<H>(
    pre: Depth<H>,
    quotes: Seq<Quote>,
    mid: Depth<H>,
    q: Quote,
    post: Depth<H>,
)
    requires
        quoted(pre, quotes, mid),
        quote_step(mid, q, post),
    ensures
        quoted(pre, quotes.push(q), post),
{
    let states = choose|states: Seq<Depth<H>>| #[trigger]
        quotes_through(states, quotes) && states[0] == pre && states[quotes.len() as int] == mid;
    assert(quotes_through(states, quotes) && states[0] == pre && states[quotes.len() as int] == mid);
    let more = states.push(post);
    let all = quotes.push(q);
    assert forall|i: int| 0 <= i < all.len() implies quote_step(
        more[i],
        #[trigger] all[i],
        more[i + 1],
    ) by {
        if i < quotes.len() {
            assert(quote_step(states[i], quotes[i], states[i + 1]));
        }
    }
    assert(quotes_through(more, all));
}

/// Add one order of quantity 1, as part of a list of quotes.
fn add_quote<B: OrderBookApi>(
    book: &mut B,
    side: Side,
    price: u64,
    Ghost(pre): Ghost<Depth<B::Handle>>,
    Ghost(quotes): Ghost<Seq<Quote>>,
)
    requires
        in_order(*old(book)),
        total(old(book).depth().on(side)) < u64::MAX,
        quoted(pre, quotes, old(book).depth()),
    ensures
        in_order(*final(book)),
        quoted(pre, quotes.push(Quote { side, price, qty: 1 }), final(book).depth()),
        total(final(book).depth().on(side)) <= total(old(book).depth().on(side)) + 1,
        total(final(book).depth().on(side.other())) <= total(old(book).depth().on(side.other())),
{
    let ghost before = book.depth();
    proof {
        lemma_admits(before, side, price, 1);
    }
    let r = book.add_limit(side, Price(price), 1);
    proof {
        let q = Quote { side, price, qty: 1 };
        assert(before.limit_step(q.side, q.price, q.qty, r, book.depth()));
        assert(quote_step(before, q, book.depth()));
        lemma_quoted_push(pre, quotes, before, q, book.depth());
        lemma_limit_total(before, side, price, 1, r, book.depth(), side);
        lemma_limit_total(before, side, price, 1, r, book.depth(), side.other());
    }
}

/// The outcome of making a new book.
pub open spec fn new_book<B: OrderBookApi>(slab_cap: usize, book: B) -> bool {
    &&& in_order(book)
    &&& book.depth() == B::made(slab_cap)
    &&& book.spare() == B::lifetime()
}

/// Per-iteration state of the workload that adds one order and cancels it
/// again.
pub struct AddCancelState<B: OrderBookApi> {
    pub book: B,
    pub resting: Option<B::Handle>,
}

impl<B: OrderBookApi> AddCancelState<B> {
    pub open spec fn wf(self) -> bool {
        &&& in_order(self.book)
        &&& self.resting matches Some(h) ==> self.book.issued(h)
    }
}

pub fn setup_add_cancel<B: OrderBookApi>(slab_cap: usize, alloc: SlabAllocator) -> (r: BookResult<
    AddCancelState<B>,
>)
    requires
        B::fits(slab_cap),
    ensures
        alloc == SlabAllocator::System ==> r is Ok,
        match r {
            Ok(s) => s.wf() && new_book(slab_cap, s.book) && s.resting is None,
            Err(e) => e == BookError::UnsupportedAllocator,
        },
{
    Ok(AddCancelState { book: B::new_with_alloc(slab_cap, alloc)?, resting: None })
}

/// Adding a bid if `resting` is nothing, and cancelling it if it is something,
/// may turn `pre` into `post` and leave `left` resting.
pub open spec fn toggled<H>(
    pre: Depth<H>,
    resting: Option<H>,
    post: Depth<H>,
    left: Option<H>,
) -> bool {
    match resting {
        None => exists|r: BookResult<Option<H>>| #[trigger]
            pre.limit_step(Side::Bid, 100, 1, r, post) && left == (match r {
                Ok(Some(h)) => Some(h),
                _ => None,
            }),
        Some(h) => {
            &&& left is None
            &&& exists|r: BookResult<()>| #[trigger] pre.cancel_step(h, r, post)
        },
    }
}

/// Add a bid if none of ours rests, cancel it if one does.
pub fn hot_add_cancel<B: OrderBookApi>(state: &mut AddCancelState<B>)
    requires
        old(state).wf(),
        old(state).resting is None ==> old(state).book.depth().admits(Side::Bid, 100, 1),
    ensures
        final(state).wf(),
        toggled(
            old(state).book.depth(),
            old(state).resting,
            final(state).book.depth(),
            final(state).resting,
        ),
{
    let ghost before = state.book.depth();
    match state.resting {
        None => {
            let r = state.book.add_limit(Side::Bid, Price(100), 1);
            assert(before.limit_step(Side::Bid, 100, 1, r, state.book.depth()));
            if let Ok(Some(h)) = r {
                state.resting = Some(h);
                proof {
                    lemma_rested_issued(before, Side::Bid, 100, 1, r, state.book.depth(), h);
                    assert(state.book.depth().has(h));
                }
            }
        },
        Some(h) => {
            let r = state.book.cancel(h);
            assert(before.cancel_step(h, r, state.book.depth()));
            state.resting = None;
        },
    }
}

/// An order that was put to rest rests.
proof fn lemma_rested_issued<H>(
    a: Depth<H>,
    side: Side,
    price: u64,
    qty: u64,
    r: BookResult<Option<H>>,
    b: Depth<H>,
    h: H,
)
    requires
        a.limit_step(side, price, qty, r, b),
        r == Ok::<Option<H>, BookError>(Some(h)),
    ensures
        b.has(h),
{
    let traded = a.taken(side, Some(price), qty);
    let left = a.taking(side, Some(price), qty).left;
    lemma_holds_with_lot(traded.on(side), price, Lot { id: h, quantity: left }, h);
}

pub fn add_cancel_workload() -> (w: Workload)
    ensures
        w == (Workload { name: "add_cancel", slab_cap: 1024, warmup_iters: 1_000 }),
{
    Workload { name: "add_cancel", slab_cap: 1024, warmup_iters: 1_000 }
}

/// A book and the handles of the orders that are to be cancelled in turn,
/// oldest first.
#[verifier::ext_equal]
pub struct Line<H> {
    pub depth: Depth<H>,
    pub handles: Seq<H>,
}

impl<H> Line<H> {
    /// Adding a bid of quantity 1 with outcome `r` turns this into `post`: the
    /// handle of an order that rests is queued.
    pub open spec fn bid(self, price: u64, r: BookResult<Option<H>>, post: Line<H>) -> bool {
        &&& self.depth.limit_step(Side::Bid, price, 1, r, post.depth)
        &&& post.handles == (match r {
            Ok(Some(h)) => self.handles.push(h),
            _ => self.handles,
        })
    }

    /// Adding a bid of quantity 1 may turn this into `post`.
    pub open spec fn joined(self, price: u64, post: Line<H>) -> bool {
        exists|r: BookResult<Option<H>>| #[trigger] self.bid(price, r, post)
    }

    /// Cancelling the oldest order, if any is queued, may turn this into `post`.
    pub open spec fn served(self, post: Line<H>) -> bool {
        if self.handles.len() == 0 {
            post == self
        } else {
            &&& post.handles == self.handles.drop_first()
            &&& exists|r: BookResult<()>| #[trigger]
                self.depth.cancel_step(self.handles[0], r, post.depth)
        }
    }

    /// Adding a bid and then cancelling the oldest may turn this into `post`.
    pub open spec fn turned(self, price: u64, post: Line<H>) -> bool {
        exists|mid: Line<H>| #[trigger] self.joined(price, mid) && mid.served(post)
    }
}

/// `states` are the lines gone through while bids at `prices` are added.
pub open spec fn lines_through<H>(states: Seq<Line<H>>, prices: Seq<u64>) -> bool {
    &&& states.len() == prices.len() + 1
    &&& forall|i: int|
        0 <= i < prices.len() ==> states[i].joined(#[trigger] prices[i], states[i + 1])
}

/// Adding bids at `prices` in order may turn `pre` into `post`.
pub open spec fn lined_up<H>(pre: Line<H>, prices: Seq<u64>, post: Line<H>) -> bool {
    exists|states: Seq<Line<H>>| #[trigger]
        lines_through(states, prices) && states[0] == pre && states[prices.len() as int] == post
}

/// One bid more.
proof fn lemma_lined_push<H>(
    pre: Line<H>,
    prices: Seq<u64>,
    mid: Line<H>,
    price: u64,
    post: Line<H>,
)
    requires
        lined_up(pre, prices, mid),
        mid.joined(price, post),
    ensures
        lined_up(pre, prices.push(price), post),
{
    let states = choose|states: Seq<Line<H>>| #[trigger]
        lines_through(states, prices) && states[0] == pre && states[prices.len() as int] == mid;
    assert(lines_through(states, prices) && states[0] == pre && states[prices.len() as int] == mid);
    let more = states.push(post);
    let all = prices.push(price);
    assert forall|i: int| 0 <= i < all.len() implies more[i].joined(
        #[trigger] all[i],
        more[i + 1],
    ) by {
        if i < prices.len() {
            assert(states[i].joined(prices[i], states[i + 1]));
        }
    }
    assert(lines_through(more, all));
}

/// Every handle of `handles` has come from `book`.
pub open spec fn all_issued<B: OrderBookApi>(book: B, handles: Seq<B::Handle>) -> bool {
    forall|i: int| 0 <= i < handles.len() ==> book.issued(#[trigger] handles[i])
}

/// Add a bid of quantity 1 and queue its handle if it rests.
fn join<B: OrderBookApi>(book: &mut B, handles: &mut VecDeque<B::Handle>, price: u64)
    requires
        in_order(*old(book)),
        all_issued(*old(book), old(handles)@),
        old(book).spare() > 0,
        old(book).depth().admits(Side::Bid, price, 1),
    ensures
        in_order(*final(book)),
        all_issued(*final(book), final(handles)@),
        final(book).spare() + 1 >= old(book).spare(),
        (Line { depth: old(book).depth(), handles: old(handles)@ }).joined(
            price,
            (Line { depth: final(book).depth(), handles: final(handles)@ }),
        ),
        total(final(book).depth().bids) <= total(old(book).depth().bids) + 1,
        total(final(book).depth().asks) <= total(old(book).depth().asks),
{
    let ghost line = Line { depth: book.depth(), handles: handles@ };
    let r = book.add_limit(Side::Bid, Price(price), 1);
    if let Ok(Some(h)) = r {
        handles.push_back(h);
        proof {
            lemma_rested_issued(line.depth, Side::Bid, price, 1, r, book.depth(), h);
            assert(book.depth().has(h));
        }
    }
    proof {
        lemma_limit_total(line.depth, Side::Bid, price, 1, r, book.depth(), Side::Bid);
        lemma_limit_total(line.depth, Side::Bid, price, 1, r, book.depth(), Side::Ask);
        assert(line.bid(price, r, Line { depth: book.depth(), handles: handles@ }));
    }
}

/// Cancel the oldest order that is queued, if any.
fn serve<B: OrderBookApi>(book: &mut B, handles: &mut VecDeque<B::Handle>)
    requires
        in_order(*old(book)),
        all_issued(*old(book), old(handles)@),
        old(book).spare() > 0,
    ensures
        in_order(*final(book)),
        all_issued(*final(book), final(handles)@),
        final(book).spare() + 1 >= old(book).spare(),
        (Line { depth: old(book).depth(), handles: old(handles)@ }).served(
            (Line { depth: final(book).depth(), handles: final(handles)@ }),
        ),
{
    let ghost line = Line { depth: book.depth(), handles: handles@ };
    if let Some(oldest) = handles.pop_front() {
        proof {
            assert(oldest == line.handles[0]);
            assert(handles@ =~= line.handles.drop_first());
        }
        let r = book.cancel(oldest);
        proof {
            let post = Line { depth: book.depth(), handles: handles@ };
            assert(post.handles == line.handles.drop_first());
            assert(line.depth.cancel_step(line.handles[0], r, post.depth));
            assert(line.served(post));
        }
    } else {
        assert((Line { depth: book.depth(), handles: handles@ }) =~= line);
    }
}

/// How many prices the `add_spread` workload cycles through.
pub const SPREAD_K: u64 = 256;

/// How many orders it keeps resting: half as many, so that the order that is
/// cancelled is alone at its price and the one that is added opens a new price.
pub const SPREAD_TARGET: usize = 128;

pub const SPREAD_MID: u64 = 10_000;

/// The price at the given place of the cycle.
pub open spec fn spread_price(cursor: u64) -> u64 {
    (SPREAD_MID + cursor % SPREAD_K) as u64
}

/// The first `n` prices of the cycle.
pub open spec fn spread_prices(n: nat) -> Seq<u64> {
    Seq::new(n, |i: int| spread_price(i as u64))
}

/// Per-iteration state of the workload that opens and drains a price level each
/// time.
pub struct AddSpreadState<B: OrderBookApi> {
    pub book: B,
    pub handles: VecDeque<B::Handle>,
    pub price_cursor: u64,
}

impl<B: OrderBookApi> AddSpreadState<B> {
    pub open spec fn wf(self) -> bool {
        in_order(self.book) && all_issued(self.book, self.handles@)
    }

    /// The book and the queued handles.
    pub open spec fn line(self) -> Line<B::Handle> {
        Line { depth: self.book.depth(), handles: self.handles@ }
    }
}

pub fn setup_add_spread<B: OrderBookApi>(slab_cap: usize, alloc: SlabAllocator) -> (r: BookResult<
    AddSpreadState<B>,
>)
    requires
        B::fits(slab_cap),
        B::lifetime() >= SPREAD_TARGET,
    ensures
        alloc == SlabAllocator::System ==> r is Ok,
        match r {
            Ok(s) => {
                &&& s.wf()
                &&& s.price_cursor == SPREAD_TARGET
                &&& s.book.spare() + SPREAD_TARGET >= B::lifetime()
                &&& lined_up(
                    (Line { depth: B::made(slab_cap), handles: Seq::empty() }),
                    spread_prices(SPREAD_TARGET as nat),
                    s.line(),
                )
            },
            Err(e) => e == BookError::UnsupportedAllocator,
        },
{
    let book = B::new_with_alloc(slab_cap, alloc)?;
    let mut s = AddSpreadState {
        book,
        handles: VecDeque::with_capacity(SPREAD_TARGET + 1),
        price_cursor: 0,
    };
    let ghost start = s.line();
    let ghost mut prices: Seq<u64> = Seq::empty();
    proof {
        assert(start.handles =~= Seq::empty());
        assert(lines_through(seq![start], prices));
        assert(total(Levels::<B::Handle>::empty()) == 0);
    }
    let mut i: usize = 0;
    while i < SPREAD_TARGET
        invariant
            i <= SPREAD_TARGET,
            s.wf(),
            s.price_cursor == i,
            s.book.spare() + i >= B::lifetime(),
            B::lifetime() >= SPREAD_TARGET,
            total(s.book.depth().bids) <= i,
            prices == spread_prices(i as nat),
            lined_up(start, prices, s.line()),
        decreases SPREAD_TARGET - i,
    {
        let price = SPREAD_MID + (s.price_cursor % SPREAD_K);
        let ghost before = s.line();
        proof {
            lemma_admits(s.book.depth(), Side::Bid, price, 1);
        }
        join(&mut s.book, &mut s.handles, price);
        s.price_cursor = s.price_cursor + 1;
        proof {
            lemma_lined_push(start, prices, before, price, s.line());
            prices = prices.push(price);
            assert(prices =~= spread_prices((i + 1) as nat));
        }
        i = i + 1;
    }
    Ok(s)
}

/// Add at the next price of the cycle and cancel the oldest order.
pub fn hot_add_spread<B: OrderBookApi>(s: &mut AddSpreadState<B>)
    requires
        old(s).wf(),
        old(s).book.spare() >= 2,
        old(s).book.depth().admits(Side::Bid, spread_price(old(s).price_cursor), 1),
    ensures
        final(s).wf(),
        final(s).book.spare() + 2 >= old(s).book.spare(),
        final(s).price_cursor == old(s).price_cursor.wrapping_add(1),
        old(s).line().turned(spread_price(old(s).price_cursor), final(s).line()),
{
    let ghost before = s.line();
    let price = SPREAD_MID + (s.price_cursor % SPREAD_K);
    s.price_cursor = s.price_cursor.wrapping_add(1);
    join(&mut s.book, &mut s.handles, price);
    let ghost mid = s.line();
    serve(&mut s.book, &mut s.handles);
    assert(before.joined(price, mid) && mid.served(s.line()));
}

pub fn add_spread_workload() -> (w: Workload)
    ensures
        w == (Workload { name: "add_spread", slab_cap: 1024, warmup_iters: 1_000 }),
{
    Workload { name: "add_spread", slab_cap: 1024, warmup_iters: 1_000 }
}

/// How many orders the `cancel_heavy` workload keeps at its one price.
pub const HEAVY_DEPTH: usize = 50;

pub const HEAVY_PRICE: u64 = 100;

/// Its price, `n` times.
pub open spec fn heavy_prices(n: nat) -> Seq<u64> {
    Seq::new(n, |i: int| HEAVY_PRICE)
}

/// Per-iteration state of the workload that appends to and cancels from one
/// level.
pub struct CancelHeavyState<B: OrderBookApi> {
    pub book: B,
    pub handles: VecDeque<B::Handle>,
}

impl<B: OrderBookApi> CancelHeavyState<B> {
    pub open spec fn wf(self) -> bool {
        in_order(self.book) && all_issued(self.book, self.handles@)
    }

    /// The book and the queued handles.
    pub open spec fn line(self) -> Line<B::Handle> {
        Line { depth: self.book.depth(), handles: self.handles@ }
    }
}

pub fn setup_cancel_heavy<B: OrderBookApi>(slab_cap: usize, alloc: SlabAllocator) -> (r: BookResult<
    CancelHeavyState<B>,
>)
    requires
        B::fits(slab_cap),
        B::lifetime() >= HEAVY_DEPTH,
    ensures
        alloc == SlabAllocator::System ==> r is Ok,
        match r {
            Ok(s) => {
                &&& s.wf()
                &&& s.book.spare() + HEAVY_DEPTH >= B::lifetime()
                &&& lined_up(
                    (Line { depth: B::made(slab_cap), handles: Seq::empty() }),
                    heavy_prices(HEAVY_DEPTH as nat),
                    s.line(),
                )
            },
            Err(e) => e == BookError::UnsupportedAllocator,
        },
{
    let book = B::new_with_alloc(slab_cap, alloc)?;
    let mut s = CancelHeavyState { book, handles: VecDeque::with_capacity(HEAVY_DEPTH + 1) };
    let ghost start = s.line();
    let ghost mut prices: Seq<u64> = Seq::empty();
    proof {
        assert(start.handles =~= Seq::empty());
        assert(lines_through(seq![start], prices));
        assert(total(Levels::<B::Handle>::empty()) == 0);
    }
    let mut i: usize = 0;
    while i < HEAVY_DEPTH
        invariant
            i <= HEAVY_DEPTH,
            s.wf(),
            s.book.spare() + i >= B::lifetime(),
            B::lifetime() >= HEAVY_DEPTH,
            total(s.book.depth().bids) <= i,
            prices == heavy_prices(i as nat),
            lined_up(start, prices, s.line()),
        decreases HEAVY_DEPTH - i,
    {
        let ghost before = s.line();
        proof {
            lemma_admits(s.book.depth(), Side::Bid, HEAVY_PRICE, 1);
        }
        join(&mut s.book, &mut s.handles, HEAVY_PRICE);
        proof {
            lemma_lined_push(start, prices, before, HEAVY_PRICE, s.line());
            prices = prices.push(HEAVY_PRICE);
            assert(prices =~= heavy_prices((i + 1) as nat));
        }
        i = i + 1;
    }
    Ok(s)
}

/// Add at the back of the level and cancel the oldest order.
pub fn hot_cancel_heavy<B: OrderBookApi>(s: &mut CancelHeavyState<B>)
    requires
        old(s).wf(),
        old(s).book.spare() >= 2,
        old(s).book.depth().admits(Side::Bid, HEAVY_PRICE, 1),
    ensures
        final(s).wf(),
        final(s).book.spare() + 2 >= old(s).book.spare(),
        old(s).line().turned(HEAVY_PRICE, final(s).line()),
{
    let ghost before = s.line();
    join(&mut s.book, &mut s.handles, HEAVY_PRICE);
    let ghost mid = s.line();
    serve(&mut s.book, &mut s.handles);
    assert(before.joined(HEAVY_PRICE, mid) && mid.served(s.line()));
}

pub fn cancel_heavy_workload() -> (w: Workload)
    ensures
        w == (Workload { name: "cancel_heavy", slab_cap: 1024, warmup_iters: 1_000 }),
{
    Workload { name: "cancel_heavy", slab_cap: 1024, warmup_iters: 1_000 }
}

/// How many asks the `match_single` workload keeps at its one price.
pub const MATCH_DEPTH: usize = 16;

pub const MATCH_PRICE: u64 = 100;

/// Asks at that price, `n` of them.
pub open spec fn match_quotes(n: nat) -> Seq<Quote> {
    Seq::new(n, |i: int| Quote { side: Side::Ask, price: MATCH_PRICE, qty: 1 })
}

/// Per-iteration state of the workload that fills the head of one level.
pub struct MatchSingleState<B: OrderBookApi> {
    pub book: B,
}

pub fn setup_match_single<B: OrderBookApi>(slab_cap: usize, alloc: SlabAllocator) -> (r: BookResult<
    MatchSingleState<B>,
>)
    requires
        B::fits(slab_cap),
    ensures
        alloc == SlabAllocator::System ==> r is Ok,
        match r {
            Ok(s) => {
                &&& in_order(s.book)
                &&& quoted(
                    B::made(slab_cap),
                    match_quotes(MATCH_DEPTH as nat),
                    s.book.depth(),
                )
            },
            Err(e) => e == BookError::UnsupportedAllocator,
        },
{
    let mut book = B::new_with_alloc(slab_cap, alloc)?;
    let ghost start = book.depth();
    let ghost mut quotes: Seq<Quote> = Seq::empty();
    proof {
        lemma_quoted_none(start);
        assert(total(Levels::<B::Handle>::empty()) == 0);
    }
    let mut i: usize = 0;
    while i < MATCH_DEPTH
        invariant
            i <= MATCH_DEPTH,
            in_order(book),
            total(book.depth().asks) <= i,
            quotes == match_quotes(i as nat),
            quoted(start, quotes, book.depth()),
        decreases MATCH_DEPTH - i,
    {
        add_quote(&mut book, Side::Ask, MATCH_PRICE, Ghost(start), Ghost(quotes));
        proof {
            quotes = quotes.push(Quote { side: Side::Ask, price: MATCH_PRICE, qty: 1 });
            assert(quotes =~= match_quotes((i + 1) as nat));
        }
        i = i + 1;
    }
    Ok(MatchSingleState { book })
}

/// An ask at that price, and a bid that crosses it.
pub open spec fn crossing_pair() -> Seq<Quote> {
    seq![
        (Quote { side: Side::Ask, price: MATCH_PRICE, qty: 1 }),
        (Quote { side: Side::Bid, price: MATCH_PRICE, qty: 1 }),
    ]
}

/// Add an ask at the back of the level, then cross the level with a bid.
pub fn hot_match_single<B: OrderBookApi>(s: &mut MatchSingleState<B>)
    requires
        in_order(old(s).book),
        forall|side: Side| total(#[trigger] old(s).book.depth().on(side)) < u64::MAX,
    ensures
        in_order(final(s).book),
        quoted(old(s).book.depth(), crossing_pair(), final(s).book.depth()),
{
    let ghost start = s.book.depth();
    let ghost none = Seq::<Quote>::empty();
    let ghost ask = Quote { side: Side::Ask, price: MATCH_PRICE, qty: 1 };
    let ghost bid = Quote { side: Side::Bid, price: MATCH_PRICE, qty: 1 };
    proof {
        lemma_quoted_none(start);
        assert(total(start.on(Side::Ask)) < u64::MAX && total(start.on(Side::Bid)) < u64::MAX);
    }
    add_quote(&mut s.book, Side::Ask, MATCH_PRICE, Ghost(start), Ghost(none));
    add_quote(&mut s.book, Side::Bid, MATCH_PRICE, Ghost(start), Ghost(none.push(ask)));
    assert(none.push(ask).push(bid) =~= crossing_pair());
}

pub fn match_single_workload() -> (w: Workload)
    ensures
        w == (Workload { name: "match_single", slab_cap: 1024, warmup_iters: 1_000 }),
{
    Workload { name: "match_single", slab_cap: 1024, warmup_iters: 1_000 }
}

/// How many price levels one market order of the `sweep` workload drains.
pub const SWEEP_LEVELS: u64 = 8;

/// How many market orders it takes to empty the book.
pub const SWEEP_STRIPS: usize = 64;

pub const SWEEP_MID: u64 = 10_000;

/// How many asks fill the book.
pub const SWEEP_TOTAL: u64 = 512;

/// The asks that fill the book: one at each price above the mid.
pub open spec fn sweep_quotes(n: nat) -> Seq<Quote> {
    Seq::new(
        n,
        |i: int| Quote { side: Side::Ask, price: (SWEEP_MID + i + 1) as u64, qty: 1 },
    )
}

/// Per-iteration state of the workload that sweeps many levels at once.
pub struct SweepState<B: OrderBookApi> {
    pub book: B,
    /// How many more market orders the book has enough for.
    pub strips_left: usize,
}

/// Fill the ask side with one order at each of the prices above the mid.
fn populate_sweep_asks<B: OrderBookApi>(book: &mut B)
    requires
        in_order(*old(book)),
        total(old(book).depth().asks) + SWEEP_TOTAL <= u64::MAX,
    ensures
        in_order(*final(book)),
        quoted(old(book).depth(), sweep_quotes(SWEEP_TOTAL as nat), final(book).depth()),
        total(final(book).depth().asks) <= total(old(book).depth().asks) + SWEEP_TOTAL,
{
    let ghost start = book.depth();
    let ghost mut quotes: Seq<Quote> = Seq::empty();
    proof {
        lemma_quoted_none(start);
        assert(quotes =~= sweep_quotes(0));
    }
    let mut i: u64 = 0;
    while i < SWEEP_TOTAL
        invariant
            i <= SWEEP_TOTAL,
            start == old(book).depth(),
            in_order(*book),
            total(start.asks) + SWEEP_TOTAL <= u64::MAX,
            total(book.depth().asks) <= total(start.asks) + i,
            quotes == sweep_quotes(i as nat),
            quoted(start, quotes, book.depth()),
        decreases SWEEP_TOTAL - i,
    {
        i = i + 1;
        add_quote(book, Side::Ask, SWEEP_MID + i, Ghost(start), Ghost(quotes));
        proof {
            quotes = quotes.push(
                Quote { side: Side::Ask, price: (SWEEP_MID + i) as u64, qty: 1 },
            );
            assert(quotes =~= sweep_quotes(i as nat));
        }
    }
}

pub fn setup_sweep<B: OrderBookApi>(slab_cap: usize, alloc: SlabAllocator) -> (r: BookResult<
    SweepState<B>,
>)
    requires
        B::fits(slab_cap),
    ensures
        alloc == SlabAllocator::System ==> r is Ok,
        match r {
            Ok(s) => {
                &&& in_order(s.book)
                &&& s.strips_left == SWEEP_STRIPS
                &&& quoted(B::made(slab_cap), sweep_quotes(SWEEP_TOTAL as nat), s.book.depth())
            },
            Err(e) => e == BookError::UnsupportedAllocator,
        },
{
    let mut book = B::new_with_alloc(slab_cap, alloc)?;
    assert(total(Levels::<B::Handle>::empty()) == 0);
    populate_sweep_asks(&mut book);
    Ok(SweepState { book, strips_left: SWEEP_STRIPS })
}

/// A market bid of `qty` that takes what it can get, with outcome `r`, turns
/// `pre` into `post`.
pub open spec fn market_taken<H>(
    pre: Depth<H>,
    qty: u64,
    r: BookResult<MarketOrderResult>,
    post: Depth<H>,
) -> bool {
    pre.market_step(Side::Bid, qty, MarketOrderMode::ImmediateOrCancel, r, post)
}

/// Filling the book again, if `refill` says so, and one sweep may turn `pre`
/// into `post`.
pub open spec fn swept_once<H>(pre: Depth<H>, refill: bool, post: Depth<H>) -> bool {
    exists|mid: Depth<H>, r: BookResult<MarketOrderResult>|
        (if refill {
            quoted(pre, sweep_quotes(SWEEP_TOTAL as nat), mid)
        } else {
            mid == pre
        }) && #[trigger] market_taken(mid, SWEEP_LEVELS, r, post)
}

/// Fill the book again if it has been swept empty, then sweep the lowest levels
/// with one market order.
pub fn hot_sweep<B: OrderBookApi>(s: &mut SweepState<B>)
    requires
        in_order(old(s).book),
        old(s).strips_left == 0 ==> total(old(s).book.depth().asks) + SWEEP_TOTAL <= u64::MAX,
    ensures
        in_order(final(s).book),
        final(s).strips_left == (if old(s).strips_left == 0 {
            SWEEP_STRIPS - 1
        } else {
            old(s).strips_left - 1
        }),
        swept_once(
            old(s).book.depth(),
            old(s).strips_left == 0,
            final(s).book.depth(),
        ),
{
    if s.strips_left == 0 {
        populate_sweep_asks(&mut s.book);
        s.strips_left = SWEEP_STRIPS;
    }
    let ghost mid = s.book.depth();
    let r = s.book.add_market(Side::Bid, SWEEP_LEVELS, MarketOrderMode::ImmediateOrCancel);
    assert(market_taken(mid, SWEEP_LEVELS, r, s.book.depth()));
    s.strips_left = s.strips_left - 1;
}

pub fn sweep_workload() -> (w: Workload)
    ensures
        w == (Workload { name: "sweep", slab_cap: 1024, warmup_iters: 1_000 }),
{
    Workload { name: "sweep", slab_cap: 1024, warmup_iters: 1_000 }
}

pub const DEEP_MID: u64 = 1_000_000;

/// How many price levels the `deep_book` workload has on each side.
pub const DEEP_LEVELS: u64 = 256;

/// How many of them one iteration sweeps and builds again.
pub const DEEP_NEAR_LEVELS: u64 = 80;

/// How many orders rest at the innermost level.
pub const DEEP_PEAK: u64 = 1000;

/// How many orders rest `d` ticks away from the mid: the peak divided by the
/// distance, rounded to the nearest number with halves going up, and at least
/// one.
pub open spec fn deep_orders(d: u64) -> nat
    recommends
        d > 0,
{
    let rounded = (2 * DEEP_PEAK + d) / (2 * d);
    if rounded < 1 {
        1
    } else {
        rounded as nat
    }
}

/// How many orders rest up to `d` ticks away from the mid, on one side.
pub open spec fn deep_orders_within(d: nat) -> nat
    decreases d,
{
    if d == 0 {
        0
    } else {
        deep_orders_within((d - 1) as nat) + deep_orders(d as u64)
    }
}

/// How many orders rest `d` ticks away from the mid.
pub fn deep_orders_at(d: u64) -> (r: u64)
    requires
        0 < d,
    ensures
        r == deep_orders(d),
        1 <= r <= DEEP_PEAK,
{
    proof {
        assert((2 * DEEP_PEAK + d) / (2 * d) <= DEEP_PEAK) by (nonlinear_arith)
            requires
                0 < d,
                DEEP_PEAK == 1000,
        ;
        assert(d > DEEP_PEAK * 2 ==> (2 * DEEP_PEAK + d) / (2 * d) < 1) by (nonlinear_arith)
            requires
                0 < d,
                DEEP_PEAK == 1000,
        ;
    }
    if d > DEEP_PEAK * 2 {
        return 1;
    }
    let rounded = (2 * DEEP_PEAK + d) / (2 * d);
    if rounded < 1 {
        1
    } else {
        rounded
    }
}

/// How many orders rest in the band that one iteration sweeps.
pub fn deep_near_band_qty() -> (r: u64)
    ensures
        r == deep_orders_within(DEEP_NEAR_LEVELS as nat),
{
    let mut sum: u64 = 0;
    let mut d: u64 = 0;
    while d < DEEP_NEAR_LEVELS
        invariant
            d <= DEEP_NEAR_LEVELS,
            sum == deep_orders_within(d as nat),
            sum <= d * DEEP_PEAK,
        decreases DEEP_NEAR_LEVELS - d,
    {
        d = d + 1;
        sum = sum + deep_orders_at(d);
    }
    sum
}

/// The quotes of both sides `d` ticks away from the mid, bid and ask in turn.
pub open spec fn deep_pairs(d: u64, n: nat) -> Seq<Quote> {
    Seq::new(
        2 * n,
        |i: int| if i % 2 == 0 {
            Quote { side: Side::Bid, price: (DEEP_MID - d) as u64, qty: 1 }
        } else {
            Quote { side: Side::Ask, price: (DEEP_MID + d) as u64, qty: 1 }
        },
    )
}

/// The quotes of both sides up to `d` ticks away from the mid, nearest first.
pub open spec fn deep_quotes(d: nat) -> Seq<Quote>
    decreases d,
{
    if d == 0 {
        Seq::empty()
    } else {
        deep_quotes((d - 1) as nat) + deep_pairs(d as u64, deep_orders(d as u64))
    }
}

/// The asks `d` ticks away from the mid.
pub open spec fn deep_asks(d: u64, n: nat) -> Seq<Quote> {
    Seq::new(n, |i: int| Quote { side: Side::Ask, price: (DEEP_MID + d) as u64, qty: 1 })
}

/// The asks up to `d` ticks away from the mid, nearest first.
pub open spec fn near_quotes(d: nat) -> Seq<Quote>
    decreases d,
{
    if d == 0 {
        Seq::empty()
    } else {
        near_quotes((d - 1) as nat) + deep_asks(d as u64, deep_orders(d as u64))
    }
}

/// The number of orders grows with the distance.
proof fn lemma_deep_within(a: nat, b: nat)
    requires
        a <= b,
    ensures
        deep_orders_within(a) <= deep_orders_within(b),
    decreases b,
{
    if a < b {
        lemma_deep_within(a, (b - 1) as nat);
    }
}

/// Fill both sides: densest next to the mid and thinner with distance, bids and
/// asks in turn.
fn populate_deep_book<B: OrderBookApi>(book: &mut B)
    requires
        in_order(*old(book)),
        total(old(book).depth().bids) + deep_orders_within(DEEP_LEVELS as nat) <= u64::MAX,
        total(old(book).depth().asks) + deep_orders_within(DEEP_LEVELS as nat) <= u64::MAX,
    ensures
        in_order(*final(book)),
        quoted(old(book).depth(), deep_quotes(DEEP_LEVELS as nat), final(book).depth()),
{
    let ghost start = book.depth();
    let ghost most = deep_orders_within(DEEP_LEVELS as nat);
    proof {
        lemma_quoted_none(start);
    }
    let mut d: u64 = 0;
    while d < DEEP_LEVELS
        invariant
            d <= DEEP_LEVELS,
            start == old(book).depth(),
            most == deep_orders_within(DEEP_LEVELS as nat),
            in_order(*book),
            total(start.bids) + most <= u64::MAX,
            total(start.asks) + most <= u64::MAX,
            total(book.depth().bids) <= total(start.bids) + deep_orders_within(d as nat),
            total(book.depth().asks) <= total(start.asks) + deep_orders_within(d as nat),
            quoted(start, deep_quotes(d as nat), book.depth()),
        decreases DEEP_LEVELS - d,
    {
        let ghost done = deep_quotes(d as nat);
        let ghost within = deep_orders_within(d as nat);
        d = d + 1;
        let n = deep_orders_at(d);
        let ghost mut quotes = done;
        proof {
            lemma_deep_within(d as nat, DEEP_LEVELS as nat);
            assert(done + deep_pairs(d, 0) =~= done);
        }
        let mut i: u64 = 0;
        while i < n
            invariant
                0 < d <= DEEP_LEVELS,
                i <= n,
                n == deep_orders(d),
                within + n <= most,
                in_order(*book),
                total(start.bids) + most <= u64::MAX,
                total(start.asks) + most <= u64::MAX,
                total(book.depth().bids) <= total(start.bids) + within + i,
                total(book.depth().asks) <= total(start.asks) + within + i,
                quotes == done + deep_pairs(d, i as nat),
                quoted(start, quotes, book.depth()),
            decreases n - i,
        {
            let ghost bid = Quote { side: Side::Bid, price: (DEEP_MID - d) as u64, qty: 1 };
            let ghost ask = Quote { side: Side::Ask, price: (DEEP_MID + d) as u64, qty: 1 };
            add_quote(book, Side::Bid, DEEP_MID - d, Ghost(start), Ghost(quotes));
            add_quote(book, Side::Ask, DEEP_MID + d, Ghost(start), Ghost(quotes.push(bid)));
            proof {
                quotes = quotes.push(bid).push(ask);
                assert(quotes =~= done + deep_pairs(d, (i + 1) as nat));
            }
            i = i + 1;
        }
    }
}

/// Per-iteration state of the workload that sweeps and builds again the near
/// band of a deep book.
pub struct DeepBookState<B: OrderBookApi> {
    pub book: B,
    /// The quantity that takes exactly the near band of asks.
    pub near_qty: u64,
}

pub fn setup_deep_book<B: OrderBookApi>(slab_cap: usize, alloc: SlabAllocator) -> (r: BookResult<
    DeepBookState<B>,
>)
    requires
        B::fits(slab_cap),
    ensures
        alloc == SlabAllocator::System ==> r is Ok,
        match r {
            Ok(s) => {
                &&& in_order(s.book)
                &&& s.near_qty == deep_orders_within(DEEP_NEAR_LEVELS as nat)
                &&& quoted(B::made(slab_cap), deep_quotes(DEEP_LEVELS as nat), s.book.depth())
            },
            Err(e) => e == BookError::UnsupportedAllocator,
        },
{
    let mut book = B::new_with_alloc(slab_cap, alloc)?;
    proof {
        assert(total(Levels::<B::Handle>::empty()) == 0);
        lemma_deep_bound(DEEP_LEVELS as nat);
    }
    populate_deep_book(&mut book);
    Ok(DeepBookState { book, near_qty: deep_near_band_qty() })
}

/// No level holds more than the peak.
proof fn lemma_deep_bound(d: nat)
    requires
        d <= DEEP_LEVELS,
    ensures
        deep_orders_within(d) <= d * DEEP_PEAK,
    decreases d,
{
    if d > 0 {
        lemma_deep_bound((d - 1) as nat);
        let e = d as u64;
        assert((2 * DEEP_PEAK + e) / (2 * e) <= DEEP_PEAK) by (nonlinear_arith)
            requires
                0 < e,
                DEEP_PEAK == 1000,
        ;
    }
}

/// Between how many and how many orders rest `d` ticks away.
proof fn lemma_deep_between(d: nat, least: nat, most: nat)
    requires
        0 < d <= DEEP_LEVELS,
        1 <= least,
        (2 * least - 1) * d <= 2 * DEEP_PEAK < (2 * most + 1) * d,
    ensures
        least <= deep_orders(d as u64) <= most,
{
    let top: int = 2 * DEEP_PEAK + d;
    let by: int = 2 * d as int;
    assert(least <= top / by <= most) by (nonlinear_arith)
        requires
            0 < d,
            by == 2 * d,
            top == 2 * DEEP_PEAK + d,
            (2 * least - 1) * d <= 2 * DEEP_PEAK < (2 * most + 1) * d,
    ;
}

/// Between how many and how many orders rest in the band beyond `lo` up to `hi`,
/// if its outermost level has at least `least` and its innermost at most `most`.
proof fn lemma_deep_band_between(lo: nat, hi: nat, least: nat, most: nat)
    requires
        lo <= hi <= DEEP_LEVELS,
        1 <= least,
        (2 * least - 1) * hi <= 2 * DEEP_PEAK < (2 * most + 1) * (lo + 1),
    ensures
        deep_orders_within(lo) + (hi - lo) * least <= deep_orders_within(hi)
            <= deep_orders_within(lo) + (hi - lo) * most,
    decreases hi,
{
    if lo < hi {
        let below = (hi - 1) as nat;
        assert((2 * least - 1) * below <= (2 * least - 1) * hi) by (nonlinear_arith)
            requires
                below <= hi,
                1 <= least,
        ;
        assert((2 * most + 1) * (lo + 1) <= (2 * most + 1) * hi) by (nonlinear_arith)
            requires
                lo + 1 <= hi,
        ;
        lemma_deep_band_between(lo, below, least, most);
        lemma_deep_between(hi, least, most);
        assert((hi - lo) * least == (below - lo) * least + least) by (nonlinear_arith)
            requires
                below == hi - 1,
        ;
        assert((hi - lo) * most == (below - lo) * most + most) by (nonlinear_arith)
            requires
                below == hi - 1,
        ;
    } else {
        assert((hi - lo) * least == 0 && (hi - lo) * most == 0) by (nonlinear_arith)
            requires
                hi == lo,
        ;
    }
}

/// At least three quarters of the orders of a side rest in the near band.
#[verifier::nonlinear]
pub proof fn law_near_band_holds_most()
    ensures
        4 * deep_orders_within(DEEP_NEAR_LEVELS as nat) >= 3 * deep_orders_within(
            DEEP_LEVELS as nat,
        ),
{
    assert(deep_orders_within(0) == 0);
    lemma_deep_band_between(0, 1, 1000, 1000);
    lemma_deep_band_between(1, 2, 500, 500);
    lemma_deep_band_between(2, 3, 333, 333);
    lemma_deep_band_between(3, 4, 250, 250);
    lemma_deep_band_between(4, 5, 200, 200);
    lemma_deep_band_between(5, 6, 167, 167);
    lemma_deep_band_between(6, 7, 143, 143);
    lemma_deep_band_between(7, 8, 125, 125);
    lemma_deep_band_between(8, 9, 111, 111);
    lemma_deep_band_between(9, 10, 100, 100);
    lemma_deep_band_between(10, 20, 50, 91);
    lemma_deep_band_between(20, 40, 25, 48);
    lemma_deep_band_between(40, 80, 13, 24);
    lemma_deep_band_between(80, 100, 10, 12);
    lemma_deep_band_between(100, 128, 8, 10);
    lemma_deep_band_between(128, 200, 5, 8);
    lemma_deep_band_between(200, 256, 4, 5);
}

/// Taking a quantity with a market bid and adding the near asks again may turn
/// `pre` into `post`.
pub open spec fn rebuilt<H>(pre: Depth<H>, qty: u64, post: Depth<H>) -> bool {
    exists|mid: Depth<H>, r: BookResult<MarketOrderResult>| #[trigger]
        market_taken(pre, qty, r, mid) && quoted(mid, near_quotes(DEEP_NEAR_LEVELS as nat), post)
}

/// Sweep the near band with one market order, then build it again.
pub fn hot_deep_book<B: OrderBookApi>(s: &mut DeepBookState<B>)
    requires
        in_order(old(s).book),
        total(old(s).book.depth().asks) + deep_orders_within(DEEP_NEAR_LEVELS as nat) <= u64::MAX,
    ensures
        in_order(final(s).book),
        final(s).near_qty == old(s).near_qty,
        rebuilt(old(s).book.depth(), old(s).near_qty, final(s).book.depth()),
{
    let ghost before = s.book;
    let r = s.book.add_market(Side::Bid, s.near_qty, MarketOrderMode::ImmediateOrCancel);
    let ghost start = s.book.depth();
    let ghost most = deep_orders_within(DEEP_NEAR_LEVELS as nat);
    let ghost near_qty = s.near_qty;
    proof {
        assert(market_taken(before.depth(), near_qty, r, start));
        lemma_market_total(
            before.depth(),
            Side::Bid,
            near_qty,
            MarketOrderMode::ImmediateOrCancel,
            r,
            start,
            Side::Ask,
        );
        assert(total(before.depth().on(Side::Ask)) == total(before.depth().asks));
        lemma_quoted_none(start);
    }
    let mut d: u64 = 0;
    while d < DEEP_NEAR_LEVELS
        invariant
            d <= DEEP_NEAR_LEVELS,
            before == old(s).book,
            near_qty == old(s).near_qty,
            s.near_qty == near_qty,
            most == deep_orders_within(DEEP_NEAR_LEVELS as nat),
            market_taken(before.depth(), near_qty, r, start),
            in_order(s.book),
            total(start.asks) + most <= u64::MAX,
            total(s.book.depth().asks) <= total(start.asks) + deep_orders_within(d as nat),
            quoted(start, near_quotes(d as nat), s.book.depth()),
        decreases DEEP_NEAR_LEVELS - d,
    {
        let ghost done = near_quotes(d as nat);
        let ghost within = deep_orders_within(d as nat);
        d = d + 1;
        let n = deep_orders_at(d);
        let ghost mut quotes = done;
        proof {
            lemma_deep_within(d as nat, DEEP_NEAR_LEVELS as nat);
            assert(done + deep_asks(d, 0) =~= done);
        }
        let mut i: u64 = 0;
        while i < n
            invariant
                0 < d <= DEEP_NEAR_LEVELS,
                s.near_qty == near_qty,
                i <= n,
                n == deep_orders(d),
                within + n <= most,
                in_order(s.book),
                total(start.asks) + most <= u64::MAX,
                total(s.book.depth().asks) <= total(start.asks) + within + i,
                quotes == done + deep_asks(d, i as nat),
                quoted(start, quotes, s.book.depth()),
            decreases n - i,
        {
            add_quote(&mut s.book, Side::Ask, DEEP_MID + d, Ghost(start), Ghost(quotes));
            proof {
                let ask = Quote { side: Side::Ask, price: (DEEP_MID + d) as u64, qty: 1 };
                quotes = quotes.push(ask);
                assert(quotes =~= done + deep_asks(d, (i + 1) as nat));
            }
            i = i + 1;
        }
    }
}

pub fn deep_book_workload() -> (w: Workload)
    ensures
        w == (Workload { name: "deep_book", slab_cap: 32768, warmup_iters: 20 }),
{
    Workload { name: "deep_book", slab_cap: 32768, warmup_iters: 20 }
}

/// Per-iteration state of the mixed workload: a harness, the operations that it
/// plays over and over, and the next one to play.
pub struct MixedState<B: OrderBookApi> {
    pub harness: Harness<B>,
    pub ops: Vec<Op>,
    pub idx: usize,
}

/// What the mixed workload is made from: half adds, half cancels.
pub open spec fn warm_mix() -> Mix {
    Mix {
        mid: 10_000,
        spread_ticks: 50,
        add_numerator: 1,
        add_denominator: 2,
        start_id: 100_000,
    }
}

/// Orders of quantity 1 bring no more than there are of them.
proof fn lemma_ones(ops: Seq<Op>, side: Side)
    requires
        forall|i: int|
            0 <= i < ops.len() ==> (#[trigger] ops[i] matches Op::Limit { qty, .. } ==> qty == 1),
    ensures
        volume(ops, side) <= ops.len(),
    decreases ops.len(),
{
    if ops.len() > 0 {
        let rest = ops.drop_first();
        assert forall|i: int| 0 <= i < rest.len() implies (
        #[trigger] rest[i] matches Op::Limit { qty, .. } ==> qty == 1) by {
            assert(rest[i] == ops[i + 1]);
        }
        lemma_ones(rest, side);
        assert(ops[0].brings(side) <= 1);
    }
}

/// Fill the book with 50 levels of 4 orders on each side, and work out 1024
/// operations to play on it.
pub fn setup_mixed_warm<B: OrderBookApi>(slab_cap: usize, alloc: SlabAllocator) -> (r: BookResult<
    MixedState<B>,
>)
    requires
        B::fits(slab_cap),
        B::lifetime() >= 400,
    ensures
        alloc == SlabAllocator::System ==> r is Ok,
        match r {
            Ok(s) => {
                &&& s.harness.wf()
                &&& s.idx == 0
                &&& s.harness.book.spare() + 400 >= B::lifetime()
                &&& s.ops@ == mixed_stream(
                    warm_mix(),
                    (Dice12 { seed: 0xC0FFEE, pos: 0 }),
                    100_000,
                    1024,
                )
                &&& s.ops@.len() == 1024
                &&& played(
                    (Stage { depth: B::made(slab_cap), handles: Map::empty() }),
                    Seq::new(400, |k: int| uniform_op(4, 10_000, 1, k)),
                    s.harness.stage(),
                )
            },
            Err(e) => e == BookError::UnsupportedAllocator,
        },
{
    let mut harness = Harness::<B>::new_with_alloc(slab_cap, alloc)?;
    let populate = populate_uniform_ops(50, 4, 10_000, 1);
    proof {
        assert(total(Levels::<B::Handle>::empty()) == 0);
        assert forall|side: Side|
            total(#[trigger] harness.book.depth().on(side)) + volume(populate@, side)
                <= u64::MAX by {
            lemma_ones(populate@, side);
        }
    }
    harness.apply_all(&populate);
    let ops = mixed_workload_ops(0xC0FFEE, 1024, 10_000, 50, 1, 2, 100_000);
    Ok(MixedState { harness, ops, idx: 0 })
}

/// Play the operation at `idx` and move on, back to the start after the last.
fn replay<B: OrderBookApi>(harness: &mut Harness<B>, ops: &Vec<Op>, idx: usize) -> (next: usize)
    requires
        old(harness).wf(),
        old(harness).book.spare() > 0,
        idx < ops@.len(),
        ops@[idx as int] matches Op::Limit { side, price, qty, .. } ==> old(
            harness,
        ).book.depth().admits(side, price.0, qty),
    ensures
        final(harness).wf(),
        final(harness).book.spare() + 1 >= old(harness).book.spare(),
        old(harness).stage().step(ops@[idx as int], final(harness).stage()),
        next == (if idx + 1 == ops@.len() {
            0
        } else {
            idx + 1
        }),
{
    harness.apply(&ops[idx]);
    if idx == ops.len() - 1 {
        0
    } else {
        idx + 1
    }
}

/// Play the next operation; after the last one start again.
pub fn hot_mixed<B: OrderBookApi>(state: &mut MixedState<B>)
    requires
        old(state).harness.wf(),
        old(state).harness.book.spare() > 0,
        old(state).idx < old(state).ops@.len(),
        old(state).ops@[old(state).idx as int] matches Op::Limit { side, price, qty, .. } ==> old(
            state,
        ).harness.book.depth().admits(side, price.0, qty),
    ensures
        final(state).harness.wf(),
        final(state).harness.book.spare() + 1 >= old(state).harness.book.spare(),
        final(state).ops@ == old(state).ops@,
        final(state).idx == (if old(state).idx + 1 == old(state).ops@.len() {
            0
        } else {
            old(state).idx + 1
        }),
        old(state).harness.stage().step(
            old(state).ops@[old(state).idx as int],
            final(state).harness.stage(),
        ),
{
    state.idx = replay(&mut state.harness, &state.ops, state.idx);
}

pub fn mixed_workload() -> (w: Workload)
    ensures
        w == (Workload { name: "mixed", slab_cap: 16384, warmup_iters: 1_000 }),
{
    Workload { name: "mixed", slab_cap: 16384, warmup_iters: 1_000 }
}

/// Events in the stream of a scenario: one pass is what is played over and over.
pub const SCENARIO_N_EVENTS: usize = 4096;

pub fn calm_market_workload() -> (w: Workload)
    ensures
        w == (Workload { name: "calm_market", slab_cap: 16384, warmup_iters: SCENARIO_N_EVENTS }),
{
    Workload { name: "calm_market", slab_cap: 16384, warmup_iters: SCENARIO_N_EVENTS }
}

pub fn news_event_workload() -> (w: Workload)
    ensures
        w == (Workload { name: "news_event", slab_cap: 16384, warmup_iters: SCENARIO_N_EVENTS }),
{
    Workload { name: "news_event", slab_cap: 16384, warmup_iters: SCENARIO_N_EVENTS }
}

pub fn illiquid_workload() -> (w: Workload)
    ensures
        w == (Workload { name: "illiquid", slab_cap: 16384, warmup_iters: SCENARIO_N_EVENTS }),
{
    Workload { name: "illiquid", slab_cap: 16384, warmup_iters: SCENARIO_N_EVENTS }
}

pub fn opening_auction_workload() -> (w: Workload)
    ensures
        w == (Workload { name: "opening_auction", slab_cap: 16384, warmup_iters: SCENARIO_N_EVENTS }),
{
    Workload { name: "opening_auction", slab_cap: 16384, warmup_iters: SCENARIO_N_EVENTS }
}

/// Per-iteration state of a scenario: a harness, the operations that it plays
/// over and over, and the next one to play.
pub struct ScenarioState<B: OrderBookApi> {
    pub harness: Harness<B>,
    pub ops: Vec<Op>,
    pub idx: usize,
}

/// A new book, and the events of a scenario as operations to play on it.
pub fn setup_scenario<B: OrderBookApi>(
    events: &Vec<Event>,
    slab_cap: usize,
    alloc: SlabAllocator,
) -> (r: BookResult<ScenarioState<B>>)
    requires
        B::fits(slab_cap),
    ensures
        alloc == SlabAllocator::System ==> r is Ok,
        match r {
            Ok(s) => {
                &&& s.harness.wf()
                &&& s.harness.stage() == (Stage {
                    depth: B::made(slab_cap),
                    handles: Map::<u64, B::Handle>::empty(),
                })
                &&& s.harness.book.spare() == B::lifetime()
                &&& s.ops@ == events@.map_values(|e: Event| e.op())
                &&& s.idx == 0
            },
            Err(e) => e == BookError::UnsupportedAllocator,
        },
{
    let harness = Harness::<B>::new_with_alloc(slab_cap, alloc)?;
    let mut ops: Vec<Op> = Vec::new();
    let mut i: usize = 0;
    while i < events.len()
        invariant
            i <= events@.len(),
            ops@ == events@.take(i as int).map_values(|e: Event| e.op()),
        decreases events@.len() - i,
    {
        ops.push(event_to_op(events[i]));
        i = i + 1;
        assert(ops@ =~= events@.take(i as int).map_values(|e: Event| e.op()));
    }
    assert(events@.take(i as int) =~= events@);
    Ok(ScenarioState { harness, ops, idx: 0 })
}

/// Play the next operation; after the last one start again.
pub fn hot_scenario<B: OrderBookApi>(state: &mut ScenarioState<B>)
    requires
        old(state).harness.wf(),
        old(state).harness.book.spare() > 0,
        old(state).idx < old(state).ops@.len(),
        old(state).ops@[old(state).idx as int] matches Op::Limit { side, price, qty, .. } ==> old(
            state,
        ).harness.book.depth().admits(side, price.0, qty),
    ensures
        final(state).harness.wf(),
        final(state).harness.book.spare() + 1 >= old(state).harness.book.spare(),
        final(state).ops@ == old(state).ops@,
        final(state).idx == (if old(state).idx + 1 == old(state).ops@.len() {
            0
        } else {
            old(state).idx + 1
        }),
        old(state).harness.stage().step(
            old(state).ops@[old(state).idx as int],
            final(state).harness.stage(),
        ),
{
    state.idx = replay(&mut state.harness, &state.ops, state.idx);
}

} // verus!
