//! The order-book surface that workloads and harnesses are written against.
//!
//! The handle is an associated type: its bit layout is the engine's business,
//! and callers treat it opaquely. They get one from `add_limit` and hand it
//! back to `cancel`.

use vstd::prelude::*;

use crate::errors::{BookError, BookResult};
use crate::model::{
    holds, lots_at, queue_total, sound, sweep, total, uncrossed, with_lot, without, Levels, Lot,
    Swept,
};
use crate::types::{MarketOrderMode, MarketOrderResult, Price, Side, SlabAllocator};

verus! {

/// What every engine shows of its book: what rests, by handle, and how many
/// more orders there is room for.
#[verifier::ext_equal]
pub struct Depth<H> {
    pub bids: Levels<H>,
    pub asks: Levels<H>,
    /// How many more bids there is room for.
    pub bid_room: nat,
    /// How many more asks there is room for.
    pub ask_room: nat,
    /// Both sides draw on the same room.
    pub pooled: bool,
}

impl<H> Depth<H> {
    /// A book with nothing resting.
    pub open spec fn empty(bid_room: nat, ask_room: nat, pooled: bool) -> Depth<H> {
        Depth { bids: Map::empty(), asks: Map::empty(), bid_room, ask_room, pooled }
    }

    /// What rests on the given side.
    pub open spec fn on(self, side: Side) -> Levels<H> {
        match side {
            Side::Bid => self.bids,
            Side::Ask => self.asks,
        }
    }

    /// How many more orders there is room for on the given side.
    pub open spec fn room(self, side: Side) -> nat {
        match side {
            Side::Bid => self.bid_room,
            Side::Ask => self.ask_room,
        }
    }

    /// The book with what rests on the given side replaced.
    pub open spec fn put(self, side: Side, levels: Levels<H>) -> Depth<H> {
        match side {
            Side::Bid => Depth { bids: levels, ..self },
            Side::Ask => Depth { asks: levels, ..self },
        }
    }

    /// The book with room for `n` more orders on the given side.
    pub open spec fn widened(self, side: Side, n: int) -> Depth<H> {
        Depth {
            bid_room: if self.pooled || side is Bid {
                (self.bid_room + n) as nat
            } else {
                self.bid_room
            },
            ask_room: if self.pooled || side is Ask {
                (self.ask_room + n) as nat
            } else {
                self.ask_room
            },
            ..self
        }
    }

    /// An order with handle `h` rests.
    pub open spec fn has(self, h: H) -> bool {
        holds(self.bids, h) || holds(self.asks, h)
    }

    /// Each side is in order, no handle is used on both, and every bid is below
    /// every ask.
    pub open spec fn valid(self) -> bool {
        &&& sound(self.bids)
        &&& sound(self.asks)
        &&& forall|h: H| !(#[trigger] holds(self.bids, h) && #[trigger] holds(self.asks, h))
        &&& uncrossed(self.bids, self.asks)
        &&& self.pooled ==> self.bid_room == self.ask_room
    }

    /// What an aggressor on `side` does to the other side.
    pub open spec fn taking(self, side: Side, limit: Option<u64>, qty: u64) -> Swept<H> {
        sweep(side.other(), self.on(side.other()), limit, qty)
    }

    /// The book after an aggressor on `side` has taken what it could.
    pub open spec fn taken(self, side: Side, limit: Option<u64>, qty: u64) -> Depth<H> {
        let s = self.taking(side, limit, qty);
        self.put(side.other(), s.levels).widened(side.other(), s.spent as int)
    }

    /// The book after an order has been put to rest under handle `h`.
    pub open spec fn rested(self, side: Side, price: u64, h: H, qty: u64) -> Depth<H> {
        self.put(side, with_lot(self.on(side), price, Lot { id: h, quantity: qty })).widened(
            side,
            -1,
        )
    }

    /// The side that the order with handle `h` rests on.
    pub open spec fn half(self, h: H) -> Side {
        if holds(self.bids, h) {
            Side::Bid
        } else {
            Side::Ask
        }
    }

    /// The book after the resting order with handle `h` has been cancelled.
    pub open spec fn cancelled(self, h: H) -> Depth<H> {
        let side = self.half(h);
        self.put(side, without(self.on(side), h)).widened(side, 1)
    }

    /// What would rest of a limit order can be counted in its level.
    pub open spec fn admits(self, side: Side, price: u64, qty: u64) -> bool {
        self.taken(side, Some(price), qty).room(side) > 0 ==> queue_total(
            lots_at(self.on(side), price),
        ) + self.taking(side, Some(price), qty).left <= u64::MAX
    }

    /// Adding a limit order gives `r` and turns the book into `post`.
    ///
    /// It trades first. If quantity is left it is put to rest under a handle
    /// that no resting order has, or refused if there is no room.
    pub open spec fn limit_step(
        self,
        side: Side,
        price: u64,
        qty: u64,
        r: BookResult<Option<H>>,
        post: Depth<H>,
    ) -> bool {
        let s = self.taking(side, Some(price), qty);
        let traded = self.taken(side, Some(price), qty);
        match r {
            Ok(None) => s.left == 0 && post == traded,
            Ok(Some(h)) => {
                &&& s.left > 0
                &&& traded.room(side) > 0
                &&& !traded.has(h)
                &&& post == traded.rested(side, price, h, s.left)
            },
            Err(e) => {
                &&& e == BookError::SlabFull
                &&& s.left > 0
                &&& traded.room(side) == 0
                &&& post == traded
            },
        }
    }

    /// Adding a market order gives `r` and turns the book into `post`.
    pub open spec fn market_step(
        self,
        side: Side,
        qty: u64,
        mode: MarketOrderMode,
        r: BookResult<MarketOrderResult>,
        post: Depth<H>,
    ) -> bool {
        if mode == MarketOrderMode::FillOrKill && total(self.on(side.other())) < qty {
            &&& r == Ok::<MarketOrderResult, BookError>(MarketOrderResult { remaining: qty })
            &&& post == self
        } else {
            &&& r == Ok::<MarketOrderResult, BookError>(
                MarketOrderResult { remaining: self.taking(side, None, qty).left },
            )
            &&& post == self.taken(side, None, qty)
        }
    }

    /// Cancelling by handle `h` gives `r` and turns the book into `post`.
    pub open spec fn cancel_step(self, h: H, r: BookResult<()>, post: Depth<H>) -> bool {
        match r {
            Ok(_) => self.has(h) && post == self.cancelled(h),
            Err(e) => e == BookError::OrderNotFound && !self.has(h) && post == self,
        }
    }
}

pub trait OrderBookApi: Sized {
    /// Engine-minted, opaque order handle. Callers only store it and hand it
    /// back.
    type Handle: Copy;

    /// A book can be made with this many slots.
    open spec fn fits(slab_capacity: usize) -> bool {
        true
    }

    /// The book that is made with this many slots.
    open spec fn made(slab_capacity: usize) -> Depth<Self::Handle> {
        Depth::empty(slab_capacity as nat, slab_capacity as nat, true)
    }

    /// The book is consistent.
    open spec fn wf(&self) -> bool {
        true
    }

    /// What the book shows.
    open spec fn depth(&self) -> Depth<Self::Handle> {
        Depth::empty(0, 0, true)
    }

    /// The book can tell whether the order that `h` was issued for still rests.
    open spec fn accepts(&self, h: Self::Handle) -> bool {
        true
    }

    /// The book has issued `h`.
    open spec fn issued(&self, h: Self::Handle) -> bool {
        true
    }

    /// How many operations the book can take before a slot may run out of
    /// generations.
    open spec fn spare(&self) -> nat {
        0
    }

    /// How many operations a new book can take before a slot may run out of
    /// generations.
    open spec fn lifetime() -> nat {
        0
    }

    /// Construct with `slab_capacity` slots in total. Engines that keep a slab
    /// per side divide this themselves.
    fn new(slab_capacity: usize) -> (r: Self)
        requires
            Self::fits(slab_capacity),
        ensures
            r.wf(),
            r.depth() == Self::made(slab_capacity),
            r.depth().bids == Levels::<Self::Handle>::empty(),
            r.depth().asks == Levels::<Self::Handle>::empty(),
            r.depth().valid(),
            forall|h: Self::Handle| #[trigger] r.issued(h) ==> r.accepts(h),
            r.spare() == Self::lifetime(),
    ;

    /// Construct with a specific slab allocator. Only the system allocator is
    /// sure to be supported; an engine that supports others overrides this.
    fn new_with_alloc(slab_capacity: usize, alloc: SlabAllocator) -> (r: BookResult<Self>)
        requires
            Self::fits(slab_capacity),
        ensures
            alloc == SlabAllocator::System ==> r is Ok,
            match r {
                Ok(book) => {
                    &&& book.wf()
                    &&& book.depth() == Self::made(slab_capacity)
                    &&& book.depth().bids == Levels::<Self::Handle>::empty()
                    &&& book.depth().asks == Levels::<Self::Handle>::empty()
                    &&& book.depth().valid()
                    &&& forall|h: Self::Handle| #[trigger] book.issued(h) ==> book.accepts(h)
                    &&& book.spare() == Self::lifetime()
                },
                Err(e) => e == BookError::UnsupportedAllocator,
            },
        default_ensures
            alloc != SlabAllocator::System ==> r is Err,
            r matches Ok(book) ==> call_ensures(Self::new, (slab_capacity,), book),
    {
        match alloc {
            SlabAllocator::System => Ok(Self::new(slab_capacity)),
            _ => Err(BookError::UnsupportedAllocator),
        }
    }

    /// Add a limit order. Gives the handle of the resting remainder, or `None`
    /// if the order was filled completely and nothing rests.
    fn add_limit(&mut self, side: Side, price: Price, qty: u64) -> (r: BookResult<
        Option<Self::Handle>,
    >)
        requires
            old(self).wf(),
            old(self).depth().admits(side, price.0, qty),
        ensures
            final(self).wf(),
            old(self).depth().limit_step(side, price.0, qty, r, final(self).depth()),
            old(self).spare() > 0 && r is Ok && r->Ok_0 is Some ==> !old(self).issued(
                r->Ok_0->Some_0,
            ),
            final(self).depth().valid(),
            forall|h: Self::Handle| #[trigger] final(self).issued(h) ==> final(self).accepts(h),
            forall|h: Self::Handle| #[trigger]
                final(self).depth().has(h) ==> final(self).issued(h),
            forall|h: Self::Handle|
                old(self).issued(h) && old(self).spare() > 0 ==> #[trigger] final(self).issued(h),
            final(self).spare() + 1 >= old(self).spare(),
    ;

    /// Add a market order. It never rests, so there is no handle.
    fn add_market(&mut self, side: Side, qty: u64, mode: MarketOrderMode) -> (r: BookResult<
        MarketOrderResult,
    >)
        requires
            old(self).wf(),
        ensures
            final(self).wf(),
            old(self).depth().market_step(side, qty, mode, r, final(self).depth()),
            final(self).depth().valid(),
            forall|h: Self::Handle| #[trigger] final(self).issued(h) ==> final(self).accepts(h),
            forall|h: Self::Handle| #[trigger]
                final(self).depth().has(h) ==> final(self).issued(h),
            forall|h: Self::Handle|
                old(self).issued(h) && old(self).spare() > 0 ==> #[trigger] final(self).issued(h),
            final(self).spare() + 1 >= old(self).spare(),
    ;

    /// Cancel a resting order by its handle.
    fn cancel(&mut self, handle: Self::Handle) -> (r: BookResult<()>)
        requires
            old(self).wf(),
            old(self).accepts(handle),
        ensures
            final(self).wf(),
            old(self).depth().cancel_step(handle, r, final(self).depth()),
            final(self).depth().valid(),
            forall|h: Self::Handle| #[trigger] final(self).issued(h) ==> final(self).accepts(h),
            forall|h: Self::Handle| #[trigger]
                final(self).depth().has(h) ==> final(self).issued(h),
            forall|h: Self::Handle|
                old(self).issued(h) && old(self).spare() > 0 ==> #[trigger] final(self).issued(h),
            final(self).spare() + 1 >= old(self).spare(),
    ;
}

} // verus!
