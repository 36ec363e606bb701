//! Scenarios: streams of events as a market maker and its aggressors make them.

use std::collections::VecDeque;

use vstd::prelude::*;

use crate::api::Depth;
use crate::dice::{range8, ratio8, Dice8};
use crate::errors::BookResult;
use crate::model::{
    holds, lemma_holds_with_lot, lemma_holds_without, lemma_swept_held, rests_at, Levels, Lot,
};
use crate::room::law_runs_lose_no_room;
use crate::types::{MarketOrderMode, MarketOrderResult, Price, Side};
use crate::workloads::{played, steps_through, Op, Stage};

verus! {

/// A single market-affecting event. Ids are the scenario's own; the engine
/// mints its handles when the event is replayed.
#[derive(Debug, Clone, Copy, PartialEq, Eq, Structural)]
pub enum Event {
    LimitAdd { id: u64, side: Side, price: u64, qty: u64 },
    Cancel { id: u64 },
    Market { side: Side, qty: u64, mode: MarketOrderMode },
}

impl Event {
    /// The operation that replays the event.
    pub open spec fn op(self) -> Op {
        match self {
            Event::LimitAdd { id, side, price, qty } => Op::Limit {
                id,
                side,
                price: Price(price),
                qty,
            },
            Event::Cancel { id } => Op::Cancel { id },
            Event::Market { side, qty, mode } => Op::Market { side, qty, mode },
        }
    }
}

/// The operation that replays an event.
pub fn event_to_op(e: Event) -> (op: Op)
    ensures
        op == e.op(),
{
    match e {
        Event::LimitAdd { id, side, price, qty } => Op::Limit {
            id,
            side,
            price: Price(price),
            qty,
        },
        Event::Cancel { id } => Op::Cancel { id },
        Event::Market { side, qty, mode } => Op::Market { side, qty, mode },
    }
}

/// `ids` without `id`.
pub open spec fn without_id(ids: Seq<u64>, id: u64) -> Seq<u64> {
    ids.filter(|k: u64| k != id)
}

/// The ids of the orders that are added and not cancelled, oldest first.
pub open spec fn open_ids(events: Seq<Event>) -> Seq<u64>
    decreases events.len(),
{
    if events.len() == 0 {
        Seq::empty()
    } else {
        let before = open_ids(events.drop_last());
        match events.last() {
            Event::LimitAdd { id, .. } => before.push(id),
            Event::Cancel { id } => without_id(before, id),
            Event::Market { .. } => before,
        }
    }
}

/// No id is given to an order while an earlier order under that id has not been
/// cancelled.
pub open spec fn ids_are_free(events: Seq<Event>) -> bool {
    forall|i: int|
        0 <= i < events.len() ==> (#[trigger] events[i] matches Event::LimitAdd { id, .. }
            ==> !open_ids(events.take(i)).contains(id))
}

/// One event more.
proof fn lemma_ids_push(events: Seq<Event>, event: Event)
    requires
        ids_are_free(events),
        event matches Event::LimitAdd { id, .. } ==> !open_ids(events).contains(id),
    ensures
        ids_are_free(events.push(event)),
{
    let all = events.push(event);
    assert forall|i: int| 0 <= i < all.len() implies (
    #[trigger] all[i] matches Event::LimitAdd { id, .. } ==> !open_ids(all.take(i)).contains(
        id,
    )) by {
        if i < events.len() {
            assert(all[i] == events[i]);
            assert(all.take(i) =~= events.take(i));
        } else {
            assert(all.take(i) =~= events);
        }
    }
}

/// The side that a coin gives.
pub open spec fn side_of(bid: bool) -> Side {
    if bid {
        Side::Bid
    } else {
        Side::Ask
    }
}

/// The price of a quote `offset` ticks away from `tick`. A bid is never below
/// 1, and an ask stops at the highest price there is.
pub open spec fn quote_price(tick: u64, bid: bool, offset: u64) -> u64 {
    if bid {
        if tick > offset {
            (tick - offset) as u64
        } else {
            1
        }
    } else if tick + offset > u64::MAX {
        u64::MAX
    } else {
        (tick + offset) as u64
    }
}

/// A market maker that keeps about `mm_depth` quotes resting and cancels the
/// oldest to make room for the next, and the aggressors that trade with it.
///
/// The last `mm_depth` events are kept for cancelling what still rests, so that
/// the stream ends with nothing resting and can be played again from its start.
pub struct Maker {
    events: Vec<Event>,
    live: VecDeque<u64>,
    next_id: u64,
    main_n: usize,
    n_events: usize,
    mm_depth: usize,
    quote_offsets: u64,
}

/// A market maker as seen from outside.
#[verifier::ext_equal]
pub struct MakerView {
    /// The events so far.
    pub events: Seq<Event>,
    /// The quotes that rest, oldest first.
    pub live: Seq<u64>,
    /// The last id given out.
    pub last_id: u64,
    /// How many events there are to be, at most.
    pub n_events: nat,
    /// How many quotes are to rest.
    pub mm_depth: nat,
    /// Quotes lie 1 to this many ticks away from the mid.
    pub quote_offsets: u64,
}

impl MakerView {
    /// How many events there may be before what still rests is cancelled.
    pub open spec fn main_part(self) -> nat {
        if self.n_events > self.mm_depth {
            (self.n_events - self.mm_depth) as nat
        } else {
            0
        }
    }

    /// The quotes that rest are those that the events leave open.
    pub open spec fn valid(self) -> bool {
        &&& self.live == open_ids(self.events)
        &&& ids_are_free(self.events)
        &&& self.events.len() <= self.main_part()
        &&& self.live.len() <= self.mm_depth || self.live.len() <= 1
        &&& self.last_id <= 100_000 + self.events.len()
        &&& self.n_events + 100_000 <= u64::MAX
        &&& self.quote_offsets >= 1
        &&& forall|i: int, j: int| 0 <= i < j < self.live.len() ==> self.live[i] < self.live[j]
        &&& forall|i: int| 0 <= i < self.live.len() ==> #[trigger] self.live[i] <= self.last_id
    }

    /// An aggressor on the given side.
    pub open spec fn aggressed(self, bid: bool) -> MakerView {
        MakerView {
            events: self.events.push(
                Event::Market {
                    side: side_of(bid),
                    qty: 1,
                    mode: MarketOrderMode::ImmediateOrCancel,
                },
            ),
            ..self
        }
    }

    /// The oldest quote is cancelled if enough quotes rest.
    pub open spec fn rotated(self) -> MakerView {
        if self.live.len() >= self.mm_depth && self.live.len() > 0 {
            MakerView {
                events: self.events.push(Event::Cancel { id: self.live[0] }),
                live: self.live.drop_first(),
                ..self
            }
        } else {
            self
        }
    }

    /// A new quote.
    pub open spec fn placed(self, tick: u64, bid: bool, offset: u64) -> MakerView {
        let id = (self.last_id + 1) as u64;
        MakerView {
            events: self.events.push(
                Event::LimitAdd {
                    id,
                    side: side_of(bid),
                    price: quote_price(tick, bid, offset),
                    qty: 1,
                },
            ),
            live: self.live.push(id),
            last_id: id,
            ..self
        }
    }
}

/// A sequence of different ids without the first of them.
proof fn lemma_without_first(ids: Seq<u64>, id: u64)
    requires
        ids.len() > 0,
        ids[0] == id,
        forall|i: int| 0 < i < ids.len() ==> #[trigger] ids[i] != id,
    ensures
        without_id(ids, id) == ids.drop_first(),
    decreases ids.len(),
{
    reveal(Seq::filter);
    let front = ids.drop_last();
    if ids.len() == 1 {
        assert(without_id(front, id) =~= Seq::empty());
        assert(ids.drop_first() =~= Seq::empty());
    } else {
        assert forall|i: int| 0 < i < front.len() implies #[trigger] front[i] != id by {
            assert(front[i] == ids[i]);
        }
        lemma_without_first(front, id);
        assert(ids[ids.len() - 1] != id);
        assert(ids.drop_first() =~= front.drop_first().push(ids.last()));
    }
}

impl View for Maker {
    type V = MakerView;

    closed spec fn view(&self) -> MakerView {
        MakerView {
            events: self.events@,
            live: self.live@,
            last_id: self.next_id,
            n_events: self.n_events as nat,
            mm_depth: self.mm_depth as nat,
            quote_offsets: self.quote_offsets,
        }
    }
}

impl Maker {
    pub closed spec fn wf(self) -> bool {
        self@.valid() && self.main_n == self@.main_part()
    }

    /// What a consistent market maker shows.
    pub proof fn lemma_wf(self)
        requires
            self.wf(),
        ensures
            self@.valid(),
    {
    }

    /// A market maker that is to make `n_events` events at most.
    pub fn new(n_events: usize, mm_depth: usize, quote_offsets: u64) -> (r: Self)
        requires
            quote_offsets >= 1,
            n_events + 100_000 <= u64::MAX,
        ensures
            r.wf(),
            r@ == (MakerView {
                events: Seq::empty(),
                live: Seq::empty(),
                last_id: 100_000,
                n_events: n_events as nat,
                mm_depth: mm_depth as nat,
                quote_offsets,
            }),
    {
        let main_n = if n_events > mm_depth {
            n_events - mm_depth
        } else {
            0
        };
        let r = Maker {
            events: Vec::new(),
            live: VecDeque::new(),
            next_id: 100_000,
            main_n,
            n_events,
            mm_depth,
            quote_offsets,
        };
        assert(r@.live =~= Seq::empty());
        assert(r@.events =~= Seq::empty());
        r
    }

    /// There is to be another event before what still rests is cancelled.
    pub fn wants_more(&self) -> (r: bool)
        requires
            self.wf(),
        ensures
            r <==> self@.events.len() < self@.main_part(),
    {
        self.events.len() < self.main_n
    }

    /// An aggressor takes the side that a coin gives.
    pub fn aggress(&mut self, dice: &mut Dice8)
        requires
            old(self).wf(),
            old(self)@.events.len() < old(self)@.main_part(),
        ensures
            final(self).wf(),
            ({
                let (bid, pos) = ratio8(old(dice).seed, old(dice).pos, 1, 2);
                &&& final(self)@ == old(self)@.aggressed(bid)
                &&& *final(dice) == (Dice8 { seed: old(dice).seed, pos })
            }),
    {
        let bid = dice.ratio(1, 2);
        self.aggress_on(bid);
    }

    /// An aggressor takes the given side.
    pub fn aggress_on(&mut self, bid: bool)
        requires
            old(self).wf(),
            old(self)@.events.len() < old(self)@.main_part(),
        ensures
            final(self).wf(),
            final(self)@ == old(self)@.aggressed(bid),
    {
        let ghost before = self@;
        let side = if bid {
            Side::Bid
        } else {
            Side::Ask
        };
        self.events.push(
            Event::Market { side, qty: 1, mode: MarketOrderMode::ImmediateOrCancel },
        );
        proof {
            assert(self@.events.drop_last() =~= before.events);
            lemma_ids_push(before.events, self@.events.last());
        }
    }

    /// Cancel the oldest quote if enough quotes rest. Tells whether there is to
    /// be another event after that.
    pub fn rotate(&mut self) -> (r: bool)
        requires
            old(self).wf(),
            old(self)@.events.len() < old(self)@.main_part(),
        ensures
            final(self).wf(),
            final(self)@ == old(self)@.rotated(),
            r <==> final(self)@.events.len() < final(self)@.main_part(),
    {
        let ghost before = self@;
        if self.live.len() >= self.mm_depth {
            if let Some(id) = self.live.pop_front() {
                self.events.push(Event::Cancel { id });
                proof {
                    assert(self@.live =~= before.live.drop_first());
                    assert(self@.events.drop_last() =~= before.events);
                    lemma_without_first(before.live, id);
                    lemma_ids_push(before.events, self@.events.last());
                }
            }
        }
        assert(self@ =~= before.rotated());
        self.events.len() < self.main_n
    }

    /// Place a quote `offset` ticks away from `tick`.
    pub fn place(&mut self, tick: u64, bid: bool, offset: u64)
        requires
            old(self).wf(),
            old(self)@.events.len() < old(self)@.main_part(),
            old(self)@.live.len() < old(self)@.mm_depth || old(self)@.live.len() == 0,
        ensures
            final(self).wf(),
            final(self)@ == old(self)@.placed(tick, bid, offset),
    {
        let ghost before = self@;
        self.next_id = self.next_id + 1;
        let id = self.next_id;
        let side = if bid {
            Side::Bid
        } else {
            Side::Ask
        };
        let price = match side {
            Side::Bid => {
                let p = tick.saturating_sub(offset);
                if p > 1 {
                    p
                } else {
                    1
                }
            },
            Side::Ask => tick.saturating_add(offset),
        };
        self.events.push(Event::LimitAdd { id, side, price, qty: 1 });
        self.live.push_back(id);
        proof {
            assert(self@.events.drop_last() =~= before.events);
            assert(self@ =~= before.placed(tick, bid, offset));
            lemma_ids_push(before.events, self@.events.last());
        }
    }

    /// Make room for a quote, and place it where the dice say if there is to be
    /// another event after that.
    pub fn quote(&mut self, tick: u64, dice: &mut Dice8)
        requires
            old(self).wf(),
            old(self)@.events.len() < old(self)@.main_part(),
        ensures
            final(self).wf(),
            ({
                let rotated = old(self)@.rotated();
                let (bid, sided) = ratio8(old(dice).seed, old(dice).pos, 1, 2);
                let (offset, pos) = range8(old(dice).seed, sided, 1, rotated.quote_offsets);
                if rotated.events.len() < rotated.main_part() {
                    &&& final(self)@ == rotated.placed(tick, bid, offset)
                    &&& *final(dice) == (Dice8 { seed: old(dice).seed, pos })
                } else {
                    &&& final(self)@ == rotated
                    &&& *final(dice) == *old(dice)
                }
            }),
    {
        if self.rotate() {
            let bid = dice.ratio(1, 2);
            let offset = dice.range(1, self.quote_offsets);
            self.place(tick, bid, offset);
        }
    }

    /// Cancel what still rests, oldest first, as far as there may be more
    /// events. If the market maker keeps any quotes resting at all, nothing
    /// rests when the stream ends.
    pub fn finish(self) -> (r: Vec<Event>)
        requires
            self.wf(),
        ensures
            r@.len() <= self@.n_events,
            ({
                let room = (self@.n_events - self@.events.len()) as nat;
                let n = if self@.live.len() < room {
                    self@.live.len()
                } else {
                    room
                };
                r@ == self@.events + Seq::new(n, |i: int| Event::Cancel { id: self@.live[i] })
            }),
            ids_are_free(r@),
            self@.mm_depth > 0 ==> open_ids(r@) == Seq::<u64>::empty(),
    {
        let ghost view = self@;
        let n_events = self.n_events;
        let mut events = self.events;
        let mut live = self.live;
        let ghost mut i: int = 0;
        assert(view.events + Seq::new(0, |k: int| Event::Cancel { id: view.live[k] })
            =~= view.events);
        assert(view.live.skip(0) =~= view.live);
        while events.len() < n_events && live.len() > 0
            invariant
                view.valid(),
                view.n_events == n_events,
                0 <= i <= view.live.len(),
                live@ == view.live.skip(i),
                live@ == open_ids(events@),
                ids_are_free(events@),
                events@.len() == view.events.len() + i,
                events@.len() <= n_events,
                events@ == view.events + Seq::new(
                    i as nat,
                    |k: int| Event::Cancel { id: view.live[k] },
                ),
            decreases view.live.len() - i,
        {
            let ghost before = events@;
            let ghost left = live@;
            if let Some(id) = live.pop_front() {
                events.push(Event::Cancel { id });
                proof {
                    assert(live@ =~= left.drop_first());
                    assert(live@ =~= view.live.skip(i + 1));
                    assert(events@.drop_last() =~= before);
                    lemma_without_first(left, id);
                    lemma_ids_push(before, Event::Cancel { id });
                    assert(events@ =~= view.events + Seq::new(
                        (i + 1) as nat,
                        |k: int| Event::Cancel { id: view.live[k] },
                    ));
                    i = i + 1;
                }
            }
        }
        assert(live@.len() == view.live.len() - i);
        proof {
            if view.mm_depth > 0 {
                assert(live@.len() == 0) by {
                    if view.n_events <= view.mm_depth {
                        assert(view.events.len() == 0);
                        assert(open_ids(view.events) =~= Seq::empty());
                    }
                }
                assert(open_ids(events@) =~= Seq::empty());
            }
        }
        events
    }
}

/// Every resting order is kept under an id that has not been cancelled.
spec fn accounted_for<H>(stage: Stage<H>, open: Seq<u64>) -> bool {
    forall|h: H| #[trigger]
        stage.depth.has(h) ==> exists|id: u64| #[trigger]
            open.contains(id) && stage.handles.contains_key(id) && stage.handles[id] == h
}

/// Trading puts nothing to rest.
proof fn lemma_taken_has<H>(depth: Depth<H>, side: Side, limit: Option<u64>, qty: u64, h: H)
    requires
        depth.valid(),
        depth.taken(side, limit, qty).has(h),
    ensures
        depth.has(h),
{
    let opp = side.other();
    if holds(depth.taking(side, limit, qty).levels, h) {
        lemma_swept_held(opp, depth.on(opp), limit, qty, h);
    }
}

/// One event keeps every resting order accounted for.
proof fn lemma_accounted<H>(pre: Stage<H>, event: Event, post: Stage<H>, before: Seq<u64>)
    requires
        pre.depth.valid(),
        pre.step(event.op(), post),
        accounted_for(pre, before),
        event matches Event::LimitAdd { id, .. } ==> !before.contains(id),
    ensures
        accounted_for(
            post,
            match event {
                Event::LimitAdd { id, .. } => before.push(id),
                Event::Cancel { id } => without_id(before, id),
                Event::Market { .. } => before,
            },
        ),
{
    broadcast use vstd::seq_lib::group_filter_ensures;

    match event {
        Event::LimitAdd { id, side, price, qty } => {
            let after = before.push(id);
            let r = choose|r: BookResult<Option<H>>| #[trigger]
                pre.limit(id, side, price, qty, r, post);
            assert(pre.limit(id, side, price, qty, r, post));
            let traded = pre.depth.taken(side, Some(price), qty);
            let left = pre.depth.taking(side, Some(price), qty).left;
            assert(after[before.len() as int] == id);
            assert forall|h: H| #[trigger] post.depth.has(h) implies exists|k: u64| #[trigger]
                after.contains(k) && post.handles.contains_key(k) && post.handles[k] == h by {
                let new = match r {
                    Ok(Some(x)) => x == h,
                    _ => false,
                };
                if new {
                    assert(after.contains(id) && post.handles.contains_key(id));
                } else {
                    if let Ok(Some(x)) = r {
                        lemma_holds_with_lot(
                            traded.on(side),
                            price,
                            Lot { id: x, quantity: left },
                            h,
                        );
                    }
                    assert(traded.has(h));
                    lemma_taken_has(pre.depth, side, Some(price), qty, h);
                    let k = choose|k: u64| #[trigger]
                        before.contains(k) && pre.handles.contains_key(k) && pre.handles[k] == h;
                    let i = before.index_of(k);
                    assert(after[i] == k);
                    assert(after.contains(k) && post.handles.contains_key(k));
                }
            }
        },
        Event::Cancel { id } => {
            let after = without_id(before, id);
            assert forall|h: H| #[trigger] post.depth.has(h) implies exists|k: u64| #[trigger]
                after.contains(k) && post.handles.contains_key(k) && post.handles[k] == h by {
                if pre.handles.contains_key(id) {
                    let gone = pre.handles[id];
                    let r = choose|r: BookResult<()>| #[trigger]
                        pre.depth.cancel_step(gone, r, post.depth);
                    assert(pre.depth.cancel_step(gone, r, post.depth));
                    if r is Ok {
                        let half = pre.depth.half(gone);
                        lemma_holds_without(pre.depth.on(half), gone, h);
                        lemma_holds_without(pre.depth.on(half), gone, gone);
                        assert(h != gone) by {
                            if h == gone {
                                assert(!(holds(pre.depth.bids, gone) && holds(
                                    pre.depth.asks,
                                    gone,
                                )));
                            }
                        }
                    }
                    assert(pre.depth.has(h) && h != gone);
                }
                assert(pre.depth.has(h));
                let k = choose|k: u64| #[trigger]
                    before.contains(k) && pre.handles.contains_key(k) && pre.handles[k] == h;
                assert(k != id);
                assert(after.contains(k) && post.handles.contains_key(k));
            }
        },
        Event::Market { side, qty, mode } => {
            let r = choose|r: BookResult<MarketOrderResult>| #[trigger]
                pre.depth.market_step(side, qty, mode, r, post.depth);
            assert(pre.depth.market_step(side, qty, mode, r, post.depth));
            assert forall|h: H| #[trigger] post.depth.has(h) implies pre.depth.has(h) by {
                if post.depth != pre.depth {
                    lemma_taken_has(pre.depth, side, None, qty, h);
                }
            }
        },
    }
}

/// How matters stand after the first `n` events.
proof fn lemma_accounted_all<H>(states: Seq<Stage<H>>, events: Seq<Event>, n: nat)
    requires
        steps_through(states, events.map_values(|e: Event| e.op())),
        ids_are_free(events),
        states[0].depth.bids == Levels::<H>::empty(),
        states[0].depth.asks == Levels::<H>::empty(),
        n <= events.len(),
    ensures
        accounted_for(states[n as int], open_ids(events.take(n as int))),
    decreases n,
{
    let ops = events.map_values(|e: Event| e.op());
    if n == 0 {
        assert forall|h: H| !states[0].depth.has(h) by {
            lemma_empty_holds(h);
        }
    } else {
        let i = n - 1;
        lemma_accounted_all(states, events, i as nat);
        assert(ops[i] == events[i].op());
        assert(states[i].step(ops[i], states[i + 1]));
        assert(states[i].depth.valid());
        lemma_accounted(states[i], events[i], states[i + 1], open_ids(events.take(i)));
        assert(events.take(n as int).drop_last() =~= events.take(i));
        assert(events.take(n as int).last() == events[i]);
    }
}

/// The handles that are kept after the first `n` events are those of orders
/// that have not been cancelled, and what was kept from the start.
proof fn lemma_handles_all<H>(states: Seq<Stage<H>>, events: Seq<Event>, n: nat)
    requires
        steps_through(states, events.map_values(|e: Event| e.op())),
        n <= events.len(),
    ensures
        forall|k: u64| #[trigger]
            states[n as int].handles.contains_key(k) ==> states[0].handles.contains_key(k)
                || open_ids(events.take(n as int)).contains(k),
    decreases n,
{
    broadcast use vstd::seq_lib::group_filter_ensures;

    let ops = events.map_values(|e: Event| e.op());
    if n > 0 {
        let i = n - 1;
        lemma_handles_all(states, events, i as nat);
        assert(ops[i] == events[i].op());
        assert(states[i].step(ops[i], states[i + 1]));
        let before = open_ids(events.take(i));
        let after = open_ids(events.take(n as int));
        assert(events.take(n as int).drop_last() =~= events.take(i));
        assert(events.take(n as int).last() == events[i]);
        assert forall|k: u64| #[trigger] states[n as int].handles.contains_key(k) implies states[0]
            .handles.contains_key(k) || after.contains(k) by {
            match events[i] {
                Event::LimitAdd { id, .. } => {
                    assert(after[before.len() as int] == id);
                    if k != id {
                        assert(states[i].handles.contains_key(k));
                        if before.contains(k) {
                            let j = choose|j: int| 0 <= j < before.len() && before[j] == k;
                            assert(after[j] == k);
                        }
                    }
                },
                Event::Cancel { id } => {
                    assert(states[i].handles.contains_key(k));
                    if k != id && before.contains(k) {
                        let j = choose|j: int| 0 <= j < before.len() && before[j] == k;
                        assert(before[j] == k);
                    }
                },
                Event::Market { .. } => {
                    assert(states[i].handles.contains_key(k));
                },
            }
        }
    }
}

/// Nothing rests on an empty side.
proof fn lemma_empty_holds<H>(h: H)
    ensures
        !holds(Levels::<H>::empty(), h),
{
    assert forall|p: u64, i: int| !rests_at(Levels::<H>::empty(), p, i, h) by {}
}

/// A stream that cancels all it has added can be played over and over: whatever
/// was traded on the way, nothing rests when it ends, all room is free again,
/// and no handle is kept that was not kept before.
pub proof fn law_clean_stream_leaves_nothing<H>(
    pre: Stage<H>,
    events: Seq<Event>,
    post: Stage<H>,
)
    requires
        pre.depth.bids == Levels::<H>::empty(),
        pre.depth.asks == Levels::<H>::empty(),
        ids_are_free(events),
        open_ids(events) == Seq::<u64>::empty(),
        played(pre, events.map_values(|e: Event| e.op()), post),
    ensures
        post.depth == pre.depth,
        forall|id: u64| #[trigger]
            post.handles.contains_key(id) ==> pre.handles.contains_key(id),
{
    let ops = events.map_values(|e: Event| e.op());
    let states = choose|states: Seq<Stage<H>>| #[trigger]
        steps_through(states, ops) && states[0] == pre && states[ops.len() as int] == post;
    assert(steps_through(states, ops) && states[0] == pre && states[ops.len() as int] == post);
    lemma_accounted_all(states, events, events.len());
    lemma_handles_all(states, events, events.len());
    assert(events.take(events.len() as int) =~= events);
    assert(states[ops.len() as int].depth.valid());
    assert forall|h: H| !post.depth.has(h) by {
        if post.depth.has(h) {
            let id = choose|id: u64| #[trigger]
                open_ids(events).contains(id) && post.handles.contains_key(id) && post.handles[id]
                    == h;
            assert(open_ids(events).contains(id));
        }
    }
    assert forall|p: u64| !post.depth.bids.contains_key(p) && !post.depth.asks.contains_key(p) by {
        if post.depth.bids.contains_key(p) {
            let h = post.depth.bids[p][0].id;
            assert(rests_at(post.depth.bids, p, 0, h));
            assert(post.depth.has(h));
        }
        if post.depth.asks.contains_key(p) {
            let h = post.depth.asks[p][0].id;
            assert(rests_at(post.depth.asks, p, 0, h));
            assert(post.depth.has(h));
        }
    }
    assert(post.depth.bids =~= Levels::<H>::empty());
    assert(post.depth.asks =~= Levels::<H>::empty());
    law_runs_lose_no_room(pre, ops, post, Side::Bid);
    law_runs_lose_no_room(pre, ops, post, Side::Ask);
}

} // verus!
