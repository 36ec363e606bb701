//! Engines are interchangeable: the same operations do the same to any two
//! books, whatever handles they mint.

use vstd::prelude::*;

use crate::api::{Depth, OrderBookApi};
use crate::errors::BookResult;
use crate::laws::{fillable, law_limit_is_respected};
use crate::model::{
    crosses, distinct_ids, holds, lemma_holds_renamed, lemma_holds_with_lot, lemma_holds_without,
    lemma_sweep_renamed, lemma_swept_held, lemma_total_renamed, lemma_without_renamed, lots_at,
    rename, renamed, rests_at, sound, sweep, total, with_lot, without, Levels, Lot,
};
use crate::orderbooks::{orderbook_2, orderbook_legacy};
use crate::types::{MarketOrderMode, MarketOrderResult, Side};
use crate::workloads::{played, steps_through, Op, Stage};

verus! {

/// The first of two names.
pub open spec fn fst<H, K>() -> spec_fn((H, K)) -> H {
    |x: (H, K)| x.0
}

/// The second of two names.
pub open spec fn snd<H, K>() -> spec_fn((H, K)) -> K {
    |x: (H, K)| x.1
}

/// `z` is what rests on both sides `a` and `b`, each order under its two names.
pub open spec fn paired<H, K>(a: Levels<H>, b: Levels<K>, z: Levels<(H, K)>) -> bool {
    &&& a == renamed(z, fst())
    &&& b == renamed(z, snd())
}

/// Two stages show the same orders, and each id stands for the same order in
/// both, or for none that rests. `bids` and `asks` give the resting orders
/// their two names.
pub open spec fn tied<H, K>(
    a: Stage<H>,
    b: Stage<K>,
    bids: Levels<(H, K)>,
    asks: Levels<(H, K)>,
) -> bool {
    &&& paired(a.depth.bids, b.depth.bids, bids)
    &&& paired(a.depth.asks, b.depth.asks, asks)
    &&& a.handles.dom() == b.handles.dom()
    &&& forall|id: u64, x: (H, K)|
        #![trigger a.handles.contains_key(id), holds(bids, x)]
        a.handles.contains_key(id) && holds(bids, x) ==> (x.0 == a.handles[id] <==> x.1
            == b.handles[id])
    &&& forall|id: u64, x: (H, K)|
        #![trigger a.handles.contains_key(id), holds(asks, x)]
        a.handles.contains_key(id) && holds(asks, x) ==> (x.0 == a.handles[id] <==> x.1
            == b.handles[id])
}

/// Two stages differ only in the handles that their engines have minted.
pub open spec fn in_step<H, K>(a: Stage<H>, b: Stage<K>) -> bool {
    exists|bids: Levels<(H, K)>, asks: Levels<(H, K)>| #[trigger] tied(a, b, bids, asks)
}

/// The quantities of some fills, in order.
pub open spec fn quantities<H>(fills: Seq<Lot<H>>) -> Seq<u64> {
    fills.map_values(|l: Lot<H>| l.quantity)
}

/// `f` and `g` are the same fills: `z` gives each of them its two names.
pub open spec fn twins<H, K>(f: Seq<Lot<H>>, g: Seq<Lot<K>>, z: Seq<Lot<(H, K)>>) -> bool {
    &&& f == rename(z, fst())
    &&& g == rename(z, snd())
}

/// Every fill of `z` is one of an order that has its two names on one of the
/// sides.
pub open spec fn of_orders<H, K>(
    bids: Levels<(H, K)>,
    asks: Levels<(H, K)>,
    z: Seq<Lot<(H, K)>>,
) -> bool {
    forall|i: int|
        0 <= i < z.len() ==> holds(bids, (#[trigger] z[i]).id) || holds(asks, z[i].id)
}

/// The fills `f` in the first and `g` in the second of two stages in step are
/// the same: of the same orders for the same quantities, in the same order.
pub open spec fn same_fills<H, K>(
    a: Stage<H>,
    b: Stage<K>,
    f: Seq<Lot<H>>,
    g: Seq<Lot<K>>,
) -> bool {
    exists|bids: Levels<(H, K)>, asks: Levels<(H, K)>, z: Seq<Lot<(H, K)>>|
        #![trigger tied(a, b, bids, asks), twins(f, g, z)]
        tied(a, b, bids, asks) && twins(f, g, z) && of_orders(bids, asks, z)
}

/// The fills of a market order: none if it is killed.
pub open spec fn market_fills<H>(
    depth: Depth<H>,
    side: Side,
    qty: u64,
    mode: MarketOrderMode,
) -> Seq<Lot<H>> {
    if mode == MarketOrderMode::FillOrKill && total(depth.on(side.other())) < qty {
        Seq::empty()
    } else {
        depth.taking(side, None, qty).fills
    }
}

/// The fills of an operation.
pub open spec fn fills_of<H>(depth: Depth<H>, op: Op) -> Seq<Lot<H>> {
    match op {
        Op::Limit { side, price, qty, .. } => depth.taking(side, Some(price.0), qty).fills,
        Op::Cancel { .. } => Seq::empty(),
        Op::Market { side, qty, mode } => market_fills(depth, side, qty, mode),
    }
}

/// Fills that are the same are so in their quantities.
pub proof fn law_same_fills_have_the_same_quantities<H, K>(
    a: Stage<H>,
    b: Stage<K>,
    f: Seq<Lot<H>>,
    g: Seq<Lot<K>>,
)
    requires
        same_fills(a, b, f, g),
    ensures
        quantities(f) == quantities(g),
{
    let (bids, asks, z) = choose|
        bids: Levels<(H, K)>,
        asks: Levels<(H, K)>,
        z: Seq<Lot<(H, K)>>,
    |
        #![trigger tied(a, b, bids, asks), twins(f, g, z)]
        tied(a, b, bids, asks) && twins(f, g, z) && of_orders(bids, asks, z);
    assert(twins(f, g, z));
    assert(quantities(f) =~= quantities(g));
}

/// No fills.
proof fn lemma_no_fills<H, K>(a: Stage<H>, b: Stage<K>)
    requires
        in_step(a, b),
    ensures
        same_fills(a, b, Seq::<Lot<H>>::empty(), Seq::<Lot<K>>::empty()),
{
    let (bids, asks) = choose|bids: Levels<(H, K)>, asks: Levels<(H, K)>| #[trigger]
        tied(a, b, bids, asks);
    let none = Seq::<Lot<(H, K)>>::empty();
    assert(rename(none, fst::<H, K>()) =~= Seq::empty());
    assert(rename(none, snd::<H, K>()) =~= Seq::empty());
    assert(tied(a, b, bids, asks) && twins(Seq::<Lot<H>>::empty(), Seq::<Lot<K>>::empty(), none));
}

/// Stages in step show the same: the same prices, and at each price the same
/// quantities in the same order.
pub proof fn law_in_step_shows_the_same<H, K>(a: Stage<H>, b: Stage<K>, side: Side)
    requires
        in_step(a, b),
    ensures
        a.depth.on(side).dom() == b.depth.on(side).dom(),
        forall|p: u64| #[trigger]
            a.depth.on(side).contains_key(p) ==> quantities(a.depth.on(side)[p]) == quantities(
                b.depth.on(side)[p],
            ),
{
    let (bids, asks) = choose|bids: Levels<(H, K)>, asks: Levels<(H, K)>| #[trigger]
        tied(a, b, bids, asks);
    let z = match side {
        Side::Bid => bids,
        Side::Ask => asks,
    };
    assert(a.depth.on(side).dom() =~= z.dom());
    assert(b.depth.on(side).dom() =~= z.dom());
    assert forall|p: u64| #[trigger] a.depth.on(side).contains_key(p) implies quantities(
        a.depth.on(side)[p],
    ) == quantities(b.depth.on(side)[p]) by {
        assert(quantities(a.depth.on(side)[p]) =~= quantities(b.depth.on(side)[p]));
    }
}

/// Two new stages are in step.
pub proof fn law_new_stages_are_in_step<H, K>(a: Stage<H>, b: Stage<K>)
    requires
        a.depth.bids == Levels::<H>::empty(),
        a.depth.asks == Levels::<H>::empty(),
        b.depth.bids == Levels::<K>::empty(),
        b.depth.asks == Levels::<K>::empty(),
        a.handles == Map::<u64, H>::empty(),
        b.handles == Map::<u64, K>::empty(),
    ensures
        in_step(a, b),
{
    let none = Levels::<(H, K)>::empty();
    assert(renamed(none, fst::<H, K>()) =~= Map::empty());
    assert(renamed(none, snd::<H, K>()) =~= Map::empty());
    assert(a.handles.dom() =~= b.handles.dom());
    assert(tied(a, b, none, none));
}

/// What two sides have in common with the side that pairs them.
proof fn lemma_paired<H, K>(a: Levels<H>, b: Levels<K>, z: Levels<(H, K)>)
    requires
        paired(a, b, z),
        sound(a),
        sound(b),
    ensures
        z.dom() == a.dom(),
        z.dom() == b.dom(),
        distinct_ids(z),
        forall|p: u64| #[trigger] z.contains_key(p) ==> z[p].len() > 0,
        forall|x: (H, K), y: (H, K)|
            #![trigger holds(z, x), holds(z, y)]
            holds(z, x) && holds(z, y) && x.0 == y.0 ==> x == y,
        forall|x: (H, K), y: (H, K)|
            #![trigger holds(z, x), holds(z, y)]
            holds(z, x) && holds(z, y) && x.1 == y.1 ==> x == y,
        forall|x: (H, K)| #[trigger] holds(z, x) ==> holds(a, x.0) && holds(b, x.1),
{
    assert(a.dom() =~= z.dom());
    assert(b.dom() =~= z.dom());
    assert forall|p: u64, i: int, q: u64, j: int, x: (H, K)|
        #![trigger rests_at(z, p, i, x), rests_at(z, q, j, x)]
        rests_at(z, p, i, x) && rests_at(z, q, j, x) implies p == q && i == j by {
        assert(rests_at(a, p, i, x.0) && rests_at(a, q, j, x.0));
    }
    assert forall|p: u64| #[trigger] z.contains_key(p) implies z[p].len() > 0 by {
        assert(a.contains_key(p));
        assert(a[p].len() > 0);
    }
    assert forall|x: (H, K), y: (H, K)|
        #![trigger holds(z, x), holds(z, y)]
        holds(z, x) && holds(z, y) && (x.0 == y.0 || x.1 == y.1) implies x == y by {
        let (p, i) = choose|p: u64, i: int| rests_at(z, p, i, x);
        let (q, j) = choose|q: u64, j: int| rests_at(z, q, j, y);
        assert(rests_at(a, p, i, x.0) && rests_at(a, q, j, y.0));
        assert(rests_at(b, p, i, x.1) && rests_at(b, q, j, y.1));
    }
    assert forall|x: (H, K)| #[trigger] holds(z, x) implies holds(a, x.0) && holds(b, x.1) by {
        let (p, i) = choose|p: u64, i: int| rests_at(z, p, i, x);
        assert(rests_at(a, p, i, x.0));
        assert(rests_at(b, p, i, x.1));
    }
}

/// A sweep over paired sides leaves paired sides, with the same left over.
proof fn lemma_paired_sweep<H, K>(
    side: Side,
    a: Levels<H>,
    b: Levels<K>,
    z: Levels<(H, K)>,
    limit: Option<u64>,
    quantity: u64,
)
    requires
        paired(a, b, z),
        sound(a),
        sound(b),
    ensures
        ({
            let s = sweep(side, a, limit, quantity);
            let t = sweep(side, b, limit, quantity);
            let u = sweep(side, z, limit, quantity);
            &&& paired(s.levels, t.levels, u.levels)
            &&& s.left == t.left
            &&& s.spent == t.spent
            &&& twins(s.fills, t.fills, u.fills)
            &&& forall|i: int| 0 <= i < u.fills.len() ==> holds(z, (#[trigger] u.fills[i]).id)
            &&& forall|x: (H, K)| #[trigger] holds(u.levels, x) ==> holds(z, x)
        }),
{
    lemma_paired(a, b, z);
    let u = sweep(side, z, limit, quantity);
    lemma_sweep_renamed(side, z, limit, quantity, fst::<H, K>());
    lemma_sweep_renamed(side, z, limit, quantity, snd::<H, K>());
    law_limit_is_respected(side, z, limit, quantity);
    assert forall|i: int| 0 <= i < u.fills.len() implies holds(z, (#[trigger] u.fills[i]).id) by {
        let id = u.fills[i].id;
        assert(fillable(side, z, limit, id));
        let (p, j) = choose|p: u64, j: int| #[trigger]
            rests_at(z, p, j, id) && crosses(side, limit, p);
        assert(rests_at(z, p, j, id));
    }
    assert forall|x: (H, K)| #[trigger] holds(u.levels, x) implies holds(z, x) by {
        lemma_swept_held(side, z, limit, quantity, x);
    }
}

/// Paired sides with one more order each are paired.
proof fn lemma_paired_with_lot<H, K>(
    a: Levels<H>,
    b: Levels<K>,
    z: Levels<(H, K)>,
    price: u64,
    h: H,
    k: K,
    quantity: u64,
)
    requires
        paired(a, b, z),
    ensures
        paired(
            with_lot(a, price, Lot { id: h, quantity }),
            with_lot(b, price, Lot { id: k, quantity }),
            with_lot(z, price, Lot { id: (h, k), quantity }),
        ),
{
    let lot = Lot { id: (h, k), quantity };
    assert(rename(lots_at(z, price).push(lot), fst::<H, K>()) =~= lots_at(a, price).push(
        Lot { id: h, quantity },
    ));
    assert(rename(lots_at(z, price).push(lot), snd::<H, K>()) =~= lots_at(b, price).push(
        Lot { id: k, quantity },
    ));
    assert(renamed(with_lot(z, price, lot), fst::<H, K>()) =~= with_lot(
        a,
        price,
        Lot { id: h, quantity },
    ));
    assert(renamed(with_lot(z, price, lot), snd::<H, K>()) =~= with_lot(
        b,
        price,
        Lot { id: k, quantity },
    ));
}

/// Stages that were in step stay in step when each takes what it can from the
/// other side.
proof fn lemma_tied_taken<H, K>(
    a: Stage<H>,
    b: Stage<K>,
    bids: Levels<(H, K)>,
    asks: Levels<(H, K)>,
    side: Side,
    limit: Option<u64>,
    qty: u64,
)
    requires
        tied(a, b, bids, asks),
        a.depth.valid(),
        b.depth.valid(),
    ensures
        ({
            let s = a.depth.taking(side, limit, qty);
            let t = b.depth.taking(side, limit, qty);
            let u = sweep(
                side.other(),
                if side is Bid {
                    asks
                } else {
                    bids
                },
                limit,
                qty,
            );
            let a2 = Stage { depth: a.depth.taken(side, limit, qty), ..a };
            let b2 = Stage { depth: b.depth.taken(side, limit, qty), ..b };
            &&& s.left == t.left
            &&& s.spent == t.spent
            &&& twins(s.fills, t.fills, u.fills)
            &&& of_orders(bids, asks, u.fills)
            &&& tied(
                a2,
                b2,
                if side is Bid {
                    bids
                } else {
                    u.levels
                },
                if side is Bid {
                    u.levels
                } else {
                    asks
                },
            )
        }),
{
    let z = if side is Bid {
        asks
    } else {
        bids
    };
    lemma_paired_sweep(
        side.other(),
        a.depth.on(side.other()),
        b.depth.on(side.other()),
        z,
        limit,
        qty,
    );
}

/// The same sweep does the same to two books that are in step: it leaves the
/// same quantity over, fills the same orders, and keeps them in step.
pub proof fn law_sweeps_agree<H, K>(
    a: Stage<H>,
    b: Stage<K>,
    side: Side,
    limit: Option<u64>,
    qty: u64,
)
    requires
        in_step(a, b),
        a.depth.valid(),
        b.depth.valid(),
    ensures
        a.depth.taking(side, limit, qty).left == b.depth.taking(side, limit, qty).left,
        same_fills(
            a,
            b,
            a.depth.taking(side, limit, qty).fills,
            b.depth.taking(side, limit, qty).fills,
        ),
        in_step(
            (Stage { depth: a.depth.taken(side, limit, qty), ..a }),
            (Stage { depth: b.depth.taken(side, limit, qty), ..b }),
        ),
{
    let (bids, asks) = choose|bids: Levels<(H, K)>, asks: Levels<(H, K)>| #[trigger]
        tied(a, b, bids, asks);
    lemma_tied_taken(a, b, bids, asks, side, limit, qty);
}

/// The two engines match alike: for books that are in step,
/// `orderbook_2::OrderBook::match_against` and
/// `orderbook_legacy::OrderBook::match_against_opposite` return the same and
/// fill the same orders in the same order, and leave the books in step.
pub proof fn law_matchers_agree<
    C: orderbook_2::FillConsumer + Default,
    D: orderbook_legacy::FillConsumer + Default,
>(
    a: orderbook_2::OrderBook<C>,
    b: orderbook_legacy::OrderBook<D>,
    a_handles: Map<u64, orderbook_2::OrderHandle>,
    b_handles: Map<u64, orderbook_legacy::OrderHandle>,
    side: Side,
    limit: Option<u64>,
    quantity: u64,
)
    requires
        OrderBookApi::wf(&a),
        OrderBookApi::wf(&b),
        in_step(
            (Stage { depth: a.depth(), handles: a_handles }),
            (Stage { depth: b.depth(), handles: b_handles }),
        ),
    ensures
        a@.taking(side, limit, quantity).left == b@.taking(side, limit, quantity).left,
        same_fills(
            (Stage { depth: a.depth(), handles: a_handles }),
            (Stage { depth: b.depth(), handles: b_handles }),
            a@.taking(side, limit, quantity).fills,
            b@.taking(side, limit, quantity).fills,
        ),
        in_step(
            (Stage { depth: a.depth().taken(side, limit, quantity), handles: a_handles }),
            (Stage { depth: b.depth().taken(side, limit, quantity), handles: b_handles }),
        ),
{
    let sa = Stage { depth: a.depth(), handles: a_handles };
    let sb = Stage { depth: b.depth(), handles: b_handles };
    a.lemma_valid();
    b.lemma_valid();
    assert(a@.taking(side, limit, quantity) == a.depth().taking(side, limit, quantity));
    assert(b@.taking(side, limit, quantity) == b.depth().taking(side, limit, quantity));
    law_sweeps_agree(sa, sb, side, limit, quantity);
}

/// The same limit order does the same to two books that are in step, as long as
/// neither refuses it: it fills the same orders, and rests in both or in
/// neither.
pub proof fn law_limit_orders_agree<H, K>(
    a: Stage<H>,
    b: Stage<K>,
    id: u64,
    side: Side,
    price: u64,
    qty: u64,
    ra: BookResult<Option<H>>,
    rb: BookResult<Option<K>>,
    a2: Stage<H>,
    b2: Stage<K>,
)
    requires
        in_step(a, b),
        a.depth.valid(),
        b.depth.valid(),
        a.limit(id, side, price, qty, ra, a2),
        b.limit(id, side, price, qty, rb, b2),
        ra is Ok,
        rb is Ok,
    ensures
        in_step(a2, b2),
        ra->Ok_0 is Some <==> rb->Ok_0 is Some,
        same_fills(
            a,
            b,
            a.depth.taking(side, Some(price), qty).fills,
            b.depth.taking(side, Some(price), qty).fills,
        ),
{
    let (bids, asks) = choose|bids: Levels<(H, K)>, asks: Levels<(H, K)>| #[trigger]
        tied(a, b, bids, asks);
    lemma_tied_taken(a, b, bids, asks, side, Some(price), qty);
    let s = a.depth.taking(side, Some(price), qty);
    let z = if side is Bid {
        asks
    } else {
        bids
    };
    let u = sweep(side.other(), z, Some(price), qty);
    let a1 = Stage { depth: a.depth.taken(side, Some(price), qty), ..a };
    let b1 = Stage { depth: b.depth.taken(side, Some(price), qty), ..b };
    let bids1 = if side is Bid {
        bids
    } else {
        u.levels
    };
    let asks1 = if side is Bid {
        u.levels
    } else {
        asks
    };
    assert(tied(a1, b1, bids1, asks1));
    if s.left == 0 {
        assert(a2 =~= a1);
        assert(b2 =~= b1);
        assert(tied(a2, b2, bids1, asks1));
    } else {
        let h = ra->Ok_0->Some_0;
        let k = rb->Ok_0->Some_0;
        let own = if side is Bid {
            bids1
        } else {
            asks1
        };
        let lot = Lot { id: (h, k), quantity: s.left };
        let more = with_lot(own, price, lot);
        lemma_paired_with_lot(
            a1.depth.on(side),
            b1.depth.on(side),
            own,
            price,
            h,
            k,
            s.left,
        );
        let bids2 = if side is Bid {
            more
        } else {
            bids1
        };
        let asks2 = if side is Bid {
            asks1
        } else {
            more
        };
        assert(a2.handles.dom() =~= b2.handles.dom());
        assert forall|x: (H, K)| holds(bids1, x) || holds(asks1, x) implies x.0 != h && x.1
            != k by {
            lemma_held_by_both(a1, b1, bids1, asks1, x);
        }
        assert forall|i: u64, x: (H, K)|
            a2.handles.contains_key(i) && (holds(bids2, x) || holds(asks2, x)) implies (x.0
            == a2.handles[i] <==> x.1 == b2.handles[i]) by {
            lemma_holds_with_lot(own, price, lot, x);
            if x == (h, k) {
                if i != id {
                    assert(a.handles.contains_key(i) && b.handles.contains_key(i));
                }
            } else {
                assert(holds(bids1, x) || holds(asks1, x));
                if i != id {
                    assert(a1.handles.contains_key(i));
                }
            }
        }
        assert(tied(a2, b2, bids2, asks2));
    }
}

/// An order that has two names rests under both.
proof fn lemma_held_by_both<H, K>(
    a: Stage<H>,
    b: Stage<K>,
    bids: Levels<(H, K)>,
    asks: Levels<(H, K)>,
    x: (H, K),
)
    requires
        tied(a, b, bids, asks),
        holds(bids, x) || holds(asks, x),
    ensures
        a.depth.has(x.0),
        b.depth.has(x.1),
        holds(bids, x) ==> holds(a.depth.bids, x.0) && holds(b.depth.bids, x.1),
        holds(asks, x) ==> holds(a.depth.asks, x.0) && holds(b.depth.asks, x.1),
{
    lemma_holds_renamed(bids, fst::<H, K>(), x.0);
    lemma_holds_renamed(bids, snd::<H, K>(), x.1);
    lemma_holds_renamed(asks, fst::<H, K>(), x.0);
    lemma_holds_renamed(asks, snd::<H, K>(), x.1);
}

/// The same market order does the same to two books that are in step: it fills
/// the same orders, or none where it is killed, and reports the same.
pub proof fn law_market_orders_agree<H, K>(
    a: Stage<H>,
    b: Stage<K>,
    side: Side,
    qty: u64,
    mode: MarketOrderMode,
    ra: BookResult<MarketOrderResult>,
    rb: BookResult<MarketOrderResult>,
    a2: Stage<H>,
    b2: Stage<K>,
)
    requires
        in_step(a, b),
        a.depth.valid(),
        b.depth.valid(),
        a2.handles == a.handles,
        b2.handles == b.handles,
        a.depth.market_step(side, qty, mode, ra, a2.depth),
        b.depth.market_step(side, qty, mode, rb, b2.depth),
    ensures
        in_step(a2, b2),
        ra == rb,
        same_fills(
            a,
            b,
            market_fills(a.depth, side, qty, mode),
            market_fills(b.depth, side, qty, mode),
        ),
{
    let (bids, asks) = choose|bids: Levels<(H, K)>, asks: Levels<(H, K)>| #[trigger]
        tied(a, b, bids, asks);
    let z = if side is Bid {
        asks
    } else {
        bids
    };
    lemma_paired(a.depth.on(side.other()), b.depth.on(side.other()), z);
    lemma_total_renamed(z, fst::<H, K>());
    lemma_total_renamed(z, snd::<H, K>());
    if mode == MarketOrderMode::FillOrKill && total(a.depth.on(side.other())) < qty {
        assert(tied(a2, b2, bids, asks));
        lemma_no_fills(a, b);
    } else {
        lemma_tied_taken(a, b, bids, asks, side, None, qty);
        let u = sweep(side.other(), z, None, qty);
        assert(a2 =~= (Stage { depth: a.depth.taken(side, None, qty), ..a }));
        assert(b2 =~= (Stage { depth: b.depth.taken(side, None, qty), ..b }));
        if side is Bid {
            assert(tied(a2, b2, bids, u.levels));
        } else {
            assert(tied(a2, b2, u.levels, asks));
        }
    }
}

/// Cancelling by the same id does the same to two books that are in step, and
/// finds the order in both or in neither.
pub proof fn law_cancels_agree<H, K>(
    a: Stage<H>,
    b: Stage<K>,
    id: u64,
    ra: BookResult<()>,
    rb: BookResult<()>,
    a2: Stage<H>,
    b2: Stage<K>,
)
    requires
        in_step(a, b),
        a.depth.valid(),
        b.depth.valid(),
        a.handles.contains_key(id),
        a2.handles == a.handles.remove(id),
        b2.handles == b.handles.remove(id),
        a.depth.cancel_step(a.handles[id], ra, a2.depth),
        b.depth.cancel_step(b.handles[id], rb, b2.depth),
    ensures
        in_step(a2, b2),
        ra is Ok <==> rb is Ok,
{
    let (bids, asks) = choose|bids: Levels<(H, K)>, asks: Levels<(H, K)>| #[trigger]
        tied(a, b, bids, asks);
    let h = a.handles[id];
    let k = b.handles[id];
    let x = (h, k);
    assert(a2.handles.dom() =~= b2.handles.dom());
    lemma_paired(a.depth.bids, b.depth.bids, bids);
    lemma_paired(a.depth.asks, b.depth.asks, asks);
    lemma_held_twins(a.depth.bids, b.depth.bids, bids, h, k);
    lemma_held_twins(a.depth.asks, b.depth.asks, asks, h, k);
    if a.depth.has(h) {
        let side = a.depth.half(h);
        assert(b.depth.half(k) == side);
        let z = if side is Bid {
            bids
        } else {
            asks
        };
        lemma_without_renamed(z, x, fst::<H, K>());
        lemma_without_renamed(z, x, snd::<H, K>());
        let fewer = without(z, x);
        assert forall|y: (H, K)| #[trigger] holds(fewer, y) implies holds(z, y) by {
            lemma_holds_without(z, x, y);
        }
        if side is Bid {
            assert(tied(a2, b2, fewer, asks));
        } else {
            assert(tied(a2, b2, bids, fewer));
        }
    } else {
        assert(tied(a2, b2, bids, asks));
    }
}

/// Two names that belong together rest on both sides, as one order, or on
/// neither.
proof fn lemma_held_twins<H, K>(a: Levels<H>, b: Levels<K>, z: Levels<(H, K)>, h: H, k: K)
    requires
        paired(a, b, z),
        forall|x: (H, K)| #[trigger] holds(z, x) ==> (x.0 == h <==> x.1 == k),
    ensures
        holds(a, h) <==> holds(z, (h, k)),
        holds(b, k) <==> holds(z, (h, k)),
{
    lemma_holds_renamed(z, fst::<H, K>(), h);
    lemma_holds_renamed(z, snd::<H, K>(), k);
    if holds(a, h) {
        let x = choose|x: (H, K)| #[trigger] holds(z, x) && x.0 == h;
        assert(x == (h, k));
    }
    if holds(b, k) {
        let x = choose|x: (H, K)| #[trigger] holds(z, x) && x.1 == k;
        assert(x == (h, k));
    }
}

/// Applying `op` turns `pre` into `post`, and a limit order is not refused.
pub open spec fn accepted<H>(pre: Stage<H>, op: Op, post: Stage<H>) -> bool {
    match op {
        Op::Limit { id, side, price, qty } => exists|h: Option<H>| #[trigger]
            pre.limit(id, side, price.0, qty, Ok(h), post),
        _ => pre.step(op, post),
    }
}

/// The same operation does the same to two books that are in step, as long as
/// neither refuses it.
pub proof fn law_steps_agree<H, K>(
    a: Stage<H>,
    b: Stage<K>,
    op: Op,
    a2: Stage<H>,
    b2: Stage<K>,
)
    requires
        in_step(a, b),
        a.depth.valid(),
        b.depth.valid(),
        accepted(a, op, a2),
        accepted(b, op, b2),
    ensures
        in_step(a2, b2),
        same_fills(a, b, fills_of(a.depth, op), fills_of(b.depth, op)),
{
    match op {
        Op::Limit { id, side, price, qty } => {
            let h = choose|h: Option<H>| #[trigger] a.limit(id, side, price.0, qty, Ok(h), a2);
            let k = choose|k: Option<K>| #[trigger] b.limit(id, side, price.0, qty, Ok(k), b2);
            law_limit_orders_agree(a, b, id, side, price.0, qty, Ok(h), Ok(k), a2, b2);
        },
        Op::Cancel { id } => {
            let (bids, asks) = choose|bids: Levels<(H, K)>, asks: Levels<(H, K)>| #[trigger]
                tied(a, b, bids, asks);
            assert(a.handles.dom().contains(id) <==> b.handles.dom().contains(id));
            if a.handles.contains_key(id) {
                let ra = choose|r: BookResult<()>| #[trigger]
                    a.depth.cancel_step(a.handles[id], r, a2.depth);
                let rb = choose|r: BookResult<()>| #[trigger]
                    b.depth.cancel_step(b.handles[id], r, b2.depth);
                law_cancels_agree(a, b, id, ra, rb, a2, b2);
            }
            lemma_no_fills(a, b);
        },
        Op::Market { side, qty, mode } => {
            let ra = choose|r: BookResult<MarketOrderResult>| #[trigger]
                a.depth.market_step(side, qty, mode, r, a2.depth);
            let rb = choose|r: BookResult<MarketOrderResult>| #[trigger]
                b.depth.market_step(side, qty, mode, r, b2.depth);
            law_market_orders_agree(a, b, side, qty, mode, ra, rb, a2, b2);
        },
    }
}

/// `states` are the stages gone through while `ops` are applied in order and
/// none is refused.
pub open spec fn accepted_through<H>(states: Seq<Stage<H>>, ops: Seq<Op>) -> bool {
    &&& states.len() == ops.len() + 1
    &&& forall|i: int| 0 <= i < states.len() ==> (#[trigger] states[i]).depth.valid()
    &&& forall|i: int|
        0 <= i < ops.len() ==> accepted(states[i], #[trigger] ops[i], states[i + 1])
}

/// Engines are interchangeable: two books that are in step stay in step through
/// any stream of operations of which neither refuses one, and each operation
/// fills the same orders in both.
pub proof fn law_runs_agree<H, K>(sa: Seq<Stage<H>>, sb: Seq<Stage<K>>, ops: Seq<Op>)
    requires
        accepted_through(sa, ops),
        accepted_through(sb, ops),
        in_step(sa[0], sb[0]),
    ensures
        forall|i: int| 0 <= i <= ops.len() ==> in_step(#[trigger] sa[i], sb[i]),
        forall|i: int|
            0 <= i < ops.len() ==> same_fills(
                sa[i],
                sb[i],
                fills_of(sa[i].depth, #[trigger] ops[i]),
                fills_of(sb[i].depth, ops[i]),
            ),
{
    assert forall|i: int| 0 <= i <= ops.len() implies in_step(#[trigger] sa[i], sb[i]) by {
        lemma_runs(sa, sb, ops, i as nat);
    }
    assert forall|i: int| 0 <= i < ops.len() implies same_fills(
        sa[i],
        sb[i],
        fills_of(sa[i].depth, #[trigger] ops[i]),
        fills_of(sb[i].depth, ops[i]),
    ) by {
        lemma_runs(sa, sb, ops, i as nat);
        assert(accepted(sa[i], ops[i], sa[i + 1]) && accepted(sb[i], ops[i], sb[i + 1]));
        assert(sa[i].depth.valid() && sb[i].depth.valid());
        law_steps_agree(sa[i], sb[i], ops[i], sa[i + 1], sb[i + 1]);
    }
}

/// How two runs stand after the first `n` operations.
proof fn lemma_runs<H, K>(sa: Seq<Stage<H>>, sb: Seq<Stage<K>>, ops: Seq<Op>, n: nat)
    requires
        accepted_through(sa, ops),
        accepted_through(sb, ops),
        in_step(sa[0], sb[0]),
        n <= ops.len(),
    ensures
        in_step(sa[n as int], sb[n as int]),
    decreases n,
{
    if n > 0 {
        let i = n - 1;
        lemma_runs(sa, sb, ops, i as nat);
        assert(accepted(sa[i], ops[i], sa[i + 1]) && accepted(sb[i], ops[i], sb[i + 1]));
        assert(sa[i].depth.valid() && sb[i].depth.valid());
        law_steps_agree(sa[i], sb[i], ops[i], sa[i + 1], sb[i + 1]);
    }
}

/// An operation takes up room for one more order at most, and is not refused
/// where there is room.
proof fn lemma_room<H>(a: Stage<H>, op: Op, a2: Stage<H>, side: Side)
    requires
        a.step(op, a2),
    ensures
        a2.depth.room(side) + 1 >= a.depth.room(side),
        a.depth.bid_room > 0 && a.depth.ask_room > 0 ==> accepted(a, op, a2),
{
    match op {
        Op::Limit { id, side: own, price, qty } => {
            let r = choose|r: BookResult<Option<H>>| #[trigger]
                a.limit(id, own, price.0, qty, r, a2);
            assert(a.limit(id, own, price.0, qty, r, a2));
            if let Ok(h) = r {
                assert(a.limit(id, own, price.0, qty, Ok(h), a2));
            }
        },
        Op::Cancel { id } => {},
        Op::Market { side: own, qty, mode } => {
            let r = choose|r: BookResult<MarketOrderResult>| #[trigger]
                a.depth.market_step(own, qty, mode, r, a2.depth);
            assert(a.depth.market_step(own, qty, mode, r, a2.depth));
        },
    }
}

/// A book that has room for as many orders as there are operations refuses none
/// of them.
pub proof fn law_room_is_enough<H>(states: Seq<Stage<H>>, ops: Seq<Op>)
    requires
        steps_through(states, ops),
        forall|side: Side| #[trigger] states[0].depth.room(side) >= ops.len(),
    ensures
        accepted_through(states, ops),
{
    assert forall|i: int| 0 <= i < ops.len() implies accepted(
        states[i],
        #[trigger] ops[i],
        states[i + 1],
    ) by {
        lemma_room_left(states, ops, i as nat, Side::Bid);
        lemma_room_left(states, ops, i as nat, Side::Ask);
        assert(states[i].step(ops[i], states[i + 1]));
        lemma_room(states[i], ops[i], states[i + 1], Side::Bid);
    }
}

/// The room that is left after the first `n` operations.
proof fn lemma_room_left<H>(states: Seq<Stage<H>>, ops: Seq<Op>, n: nat, side: Side)
    requires
        steps_through(states, ops),
        n <= ops.len(),
    ensures
        states[n as int].depth.room(side) + n >= states[0].depth.room(side),
    decreases n,
{
    if n > 0 {
        let i = n - 1;
        lemma_room_left(states, ops, i as nat, side);
        assert(states[i].step(ops[i], states[i + 1]));
        lemma_room(states[i], ops[i], states[i + 1], side);
    }
}

/// Engines are interchangeable: two books that are in step and have room for as
/// many orders as there are operations end up in step, whatever the operations.
pub proof fn law_runs_with_room_agree<H, K>(
    a: Stage<H>,
    b: Stage<K>,
    ops: Seq<Op>,
    a2: Stage<H>,
    b2: Stage<K>,
)
    requires
        in_step(a, b),
        forall|side: Side| #[trigger] a.depth.room(side) >= ops.len(),
        forall|side: Side| #[trigger] b.depth.room(side) >= ops.len(),
        played(a, ops, a2),
        played(b, ops, b2),
    ensures
        in_step(a2, b2),
{
    let sa = choose|states: Seq<Stage<H>>| #[trigger]
        steps_through(states, ops) && states[0] == a && states[ops.len() as int] == a2;
    let sb = choose|states: Seq<Stage<K>>| #[trigger]
        steps_through(states, ops) && states[0] == b && states[ops.len() as int] == b2;
    assert(steps_through(sa, ops) && sa[0] == a && sa[ops.len() as int] == a2);
    assert(steps_through(sb, ops) && sb[0] == b && sb[ops.len() as int] == b2);
    law_room_is_enough(sa, ops);
    law_room_is_enough(sb, ops);
    lemma_runs(sa, sb, ops, ops.len());
}

} // verus!
