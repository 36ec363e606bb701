//! The mathematical book: what rests on one side, and what an aggressor takes
//! out of it.
//!
//! One side of a book is a map from price to the queue of lots resting there,
//! oldest first. The functions below never look inside a lot's id, so the same
//! definitions serve every engine, whatever it names its orders by.

use vstd::prelude::*;

use crate::types::Side;

verus! {

/// An order (or a fill of one): its id and a quantity.
#[verifier::ext_equal]
pub struct Lot<I> {
    pub id: I,
    pub quantity: u64,
}

/// What rests on one side: price to queue, oldest lot first.
pub type Levels<I> = Map<u64, Seq<Lot<I>>>;

/// `p` ranks strictly before `q` on `side`: bids rank from the highest price
/// down, asks from the lowest price up.
pub open spec fn better(side: Side, p: u64, q: u64) -> bool {
    match side {
        Side::Bid => p > q,
        Side::Ask => p < q,
    }
}

/// `p` is the best of `prices`.
pub open spec fn is_best(side: Side, prices: Set<u64>, p: u64) -> bool {
    &&& prices.contains(p)
    &&& forall|q: u64| #[trigger] prices.contains(q) ==> q == p || better(side, p, q)
}

/// The best of `prices`, if there is one.
pub open spec fn best(side: Side, prices: Set<u64>) -> Option<u64> {
    if exists|p: u64| is_best(side, prices, p) {
        Some(choose|p: u64| is_best(side, prices, p))
    } else {
        None
    }
}

/// An aggressor with price limit `limit` may trade with orders resting on
/// `side` at `price`. Without a limit every price is acceptable.
pub open spec fn crosses(side: Side, limit: Option<u64>, price: u64) -> bool {
    match limit {
        None => true,
        Some(l) => match side {
            Side::Ask => l >= price,
            Side::Bid => l <= price,
        },
    }
}

/// Total quantity of a queue.
pub open spec fn queue_total<I>(queue: Seq<Lot<I>>) -> nat
    decreases queue.len(),
{
    if queue.len() == 0 {
        0
    } else {
        queue[0].quantity as nat + queue_total(queue.drop_first())
    }
}

/// What taking a quantity out of one queue gives.
#[verifier::ext_equal]
pub struct Taken<I> {
    /// The fills, in the order they happen.
    pub fills: Seq<Lot<I>>,
    /// The queue that is left.
    pub rest: Seq<Lot<I>>,
    /// The quantity that found no lot.
    pub left: u64,
    /// How many lots were filled completely; these leave the queue.
    pub spent: nat,
}

/// Take `quantity` out of `queue`, from the front.
pub open spec fn take<I>(queue: Seq<Lot<I>>, quantity: u64) -> Taken<I>
    decreases queue.len(),
{
    if queue.len() == 0 || quantity == 0 {
        Taken { fills: Seq::empty(), rest: queue, left: quantity, spent: 0 }
    } else if queue[0].quantity <= quantity {
        let t = take(queue.drop_first(), (quantity - queue[0].quantity) as u64);
        Taken {
            fills: seq![queue[0]] + t.fills,
            rest: t.rest,
            left: t.left,
            spent: t.spent + 1,
        }
    } else {
        Taken {
            fills: seq![Lot { id: queue[0].id, quantity }],
            rest: queue.update(
                0,
                Lot { id: queue[0].id, quantity: (queue[0].quantity - quantity) as u64 },
            ),
            left: 0,
            spent: 0,
        }
    }
}

/// What an aggressor does to the side it trades against.
#[verifier::ext_equal]
pub struct Swept<I> {
    /// The fills, in the order they happen.
    pub fills: Seq<Lot<I>>,
    /// The side that is left.
    pub levels: Levels<I>,
    /// The quantity that found no acceptable lot.
    pub left: u64,
    /// How many lots were filled completely; these leave the book.
    pub spent: nat,
}

impl<I> Swept<I> {
    /// The ids of the lots that were filled completely, in order.
    pub open spec fn done(self) -> Seq<I> {
        Seq::new(self.spent, |i: int| self.fills[i].id)
    }
}

/// Take `quantity` out of the orders resting on `side`: best price first,
/// oldest first within a price, and no price beyond `limit`.
pub open spec fn sweep<I>(
    side: Side,
    levels: Levels<I>,
    limit: Option<u64>,
    quantity: u64,
) -> Swept<I>
    decreases levels.dom().len(),
    when levels.dom().finite()
{
    let nothing = Swept { fills: Seq::empty(), levels, left: quantity, spent: 0 };
    match best(side, levels.dom()) {
        None => nothing,
        Some(p) => if quantity == 0 || !crosses(side, limit, p) {
            nothing
        } else {
            let t = take(levels[p], quantity);
            if t.rest.len() == 0 {
                let s = sweep(side, levels.remove(p), limit, t.left);
                Swept {
                    fills: t.fills + s.fills,
                    levels: s.levels,
                    left: s.left,
                    spent: t.spent + s.spent,
                }
            } else {
                Swept {
                    fills: t.fills,
                    levels: levels.insert(p, t.rest),
                    left: t.left,
                    spent: t.spent,
                }
            }
        },
    }
}

/// Total quantity resting on one side.
pub open spec fn total<I>(levels: Levels<I>) -> nat
    decreases levels.dom().len(),
    when levels.dom().finite()
{
    if levels.dom() =~= Set::empty() {
        0
    } else {
        let p = levels.dom().choose();
        queue_total(levels[p]) + total(levels.remove(p))
    }
}

/// The total does not depend on the order in which levels are counted.
pub proof fn lemma_total_remove<I>(levels: Levels<I>, p: u64)
    requires
        levels.dom().finite(),
        levels.contains_key(p),
    ensures
        total(levels) == queue_total(levels[p]) + total(levels.remove(p)),
    decreases levels.dom().len(),
{
    let c = levels.dom().choose();
    assert(levels.dom().contains(p));
    assert(levels.dom().contains(c));
    if c != p {
        lemma_total_remove(levels.remove(c), p);
        lemma_total_remove(levels.remove(p), c);
        assert(levels.remove(c).remove(p) =~= levels.remove(p).remove(c));
    }
}

/// Two prices that are both best are the same price.
pub proof fn lemma_best_unique(side: Side, prices: Set<u64>, p: u64)
    requires
        is_best(side, prices, p),
    ensures
        best(side, prices) == Some(p),
{
    let b = choose|b: u64| is_best(side, prices, b);
    assert(is_best(side, prices, b));
    assert(prices.contains(b) && prices.contains(p));
}

/// A finite set of prices has a best one unless it is empty.
pub proof fn lemma_best_exists(side: Side, prices: Set<u64>)
    requires
        prices.finite(),
    ensures
        best(side, prices) is None <==> prices =~= Set::empty(),
        best(side, prices) matches Some(p) ==> is_best(side, prices, p),
    decreases prices.len(),
{
    if prices =~= Set::empty() {
        assert(forall|p: u64| !is_best(side, prices, p));
    } else {
        let p = prices.choose();
        let others = prices.remove(p);
        lemma_best_exists(side, others);
        match best(side, others) {
            None => {
                assert(is_best(side, prices, p)) by {
                    assert forall|q: u64| #[trigger] prices.contains(q) implies q == p by {
                        if q != p {
                            assert(others.contains(q));
                        }
                    }
                }
                lemma_best_unique(side, prices, p);
            },
            Some(b) => {
                let w = if better(side, p, b) {
                    p
                } else {
                    b
                };
                assert(is_best(side, prices, w)) by {
                    assert(others.contains(b));
                    assert forall|q: u64| #[trigger] prices.contains(q) implies q == w || better(
                        side,
                        w,
                        q,
                    ) by {
                        if q != p {
                            assert(others.contains(q));
                        }
                    }
                }
                lemma_best_unique(side, prices, w);
            },
        }
    }
}

/// What taking from a queue does to it: fills run through the queue from the
/// front, all of them complete except possibly the last.
pub proof fn lemma_take<I>(queue: Seq<Lot<I>>, quantity: u64)
    ensures
        ({
            let t = take(queue, quantity);
            &&& t.spent <= t.fills.len() <= t.spent + 1
            &&& t.fills.len() <= queue.len()
            &&& t.rest.len() == queue.len() - t.spent
            &&& t.left > 0 ==> t.rest.len() == 0
            &&& t.fills.len() > t.spent ==> t.rest.len() > 0 && t.left == 0
            &&& t.left <= quantity
            &&& forall|i: int|
                0 <= i < t.fills.len() ==> (#[trigger] t.fills[i]).id == queue[i].id
            &&& forall|i: int| 0 <= i < t.spent ==> #[trigger] t.fills[i] == queue[i]
        }),
    decreases queue.len(),
{
    if queue.len() == 0 || quantity == 0 {
    } else if queue[0].quantity <= quantity {
        let t = take(queue, quantity);
        let u = take(queue.drop_first(), (quantity - queue[0].quantity) as u64);
        lemma_take(queue.drop_first(), (quantity - queue[0].quantity) as u64);
        assert forall|i: int| 0 <= i < t.fills.len() implies (#[trigger] t.fills[i]).id
            == queue[i].id by {
            if i > 0 {
                assert(t.fills[i] == u.fills[i - 1]);
            }
        }
        assert forall|i: int| 0 <= i < t.spent implies #[trigger] t.fills[i] == queue[i] by {
            if i > 0 {
                assert(t.fills[i] == u.fills[i - 1]);
            }
        }
    }
}

/// A sweep takes what it can at the best price and goes on with what is left.
pub proof fn lemma_sweep_step<I>(
    side: Side,
    levels: Levels<I>,
    limit: Option<u64>,
    quantity: u64,
    p: u64,
)
    requires
        levels.dom().finite(),
        best(side, levels.dom()) == Some(p),
        levels.contains_key(p),
        crosses(side, limit, p),
        quantity > 0,
    ensures
        ({
            let t = take(levels[p], quantity);
            let next = if t.rest.len() == 0 {
                levels.remove(p)
            } else {
                levels.insert(p, t.rest)
            };
            let s = sweep(side, levels, limit, quantity);
            let u = sweep(side, next, limit, t.left);
            &&& s.fills == t.fills + u.fills
            &&& s.levels == u.levels
            &&& s.left == u.left
            &&& s.spent == t.spent + u.spent
        }),
{
    let t = take(levels[p], quantity);
    lemma_take(levels[p], quantity);
    if t.rest.len() > 0 {
        assert(t.fills + Seq::<Lot<I>>::empty() =~= t.fills);
    }
}

/// The lots of a queue under other names.
pub open spec fn rename<I, J>(queue: Seq<Lot<I>>, name: spec_fn(I) -> J) -> Seq<Lot<J>> {
    queue.map_values(|l: Lot<I>| Lot { id: name(l.id), quantity: l.quantity })
}

/// The lots of a side under other names.
pub open spec fn renamed<I, J>(levels: Levels<I>, name: spec_fn(I) -> J) -> Levels<J> {
    levels.map_values(|q: Seq<Lot<I>>| rename(q, name))
}

/// The lot named `id` rests at `price`, `i` lots from the front.
pub open spec fn rests_at<I>(levels: Levels<I>, price: u64, i: int, id: I) -> bool {
    levels.contains_key(price) && 0 <= i < levels[price].len() && levels[price][i].id == id
}

/// A lot named `id` rests on the side.
pub open spec fn holds<I>(levels: Levels<I>, id: I) -> bool {
    exists|price: u64, i: int| rests_at(levels, price, i, id)
}

/// No name is used twice on the side.
pub open spec fn distinct_ids<I>(levels: Levels<I>) -> bool {
    forall|p: u64, i: int, q: u64, j: int, id: I|
        #![trigger rests_at(levels, p, i, id), rests_at(levels, q, j, id)]
        rests_at(levels, p, i, id) && rests_at(levels, q, j, id) ==> p == q && i == j
}

/// The queue without the lots named `id`.
pub open spec fn strip<I>(queue: Seq<Lot<I>>, id: I) -> Seq<Lot<I>> {
    queue.filter(|l: Lot<I>| l.id != id)
}

/// The side without the lots named `id`; a level that becomes empty goes.
pub open spec fn without<I>(levels: Levels<I>, id: I) -> Levels<I> {
    Map::new(
        |p: u64| levels.contains_key(p) && strip(levels[p], id).len() > 0,
        |p: u64| strip(levels[p], id),
    )
}

/// The queue at `price`, empty if nothing rests there.
pub open spec fn lots_at<I>(levels: Levels<I>, price: u64) -> Seq<Lot<I>> {
    if levels.contains_key(price) {
        levels[price]
    } else {
        Seq::empty()
    }
}

/// The side with one more lot, at the back of the queue at `price`.
pub open spec fn with_lot<I>(levels: Levels<I>, price: u64, lot: Lot<I>) -> Levels<I> {
    levels.insert(price, lots_at(levels, price).push(lot))
}

/// Every bid is below every ask.
pub open spec fn uncrossed<I>(bids: Levels<I>, asks: Levels<I>) -> bool {
    forall|p: u64, q: u64| #[trigger]
        bids.contains_key(p) && #[trigger] asks.contains_key(q) ==> p < q
}

/// Taking from a queue does not look at names.
pub proof fn lemma_take_rename<I, J>(queue: Seq<Lot<I>>, quantity: u64, name: spec_fn(I) -> J)
    ensures
        ({
            let t = take(queue, quantity);
            let u = take(rename(queue, name), quantity);
            &&& u.fills == rename(t.fills, name)
            &&& u.rest == rename(t.rest, name)
            &&& u.left == t.left
            &&& u.spent == t.spent
        }),
    decreases queue.len(),
{
    let other = rename(queue, name);
    let t = take(queue, quantity);
    let u = take(other, quantity);
    if queue.len() == 0 || quantity == 0 {
        assert(rename(t.fills, name) =~= Seq::empty());
    } else if queue[0].quantity <= quantity {
        assert(other.drop_first() =~= rename(queue.drop_first(), name));
        lemma_take_rename(queue.drop_first(), (quantity - queue[0].quantity) as u64, name);
        assert(u.fills =~= rename(t.fills, name));
    } else {
        assert(u.fills =~= rename(t.fills, name));
        assert(u.rest =~= rename(t.rest, name));
    }
}

/// A sweep does not look at names: the same orders under other names trade in
/// the same way.
pub proof fn lemma_sweep_renamed<I, J>(
    side: Side,
    levels: Levels<I>,
    limit: Option<u64>,
    quantity: u64,
    name: spec_fn(I) -> J,
)
    requires
        levels.dom().finite(),
    ensures
        ({
            let s = sweep(side, levels, limit, quantity);
            let t = sweep(side, renamed(levels, name), limit, quantity);
            &&& t.fills == rename(s.fills, name)
            &&& t.levels == renamed(s.levels, name)
            &&& t.left == s.left
            &&& t.spent == s.spent
        }),
    decreases levels.dom().len(),
{
    let other = renamed(levels, name);
    assert(other.dom() =~= levels.dom());
    let s = sweep(side, levels, limit, quantity);
    let t = sweep(side, other, limit, quantity);
    lemma_best_exists(side, levels.dom());
    match best(side, levels.dom()) {
        None => {
            assert(rename(s.fills, name) =~= Seq::empty());
        },
        Some(p) => {
            if quantity == 0 || !crosses(side, limit, p) {
                assert(rename(s.fills, name) =~= Seq::empty());
            } else {
                lemma_take_rename(levels[p], quantity, name);
                let taken = take(levels[p], quantity);
                if taken.rest.len() == 0 {
                    assert(other.remove(p) =~= renamed(levels.remove(p), name));
                    lemma_sweep_renamed(side, levels.remove(p), limit, taken.left, name);
                    assert(t.fills =~= rename(s.fills, name));
                } else {
                    assert(t.levels =~= renamed(s.levels, name));
                }
            }
        },
    }
}

/// Taking out the only lot named `id`.
pub proof fn lemma_strip<I>(queue: Seq<Lot<I>>, pos: int, id: I)
    requires
        0 <= pos < queue.len(),
        queue[pos].id == id,
        forall|i: int| 0 <= i < queue.len() && i != pos ==> (#[trigger] queue[i]).id != id,
    ensures
        strip(queue, id) == queue.remove(pos),
    decreases queue.len(),
{
    reveal(Seq::filter);
    let front = queue.drop_last();
    if pos == queue.len() - 1 {
        lemma_strip_none(front, id);
        assert(queue.remove(pos) =~= front);
    } else {
        assert forall|i: int| 0 <= i < front.len() && i != pos implies (#[trigger] front[i]).id
            != id by {
            assert(front[i] == queue[i]);
        }
        lemma_strip(front, pos, id);
        assert(queue[queue.len() - 1].id != id);
        assert(queue.remove(pos) =~= front.remove(pos).push(queue.last()));
    }
}

/// Taking out a lot that is not there.
pub proof fn lemma_strip_none<I>(queue: Seq<Lot<I>>, id: I)
    requires
        forall|i: int| 0 <= i < queue.len() ==> (#[trigger] queue[i]).id != id,
    ensures
        strip(queue, id) == queue,
    decreases queue.len(),
{
    reveal(Seq::filter);
    if queue.len() > 0 {
        let front = queue.drop_last();
        assert forall|i: int| 0 <= i < front.len() implies (#[trigger] front[i]).id != id by {
            assert(front[i] == queue[i]);
        }
        lemma_strip_none(front, id);
        assert(queue[queue.len() - 1].id != id);
        assert(queue =~= front.push(queue.last()));
    }
}

/// Taking the lot at one place out of a side on which no name is used twice.
pub proof fn lemma_without<I>(levels: Levels<I>, price: u64, pos: int, id: I)
    requires
        rests_at(levels, price, pos, id),
        distinct_ids(levels),
        forall|p: u64| #[trigger] levels.contains_key(p) ==> levels[p].len() > 0,
    ensures
        without(levels, id) == if levels[price].len() == 1 {
            levels.remove(price)
        } else {
            levels.insert(price, levels[price].remove(pos))
        },
{
    assert forall|p: u64| #[trigger] levels.contains_key(p) && p != price implies strip(
        levels[p],
        id,
    ) == levels[p] by {
        assert forall|i: int| 0 <= i < levels[p].len() implies (#[trigger] levels[p][i]).id
            != id by {
            if levels[p][i].id == id {
                assert(rests_at(levels, p, i, id));
            }
        }
        lemma_strip_none(levels[p], id);
    }
    let queue = levels[price];
    assert forall|i: int| 0 <= i < queue.len() && i != pos implies (#[trigger] queue[i]).id
        != id by {
        if queue[i].id == id {
            assert(rests_at(levels, price, i, id));
        }
    }
    lemma_strip(queue, pos, id);
    let want = if queue.len() == 1 {
        levels.remove(price)
    } else {
        levels.insert(price, queue.remove(pos))
    };
    assert(without(levels, id) =~= want);
}

/// Taking a lot out commutes with renaming, as long as no two lots get the same
/// name.
pub proof fn lemma_without_renamed<I, J>(levels: Levels<I>, id: I, name: spec_fn(I) -> J)
    requires
        holds(levels, id),
        distinct_ids(levels),
        forall|p: u64| #[trigger] levels.contains_key(p) ==> levels[p].len() > 0,
        forall|a: I, b: I|
            #![trigger holds(levels, a), holds(levels, b)]
            holds(levels, a) && holds(levels, b) && name(a) == name(b) ==> a == b,
    ensures
        without(renamed(levels, name), name(id)) == renamed(without(levels, id), name),
{
    let (price, pos) = choose|price: u64, pos: int| rests_at(levels, price, pos, id);
    assert(rests_at(levels, price, pos, id));
    let other = renamed(levels, name);
    assert(rests_at(other, price, pos, name(id)));
    lemma_distinct_renamed(levels, name);
    lemma_without(levels, price, pos, id);
    lemma_without(other, price, pos, name(id));
    assert(rename(levels[price].remove(pos), name) =~= other[price].remove(pos));
    assert(without(other, name(id)) =~= renamed(without(levels, id), name));
}

/// Names that differ make a side on which no name is used twice.
pub proof fn lemma_distinct_renamed<I, J>(levels: Levels<I>, name: spec_fn(I) -> J)
    requires
        distinct_ids(levels),
        forall|a: I, b: I|
            #![trigger holds(levels, a), holds(levels, b)]
            holds(levels, a) && holds(levels, b) && name(a) == name(b) ==> a == b,
    ensures
        distinct_ids(renamed(levels, name)),
{
    let other = renamed(levels, name);
    assert forall|p: u64, i: int, q: u64, j: int, id: J|
        #![trigger rests_at(other, p, i, id), rests_at(other, q, j, id)]
        rests_at(other, p, i, id) && rests_at(other, q, j, id) implies p == q && i == j by {
        let a = levels[p][i].id;
        let b = levels[q][j].id;
        assert(rests_at(levels, p, i, a));
        assert(rests_at(levels, q, j, b));
        assert(holds(levels, a) && holds(levels, b));
    }
}

/// A lot rests under its new name.
pub proof fn lemma_holds_renamed<I, J>(levels: Levels<I>, name: spec_fn(I) -> J, id: J)
    ensures
        holds(renamed(levels, name), id) <==> exists|a: I| #[trigger]
            holds(levels, a) && name(a) == id,
{
    let other = renamed(levels, name);
    if holds(other, id) {
        let (p, i) = choose|p: u64, i: int| rests_at(other, p, i, id);
        let a = levels[p][i].id;
        assert(rests_at(levels, p, i, a));
        assert(holds(levels, a));
    }
    if exists|a: I| #[trigger] holds(levels, a) && name(a) == id {
        let a = choose|a: I| #[trigger] holds(levels, a) && name(a) == id;
        let (p, i) = choose|p: u64, i: int| rests_at(levels, p, i, a);
        assert(rests_at(levels, p, i, a));
        assert(rests_at(other, p, i, id));
    }
}

/// Names that agree on the lots of a side rename it in the same way.
pub proof fn lemma_renamed_frame<I, J>(
    levels: Levels<I>,
    name: spec_fn(I) -> J,
    other: spec_fn(I) -> J,
)
    requires
        forall|a: I| #[trigger] holds(levels, a) ==> name(a) == other(a),
    ensures
        renamed(levels, name) == renamed(levels, other),
{
    assert forall|p: u64| #[trigger] levels.contains_key(p) implies rename(levels[p], name)
        == rename(levels[p], other) by {
        assert forall|i: int| 0 <= i < levels[p].len() implies #[trigger] rename(
            levels[p],
            name,
        )[i] == rename(levels[p], other)[i] by {
            assert(rests_at(levels, p, i, levels[p][i].id));
            assert(holds(levels, levels[p][i].id));
        }
        assert(rename(levels[p], name) =~= rename(levels[p], other));
    }
    assert(renamed(levels, name) =~= renamed(levels, other));
}

/// A queue's total does not depend on names.
pub proof fn lemma_queue_total_rename<I, J>(queue: Seq<Lot<I>>, name: spec_fn(I) -> J)
    ensures
        queue_total(rename(queue, name)) == queue_total(queue),
    decreases queue.len(),
{
    if queue.len() > 0 {
        lemma_queue_total_rename(queue.drop_first(), name);
        assert(rename(queue, name).drop_first() =~= rename(queue.drop_first(), name));
    }
}

/// A side's total does not depend on names.
pub proof fn lemma_total_renamed<I, J>(levels: Levels<I>, name: spec_fn(I) -> J)
    requires
        levels.dom().finite(),
    ensures
        total(renamed(levels, name)) == total(levels),
    decreases levels.dom().len(),
{
    let other = renamed(levels, name);
    assert(other.dom() =~= levels.dom());
    if !(levels.dom() =~= Set::empty()) {
        let p = levels.dom().choose();
        assert(levels.dom().contains(p));
        lemma_queue_total_rename(levels[p], name);
        assert(other.remove(p) =~= renamed(levels.remove(p), name));
        lemma_total_renamed(levels.remove(p), name);
    }
}

/// What a sweep leaves behind: nothing is added, every level keeps some lots,
/// and if quantity is left over then no price is acceptable any more.
pub proof fn lemma_sweep_leaves<I>(
    side: Side,
    levels: Levels<I>,
    limit: Option<u64>,
    quantity: u64,
)
    requires
        levels.dom().finite(),
    ensures
        ({
            let s = sweep(side, levels, limit, quantity);
            &&& s.levels.dom().finite()
            &&& s.levels.dom().subset_of(levels.dom())
            &&& s.left > 0 ==> forall|p: u64| #[trigger]
                s.levels.contains_key(p) ==> !crosses(side, limit, p)
            &&& s.spent <= s.fills.len()
            &&& s.left <= quantity
        }),
    decreases levels.dom().len(),
{
    let s = sweep(side, levels, limit, quantity);
    lemma_best_exists(side, levels.dom());
    match best(side, levels.dom()) {
        None => {},
        Some(p) => {
            if quantity == 0 {
            } else if !crosses(side, limit, p) {
                assert forall|q: u64| #[trigger] s.levels.contains_key(q) implies !crosses(
                    side,
                    limit,
                    q,
                ) by {
                    assert(levels.dom().contains(q));
                }
            } else {
                lemma_take(levels[p], quantity);
                let t = take(levels[p], quantity);
                if t.rest.len() == 0 {
                    lemma_sweep_leaves(side, levels.remove(p), limit, t.left);
                }
            }
        },
    }
}

/// A lot that rests after a sweep rested before it.
pub proof fn lemma_swept_held<I>(
    side: Side,
    levels: Levels<I>,
    limit: Option<u64>,
    quantity: u64,
    id: I,
)
    requires
        levels.dom().finite(),
        holds(sweep(side, levels, limit, quantity).levels, id),
    ensures
        holds(levels, id),
    decreases levels.dom().len(),
{
    let s = sweep(side, levels, limit, quantity);
    lemma_best_exists(side, levels.dom());
    if let Some(p) = best(side, levels.dom()) {
        if quantity > 0 && crosses(side, limit, p) {
            let t = take(levels[p], quantity);
            lemma_take_rest(levels[p], quantity);
            let (q, i) = if t.rest.len() == 0 {
                lemma_swept_held(side, levels.remove(p), limit, t.left, id);
                choose|q: u64, i: int| rests_at(levels.remove(p), q, i, id)
            } else {
                let (q, i) = choose|q: u64, i: int| rests_at(s.levels, q, i, id);
                (
                    q,
                    if q == p {
                        i + t.spent
                    } else {
                        i
                    },
                )
            };
            assert(rests_at(levels, q, i, id));
        }
    }
}

/// What is left of a queue is its back, under the same names.
pub proof fn lemma_take_rest<I>(queue: Seq<Lot<I>>, quantity: u64)
    ensures
        ({
            let t = take(queue, quantity);
            &&& t.rest.len() + t.spent == queue.len()
            &&& forall|i: int|
                0 <= i < t.rest.len() ==> (#[trigger] t.rest[i]).id == queue[i + t.spent].id
        }),
    decreases queue.len(),
{
    if queue.len() == 0 || quantity == 0 {
    } else if queue[0].quantity <= quantity {
        lemma_take_rest(queue.drop_first(), (quantity - queue[0].quantity) as u64);
    }
}

/// What rests on a side with one more lot.
pub proof fn lemma_holds_with_lot<I>(levels: Levels<I>, price: u64, lot: Lot<I>, id: I)
    ensures
        holds(with_lot(levels, price, lot), id) <==> holds(levels, id) || id == lot.id,
{
    let more = with_lot(levels, price, lot);
    let queue = lots_at(levels, price);
    if holds(more, id) {
        let (p, i) = choose|p: u64, i: int| rests_at(more, p, i, id);
        if p != price || i < queue.len() {
            assert(rests_at(levels, p, i, id));
        }
    }
    if holds(levels, id) {
        let (p, i) = choose|p: u64, i: int| rests_at(levels, p, i, id);
        assert(rests_at(more, p, i, id));
    }
    if id == lot.id {
        assert(rests_at(more, price, queue.len() as int, id));
    }
}

/// What rests on a side without a lot.
pub proof fn lemma_holds_without<I>(levels: Levels<I>, gone: I, id: I)
    ensures
        holds(without(levels, gone), id) <==> holds(levels, id) && id != gone,
{
    broadcast use vstd::seq_lib::group_filter_ensures;

    let fewer = without(levels, gone);
    let keep = |l: Lot<I>| l.id != gone;
    if holds(fewer, id) {
        let (p, i) = choose|p: u64, i: int| rests_at(fewer, p, i, id);
        levels[p].lemma_filter_contains_rev(keep, fewer[p][i]);
        let j = levels[p].index_of(fewer[p][i]);
        assert(rests_at(levels, p, j, id));
        assert(keep(fewer[p][i]));
    }
    if holds(levels, id) && id != gone {
        let (p, i) = choose|p: u64, i: int| rests_at(levels, p, i, id);
        assert(keep(levels[p][i]));
        assert(strip(levels[p], gone).contains(levels[p][i]));
        let j = strip(levels[p], gone).index_of(levels[p][i]);
        assert(rests_at(fewer, p, j, id));
    }
}

/// What rests on one side of a book that is in order: no name is used twice,
/// every level has lots, every lot has some quantity, and the quantity of a
/// level can be counted in 64 bits.
pub open spec fn sound<I>(levels: Levels<I>) -> bool {
    &&& levels.dom().finite()
    &&& distinct_ids(levels)
    &&& forall|p: u64| #[trigger]
        levels.contains_key(p) ==> levels[p].len() > 0 && queue_total(levels[p]) <= u64::MAX
    &&& forall|p: u64, i: int|
        levels.contains_key(p) && 0 <= i < levels[p].len() ==> (#[trigger] levels[p][i]).quantity
            > 0
}

/// Names that differ keep a side in order.
pub proof fn lemma_sound_renamed<I, J>(levels: Levels<I>, name: spec_fn(I) -> J)
    requires
        sound(levels),
        forall|a: I, b: I|
            #![trigger holds(levels, a), holds(levels, b)]
            holds(levels, a) && holds(levels, b) && name(a) == name(b) ==> a == b,
    ensures
        sound(renamed(levels, name)),
{
    let other = renamed(levels, name);
    assert(other.dom() =~= levels.dom());
    lemma_distinct_renamed(levels, name);
    assert forall|p: u64| #[trigger] other.contains_key(p) implies other[p].len() > 0
        && queue_total(other[p]) <= u64::MAX by {
        assert(levels.contains_key(p));
        lemma_queue_total_rename(levels[p], name);
    }
    assert forall|p: u64, i: int|
        other.contains_key(p) && 0 <= i < other[p].len() implies (#[trigger] other[p][i]).quantity
        > 0 by {
        assert(other[p][i].quantity == levels[p][i].quantity);
    }
}

} // verus!
