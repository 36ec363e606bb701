//! What a sweep comes to, told in prices and places in a queue.

use vstd::prelude::*;

use crate::laws::{law_quantity_is_conserved, lemma_queue_total_concat};
use crate::model::{
    best, crosses, distinct_ids, holds, lemma_best_exists, lemma_sweep_leaves, lemma_take,
    lemma_take_rest, lemma_total_remove, lots_at, queue_total, rests_at, sound, sweep, take, total,
    with_lot, Levels, Lot,
};
use crate::types::Side;

verus! {

/// The sum of some quantities.
pub open spec fn tally(quantities: Seq<u64>) -> nat
    decreases quantities.len(),
{
    if quantities.len() == 0 {
        0
    } else {
        tally(quantities.drop_last()) + quantities.last() as nat
    }
}

/// The sum of some quantities and then some more.
pub proof fn lemma_tally_concat(a: Seq<u64>, b: Seq<u64>)
    ensures
        tally(a + b) == tally(a) + tally(b),
    decreases b.len(),
{
    if b.len() == 0 {
        assert(a + b =~= a);
    } else {
        lemma_tally_concat(a, b.drop_last());
        assert((a + b).drop_last() =~= a + b.drop_last());
    }
}

/// A queue holds the sum of the quantities of its lots.
pub proof fn lemma_tally<I>(queue: Seq<Lot<I>>)
    ensures
        tally(queue.map_values(|l: Lot<I>| l.quantity)) == queue_total(queue),
    decreases queue.len(),
{
    let quantities = queue.map_values(|l: Lot<I>| l.quantity);
    if queue.len() > 0 {
        let rest = queue.drop_first();
        lemma_tally(rest);
        let others = rest.map_values(|l: Lot<I>| l.quantity);
        assert(quantities =~= seq![queue[0].quantity] + others);
        lemma_tally_concat(seq![queue[0].quantity], others);
        assert(seq![queue[0].quantity].drop_last() =~= Seq::<u64>::empty());
        assert(tally(seq![queue[0].quantity]) == queue[0].quantity) by {
            assert(tally(seq![queue[0].quantity].drop_last()) == 0);
        }
    }
}

/// What rests on a side is counted in full: nothing rests on an empty side, each
/// level adds what its queue holds, and each lot of a queue adds its quantity.
pub proof fn law_every_lot_counts<I>(levels: Levels<I>, price: u64, queue: Seq<Lot<I>>, lot: Lot<I>)
    requires
        levels.dom().finite(),
        !levels.contains_key(price),
    ensures
        total(Levels::<I>::empty()) == 0,
        total(levels.insert(price, queue)) == total(levels) + queue_total(queue),
        queue_total(Seq::<Lot<I>>::empty()) == 0,
        queue_total(queue.push(lot)) == queue_total(queue) + lot.quantity,
{
    let more = levels.insert(price, queue);
    lemma_total_remove(more, price);
    assert(more.remove(price) =~= levels);
    lemma_queue_total_concat(queue, seq![lot]);
    assert(queue.push(lot) =~= queue + seq![lot]);
    assert(seq![lot].drop_first() =~= Seq::empty());
    assert(queue_total(seq![lot].drop_first()) == 0);
}

/// The fill at position `i` is one of the order that stands at `at[i]`, a price
/// and a place in its queue, and that price is within the limit.
pub open spec fn placed<I>(
    side: Side,
    levels: Levels<I>,
    limit: Option<u64>,
    fills: Seq<Lot<I>>,
    at: Seq<(u64, int)>,
    i: int,
) -> bool {
    let (p, j) = at[i];
    &&& levels.contains_key(p)
    &&& 0 <= j < levels[p].len()
    &&& levels[p][j].id == fills[i].id
    &&& 0 < fills[i].quantity <= levels[p][j].quantity
    &&& i < fills.len() - 1 ==> fills[i].quantity == levels[p][j].quantity
    &&& limit matches Some(l) ==> match side {
        Side::Ask => p <= l,
        Side::Bid => p >= l,
    }
}

/// On `side`, the place `a` is served before the place `b`.
pub open spec fn ahead(side: Side, a: (u64, int), b: (u64, int)) -> bool {
    ||| a.0 == b.0 && a.1 < b.1
    ||| match side {
        Side::Ask => a.0 < b.0,
        Side::Bid => a.0 > b.0,
    }
}

/// What a queue gives: its lots from the front, each in full but possibly the
/// last.
proof fn lemma_take_lots<I>(queue: Seq<Lot<I>>, quantity: u64)
    requires
        forall|i: int| 0 <= i < queue.len() ==> (#[trigger] queue[i]).quantity > 0,
    ensures
        ({
            let t = take(queue, quantity);
            &&& forall|i: int|
                0 <= i < t.fills.len() ==> 0 < (#[trigger] t.fills[i]).quantity
                    <= queue[i].quantity
            &&& forall|i: int|
                0 <= i < t.rest.len() ==> 0 < (#[trigger] t.rest[i]).quantity
                    <= queue[i + t.spent].quantity
            &&& forall|i: int|
                0 < i < t.rest.len() ==> #[trigger] t.rest[i] == queue[i + t.spent]
        }),
    decreases queue.len(),
{
    if queue.len() == 0 || quantity == 0 {
    } else if queue[0].quantity <= quantity {
        let t = take(queue, quantity);
        let left = (quantity - queue[0].quantity) as u64;
        let rest = queue.drop_first();
        let u = take(rest, left);
        assert forall|i: int| 0 <= i < rest.len() implies (#[trigger] rest[i]).quantity > 0 by {
            assert(rest[i] == queue[i + 1]);
        }
        lemma_take_lots(rest, left);
        lemma_take(rest, left);
        assert forall|i: int| 0 <= i < t.fills.len() implies 0 < (#[trigger] t.fills[i]).quantity
            <= queue[i].quantity by {
            if i > 0 {
                assert(t.fills[i] == u.fills[i - 1]);
                assert(rest[i - 1] == queue[i]);
            }
        }
        assert forall|i: int| 0 <= i < t.rest.len() implies 0 < (#[trigger] t.rest[i]).quantity
            <= queue[i + t.spent].quantity by {
            assert(t.rest[i] == u.rest[i]);
            assert(rest[i + u.spent] == queue[i + t.spent]);
        }
        assert forall|i: int| 0 < i < t.rest.len() implies #[trigger] t.rest[i] == queue[i
            + t.spent] by {
            assert(t.rest[i] == u.rest[i]);
            assert(rest[i + u.spent] == queue[i + t.spent]);
        }
    }
}

/// What is left of a side without one of its levels is in order.
proof fn lemma_sound_remove<I>(levels: Levels<I>, p: u64)
    requires
        sound(levels),
    ensures
        sound(levels.remove(p)),
{
    let fewer = levels.remove(p);
    assert forall|a: u64, i: int, b: u64, j: int, id: I|
        #![trigger rests_at(fewer, a, i, id), rests_at(fewer, b, j, id)]
        rests_at(fewer, a, i, id) && rests_at(
            fewer,
            b,
            j,
            id,
        ) implies a == b && i == j by {
        assert(rests_at(levels, a, i, id));
        assert(rests_at(levels, b, j, id));
    }
    assert forall|q: u64, i: int|
        fewer.contains_key(q) && 0 <= i < fewer[q].len() implies (#[trigger] fewer[q][i]).quantity
        > 0 by {
        assert(levels[q][i].quantity > 0);
    }
}

/// Where the orders stood that a sweep fills: the fills go from the front, and
/// at no price beyond the limit.
pub proof fn lemma_places<I>(
    side: Side,
    levels: Levels<I>,
    limit: Option<u64>,
    quantity: u64,
) -> (at: Seq<(u64, int)>)
    requires
        sound(levels),
    ensures
        ({
            let fills = sweep(side, levels, limit, quantity).fills;
            &&& at.len() == fills.len()
            &&& forall|i: int|
                0 <= i < fills.len() ==> #[trigger] placed(side, levels, limit, fills, at, i)
            &&& forall|i: int, k: int|
                0 <= i < k < fills.len() ==> ahead(side, #[trigger] at[i], #[trigger] at[k])
        }),
    decreases levels.dom().len(),
{
    let s = sweep(side, levels, limit, quantity);
    lemma_best_exists(side, levels.dom());
    if best(side, levels.dom()) is None || quantity == 0 || !crosses(
        side,
        limit,
        best(side, levels.dom())->Some_0,
    ) {
        Seq::empty()
    } else {
        let p = best(side, levels.dom())->Some_0;
        let queue = levels[p];
        let t = take(queue, quantity);
        assert(levels.contains_key(p));
        assert forall|i: int| 0 <= i < queue.len() implies (#[trigger] queue[i]).quantity > 0 by {
            assert(levels[p][i].quantity > 0);
        }
        lemma_take(queue, quantity);
        lemma_take_lots(queue, quantity);
        let here = Seq::new(t.fills.len(), |j: int| (p, j));
        if t.rest.len() > 0 {
            here
        } else {
            let fewer = levels.remove(p);
            let u = sweep(side, fewer, limit, t.left);
            lemma_sound_remove(levels, p);
            let more = lemma_places(side, fewer, limit, t.left);
            let at = here + more;
            let n = t.fills.len();
            assert forall|i: int| 0 <= i < s.fills.len() implies #[trigger] placed(
                side,
                levels,
                limit,
                s.fills,
                at,
                i,
            ) by {
                if i < n {
                    assert(s.fills[i] == t.fills[i]);
                    assert(at[i] == (p, i));
                } else {
                    assert(placed(side, fewer, limit, u.fills, more, i - n));
                    assert(s.fills[i] == u.fills[i - n]);
                    assert(at[i] == more[i - n]);
                }
            }
            assert forall|i: int, k: int| 0 <= i < k < s.fills.len() implies ahead(
                side,
                #[trigger] at[i],
                #[trigger] at[k],
            ) by {
                if k >= n {
                    assert(placed(side, fewer, limit, u.fills, more, k - n));
                    assert(at[k] == more[k - n]);
                    if i < n {
                        assert(levels.dom().contains(at[k].0));
                    } else {
                        assert(at[i] == more[i - n]);
                    }
                }
            }
            at
        }
    }
}

/// What is left of the queue at `p` is its back, and only the order that is now
/// in front may have lost some of its quantity.
pub open spec fn leavings<I>(before: Levels<I>, after: Levels<I>, p: u64) -> bool {
    let k = before[p].len() - after[p].len();
    &&& before.contains_key(p)
    &&& 0 < after[p].len() <= before[p].len()
    &&& after[p][0].id == before[p][k].id
    &&& 0 < after[p][0].quantity <= before[p][k].quantity
    &&& forall|i: int| 0 < i < after[p].len() ==> #[trigger] after[p][i] == before[p][i + k]
}

/// What a sweep leaves: of each level the back of its queue. A level that it
/// touches it may touch only if it has emptied all better ones, and none beyond
/// the limit. If quantity is left, there is nothing left within the limit.
pub proof fn lemma_leavings<I>(side: Side, levels: Levels<I>, limit: Option<u64>, quantity: u64)
    requires
        sound(levels),
    ensures
        ({
            let s = sweep(side, levels, limit, quantity);
            &&& forall|p: u64| #[trigger]
                s.levels.contains_key(p) ==> leavings(levels, s.levels, p)
            &&& forall|p: u64, q: u64| #[trigger]
                levels.contains_key(p) && #[trigger] s.levels.contains_key(q) && (match side {
                    Side::Ask => q < p,
                    Side::Bid => q > p,
                }) ==> s.levels.contains_key(p) && s.levels[p] == levels[p]
            &&& forall|p: u64| #[trigger]
                levels.contains_key(p) && (limit matches Some(l) && match side {
                    Side::Ask => p > l,
                    Side::Bid => p < l,
                }) ==> s.levels.contains_key(p) && s.levels[p] == levels[p]
            &&& s.left > 0 ==> forall|p: u64| #[trigger]
                s.levels.contains_key(p) ==> (limit matches Some(l) && match side {
                    Side::Ask => p > l,
                    Side::Bid => p < l,
                })
        }),
    decreases levels.dom().len(),
{
    let s = sweep(side, levels, limit, quantity);
    lemma_best_exists(side, levels.dom());
    lemma_sweep_leaves(side, levels, limit, quantity);
    if best(side, levels.dom()) is None || quantity == 0 || !crosses(
        side,
        limit,
        best(side, levels.dom())->Some_0,
    ) {
        assert forall|p: u64| #[trigger] s.levels.contains_key(p) implies leavings(
            levels,
            s.levels,
            p,
        ) by {
            assert(levels[p][0].quantity > 0);
        }
    } else {
        let b = best(side, levels.dom())->Some_0;
        let queue = levels[b];
        let t = take(queue, quantity);
        assert(levels.contains_key(b));
        assert forall|i: int| 0 <= i < queue.len() implies (#[trigger] queue[i]).quantity > 0 by {
            assert(levels[b][i].quantity > 0);
        }
        lemma_take(queue, quantity);
        lemma_take_lots(queue, quantity);
        lemma_take_rest(queue, quantity);
        let fewer = levels.remove(b);
        if t.rest.len() == 0 {
            lemma_sound_remove(levels, b);
            lemma_leavings(side, fewer, limit, t.left);
            assert forall|p: u64| #[trigger] s.levels.contains_key(p) implies leavings(
                levels,
                s.levels,
                p,
            ) by {
                assert(leavings(fewer, s.levels, p));
                assert forall|i: int| 0 < i < s.levels[p].len() implies #[trigger] s.levels[p][i]
                    == levels[p][i + (levels[p].len() - s.levels[p].len())] by {}
            }
            assert forall|p: u64, q: u64| #[trigger]
                levels.contains_key(p) && #[trigger] s.levels.contains_key(q) && (match side {
                    Side::Ask => q < p,
                    Side::Bid => q > p,
                }) implies s.levels.contains_key(p) && s.levels[p] == levels[p] by {
                assert(leavings(fewer, s.levels, q));
                assert(levels.dom().contains(q));
                assert(fewer.contains_key(p));
            }
            assert forall|p: u64| #[trigger]
                levels.contains_key(p) && (limit matches Some(l) && match side {
                    Side::Ask => p > l,
                    Side::Bid => p < l,
                }) implies s.levels.contains_key(p) && s.levels[p] == levels[p] by {
                assert(fewer.contains_key(p));
            }
        } else {
            assert forall|p: u64| #[trigger] s.levels.contains_key(p) implies leavings(
                levels,
                s.levels,
                p,
            ) by {
                if p == b {
                    assert forall|i: int| 0 < i < s.levels[p].len() implies #[trigger] s.levels[p][i]
                        == levels[p][i + (levels[p].len() - s.levels[p].len())] by {
                        assert(t.rest[i] == queue[i + t.spent]);
                    }
                    assert(t.rest[0].id == queue[0int + t.spent].id);
                } else {
                    assert(levels[p][0].quantity > 0);
                }
            }
            assert forall|p: u64, q: u64| #[trigger]
                levels.contains_key(p) && #[trigger] s.levels.contains_key(q) && (match side {
                    Side::Ask => q < p,
                    Side::Bid => q > p,
                }) implies s.levels.contains_key(p) && s.levels[p] == levels[p] by {
                assert(levels.dom().contains(q));
                assert(levels.dom().contains(p));
            }
        }
    }
}

/// A sweep takes off the side what it fills, and leaves over what it does not.
pub proof fn lemma_tallied<I>(side: Side, levels: Levels<I>, limit: Option<u64>, quantity: u64)
    requires
        levels.dom().finite(),
    ensures
        ({
            let s = sweep(side, levels, limit, quantity);
            let filled = tally(s.fills.map_values(|l: Lot<I>| l.quantity));
            &&& filled + s.left == quantity
            &&& filled + total(s.levels) == total(levels)
        }),
{
    law_quantity_is_conserved(side, levels, limit, quantity);
    lemma_tally(sweep(side, levels, limit, quantity).fills);
}

/// Where no name is used twice, the lot at the back has a name of its own.
pub proof fn lemma_new_name<I>(levels: Levels<I>, price: u64, lot: Lot<I>)
    requires
        distinct_ids(with_lot(levels, price, lot)),
    ensures
        !holds(levels, lot.id),
{
    let more = with_lot(levels, price, lot);
    if holds(levels, lot.id) {
        let (p, i) = choose|p: u64, i: int| rests_at(levels, p, i, lot.id);
        assert(rests_at(more, p, i, lot.id));
        assert(rests_at(more, price, lots_at(levels, price).len() as int, lot.id));
    }
}

} // verus!
