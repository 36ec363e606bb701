//! One side of a book: its price levels, and which of them is best.

use std::collections::hash_map::Entry;
use std::collections::{BTreeSet, HashMap};

use vstd::prelude::*;

use crate::arena::{
    apart, distinct_slots, first, follows, in_range, last, leads, lemma_retired_all,
    lemma_retired_concat, lemma_slots_total_frame, linked, priced, queue, retired_all, slots_total,
    Arena, Links, Node, SlabIndex,
};
use crate::fills::{delivered, lemma_delivered_concat, lemma_delivered_none, FillSink};
use crate::level::{
    appended, bypassed, lemma_appended, lemma_bypassed, lemma_lots_total, lots, named, trimmed,
    Consumed, PriceLevel,
};
use crate::model::{
    best, crosses, distinct_ids, holds, is_best, lemma_best_exists, lemma_best_unique,
    lemma_queue_total_rename, lemma_sweep_step, lemma_take, lemma_total_remove, lemma_without,
    lots_at, queue_total, renamed, rests_at, sound, sweep, take, total, with_lot, without, Levels,
    Lot,
};
use crate::types::{Price, Side};

verus! {

/// The lowest price of a set of prices, as [`BTreeSet::first`] gives it: the
/// minimum of the elements, and nothing only for the empty set.
#[verifier::external_body]
fn lowest(prices: &BTreeSet<u64>) -> (r: Option<&u64>)
    ensures
        match r {
            Some(p) => prices@.contains(*p) && forall|q: u64| prices@.contains(q) ==> *p <= q,
            None => prices@ == Set::<u64>::empty(),
        },
{
    prices.first()
}

/// The highest price of a set of prices, as [`BTreeSet::last`] gives it: the
/// maximum of the elements, and nothing only for the empty set.
#[verifier::external_body]
fn highest(prices: &BTreeSet<u64>) -> (r: Option<&u64>)
    ensures
        match r {
            Some(p) => prices@.contains(*p) && forall|q: u64| prices@.contains(q) ==> q <= *p,
            None => prices@ == Set::<u64>::empty(),
        },
{
    prices.last()
}

/// Price to queue of slots.
pub type Queues = Map<u64, Seq<SlabIndex>>;

/// The order in slot `idx` stands in its queue.
pub open spec fn rests(nodes: Seq<Node>, queues: Queues, idx: SlabIndex) -> bool {
    let p = nodes[idx.0 as int].price;
    queues.contains_key(p) && queues[p].contains(idx)
}

/// No queue runs through the freelist `free`.
pub open spec fn all_apart(queues: Queues, free: Seq<SlabIndex>) -> bool {
    forall|p: u64| #[trigger] queues.contains_key(p) ==> apart(queues[p], free)
}

/// The queue at `price`, empty if there is none.
pub open spec fn queue_at(queues: Queues, price: u64) -> Seq<SlabIndex> {
    if queues.contains_key(price) {
        queues[price]
    } else {
        Seq::empty()
    }
}

/// `queues` without the order at position `pos` of the queue at `price`; a
/// queue that becomes empty goes.
pub open spec fn dropped(queues: Queues, price: u64, pos: int) -> Queues {
    if queues[price].len() == 1 {
        queues.remove(price)
    } else {
        queues.insert(price, queues[price].remove(pos))
    }
}

/// The lots that rest in `queues`.
pub open spec fn resting(nodes: Seq<Node>, queues: Queues) -> Levels<SlabIndex> {
    queues.map_values(|q: Seq<SlabIndex>| lots(nodes, q))
}

/// Every queue is one, none is empty, and every order is queued at its price.
pub open spec fn ladder(nodes: Seq<Node>, queues: Queues) -> bool {
    &&& queues.dom().finite()
    &&& forall|p: u64| #[trigger]
        queues.contains_key(p) ==> queue(nodes, queues[p]) && priced(nodes, queues[p], p)
            && queues[p].len() > 0
}

/// One side of a book. The prices with orders are kept twice: as the keys of
/// `levels`, to find a level, and sorted in `price_index`, which is walked only
/// when the best level dies.
pub struct HalfBook {
    side: Side,
    levels: HashMap<u64, PriceLevel>,
    price_index: BTreeSet<u64>,
    best_price: Option<Price>,
}

/// `level`, which is kept under the price `p`, describes the queue of the orders
/// at that price: it has some, they are linked both ways from its head to its
/// tail, and it knows how many they are and their total quantity.
pub open spec fn level_in_shape(nodes: Seq<Node>, p: u64, level: PriceLevel) -> bool {
    &&& level.price == Price(p)
    &&& level.slots@.len() > 0
    &&& level.wf(nodes)
    &&& priced(nodes, level.slots@, p)
}

/// What is kept of one side fits together: the prices are those of the levels,
/// the best of them is known, and each level describes its orders.
pub open spec fn in_shape(half: HalfBook, nodes: Seq<Node>) -> bool {
    &&& half.prices() == half.table().dom()
    &&& half.best() == (match best(half.side(), half.prices()) {
        Some(p) => Some(Price(p)),
        None => None,
    })
    &&& forall|p: u64| #[trigger]
        half.table().contains_key(p) ==> level_in_shape(nodes, p, half.table()[p])
}

/// The levels that are kept of one side say of each price what rests there.
pub open spec fn tells<I>(half: HalfBook, levels: Levels<I>) -> bool {
    &&& half.prices() == levels.dom()
    &&& forall|p: u64| #[trigger]
        levels.contains_key(p) ==> half.table()[p].order_count == levels[p].len()
            && half.table()[p].quantity == queue_total(levels[p])
}

impl HalfBook {
    pub closed spec fn side(self) -> Side {
        self.side
    }

    /// The levels, by price.
    pub closed spec fn table(self) -> Map<u64, PriceLevel> {
        self.levels@
    }

    /// The prices that are kept sorted.
    pub closed spec fn prices(self) -> Set<u64> {
        self.price_index@
    }

    /// The price that is kept as the best.
    pub closed spec fn best(self) -> Option<Price> {
        self.best_price
    }

    /// The slots queued at each price.
    pub closed spec fn queues(self) -> Queues {
        self.levels@.map_values(|l: PriceLevel| l.slots@)
    }

    /// The level at `price` describes a queue of orders at that price.
    spec fn level_wf(self, nodes: Seq<Node>, p: u64) -> bool {
        &&& self.levels@[p].price.0 == p
        &&& self.levels@[p].wf(nodes)
        &&& priced(nodes, self.levels@[p].slots@, p)
        &&& self.levels@[p].slots@.len() > 0
    }

    /// The levels describe queues threaded through `nodes`, except possibly
    /// for which of them is best.
    spec fn levels_wf(self, nodes: Seq<Node>) -> bool {
        &&& self.price_index@ == self.levels@.dom()
        &&& forall|p: u64| #[trigger] self.levels@.contains_key(p) ==> self.level_wf(nodes, p)
    }

    spec fn best_wf(self) -> bool {
        self.best_price == (match best(self.side, self.levels@.dom()) {
            Some(p) => Some(Price(p)),
            None => None,
        })
    }

    /// The levels describe queues threaded through `nodes`.
    pub closed spec fn wf(self, nodes: Seq<Node>) -> bool {
        &&& self.levels_wf(nodes)
        &&& self.best_wf()
    }

    /// What a consistent side means for its queues.
    pub proof fn lemma_wf(self, nodes: Seq<Node>)
        requires
            self.wf(nodes),
        ensures
            ladder(nodes, self.queues()),
            forall|p: u64| #[trigger]
                self.queues().contains_key(p) ==> slots_total(nodes, self.queues()[p]) <= u64::MAX,
    {
        assert(self.queues().dom() =~= self.levels@.dom());
        assert forall|p: u64| #[trigger] self.queues().contains_key(p) implies queue(
            nodes,
            self.queues()[p],
        ) && priced(nodes, self.queues()[p], p) && self.queues()[p].len() > 0 && slots_total(
            nodes,
            self.queues()[p],
        ) <= u64::MAX by {
            assert(self.levels@.contains_key(p));
            assert(self.level_wf(nodes, p));
        }
    }

    /// What is kept of a consistent side fits together.
    pub proof fn law_in_shape(self, nodes: Seq<Node>)
        requires
            self.wf(nodes),
        ensures
            in_shape(self, nodes),
            tells(self, resting(nodes, self.queues())),
    {
        let levels = resting(nodes, self.queues());
        assert forall|p: u64| #[trigger] self.table().contains_key(p) implies level_in_shape(
            nodes,
            p,
            self.table()[p],
        ) by {
            assert(self.level_wf(nodes, p));
        }
        assert(levels.dom() =~= self.levels@.dom());
        assert forall|p: u64| #[trigger] levels.contains_key(p) implies self.table()[p].order_count
            == levels[p].len() && self.table()[p].quantity == queue_total(levels[p]) by {
            assert(self.level_wf(nodes, p));
            lemma_lots_total(nodes, self.queues()[p]);
        }
    }

    /// What rests on a consistent side is in order.
    pub proof fn lemma_sound(self, nodes: Seq<Node>)
        requires
            self.wf(nodes),
        ensures
            sound(resting(nodes, self.queues())),
    {
        let queues = self.queues();
        let levels = resting(nodes, queues);
        self.lemma_wf(nodes);
        lemma_resting(nodes, queues);
        assert forall|p: u64| #[trigger] levels.contains_key(p) implies queue_total(levels[p])
            <= u64::MAX by {
            assert(queues.contains_key(p));
            lemma_lots_total(nodes, queues[p]);
        }
        assert forall|p: u64, i: int|
            levels.contains_key(p) && 0 <= i < levels[p].len() implies (
        #[trigger] levels[p][i]).quantity > 0 by {
            assert(queues.contains_key(p));
            assert(nodes[queues[p][i].0 as int].quantity > 0);
        }
    }

    /// Only the slots with orders in them matter.
    pub proof fn lemma_frame(self, a: Seq<Node>, b: Seq<Node>)
        requires
            self.wf(a),
            a.len() == b.len(),
            forall|idx: SlabIndex|
                #![trigger b[idx.0 as int]]
                in_range(a, idx) && rests(a, self.queues(), idx) ==> b[idx.0 as int]
                    == a[idx.0 as int],
        ensures
            self.wf(b),
            resting(b, self.queues()) == resting(a, self.queues()),
    {
        self.lemma_wf(a);
        assert forall|p: u64| #[trigger] self.levels@.contains_key(p) implies self.level_wf(
            b,
            p,
        ) by {
            assert(self.queues().contains_key(p));
            lemma_queue_frame(a, b, self.queues(), p);
        }
        assert forall|p: u64| #[trigger] self.queues().contains_key(p) implies lots(
            b,
            self.queues()[p],
        ) == lots(a, self.queues()[p]) by {
            lemma_queue_frame(a, b, self.queues(), p);
        }
        assert(resting(b, self.queues()) =~= resting(a, self.queues()));
    }

    /// An empty side.
    pub(crate) fn new(side: Side) -> (r: Self)
        ensures
            r.side() == side,
            r.queues() == Queues::empty(),
            forall|nodes: Seq<Node>| #[trigger] r.wf(nodes),
    {
        let r = HalfBook {
            side,
            levels: HashMap::new(),
            price_index: BTreeSet::new(),
            best_price: None,
        };
        proof {
            lemma_best_exists(side, r.levels@.dom());
            assert(r.queues() =~= Queues::empty());
            assert(r.price_index@ =~= r.levels@.dom());
        }
        r
    }

    /// Look up which of the prices in `price_index` is best now.
    fn update_best_price(&mut self)
        requires
            old(self).price_index@ == old(self).levels@.dom(),
        ensures
            final(self).best_wf(),
            final(self).side == old(self).side,
            final(self).levels == old(self).levels,
            final(self).price_index == old(self).price_index,
    {
        let found = match self.side {
            Side::Bid => highest(&self.price_index),
            Side::Ask => lowest(&self.price_index),
        };
        let ghost prices = self.price_index@;
        proof {
            match found {
                Some(p) => {
                    assert(is_best(self.side, prices, *p));
                    lemma_best_unique(self.side, prices, *p);
                },
                None => {
                    lemma_best_exists(self.side, prices);
                },
            }
        }
        self.best_price = match found {
            Some(p) => Some(Price(*p)),
            None => None,
        };
    }

    /// Queue the order in slot `idx` at its price.
    pub(crate) fn push_order_to_l2_book_and_update_slab_links<A: Links>(
        &mut self,
        idx: SlabIndex,
        slab: &mut A,
    )
        requires
            old(slab).wf(),
            old(self).wf(old(slab).nodes()),
            all_apart(old(self).queues(), old(slab).free_list()),
            in_range(old(slab).nodes(), idx),
            !old(slab).free_list().contains(idx),
            !rests(old(slab).nodes(), old(self).queues(), idx),
            old(slab).nodes()[idx.0 as int].next is None,
            old(slab).nodes()[idx.0 as int].quantity > 0,
            slots_total(
                old(slab).nodes(),
                queue_at(old(self).queues(), old(slab).nodes()[idx.0 as int].price),
            ) + old(slab).nodes()[idx.0 as int].quantity <= u64::MAX,
        ensures
            final(slab).wf(),
            final(slab).free_list() == old(slab).free_list(),
            final(slab).rest() == old(slab).rest(),
            ({
                let p = old(slab).nodes()[idx.0 as int].price;
                let q = queue_at(old(self).queues(), p);
                &&& final(slab).nodes() == appended(old(slab).nodes(), q, idx)
                &&& final(self).queues() == old(self).queues().insert(p, q.push(idx))
            }),
            final(self).wf(final(slab).nodes()),
            final(self).side() == old(self).side(),
    {
        let ghost nodes = slab.nodes();
        let ghost queues = self.queues();
        let ghost this = *self;
        let price = slab.node(idx).price;
        let ghost q = queue_at(queues, price);
        proof {
            self.lemma_wf(nodes);
            assert(queues.dom() =~= self.levels@.dom());
            assert(queue(nodes, q));
            lemma_appended(nodes, q, idx);
        }

        match self.levels.entry(price) {
            Entry::Occupied(entry) => {
                let level = entry.into_mut();
                level.push_order_to_l2_level_and_update_slab_links(idx, slab);
            },
            Entry::Vacant(entry) => {
                self.price_index.insert(price);
                let mut level = PriceLevel::new(Price(price));
                level.push_order_to_l2_level_and_update_slab_links(idx, slab);
                entry.insert(level);
            },
        }

        let ghost dom = this.levels@.dom();
        proof {
            assert(self.levels@.dom() =~= dom.insert(price));
            assert(self.price_index@ =~= self.levels@.dom());
            assert(self.queues() =~= queues.insert(price, q.push(idx)));
            assert forall|p: u64| #[trigger] self.levels@.contains_key(p) implies self.level_wf(
                slab.nodes(),
                p,
            ) by {
                if p != price {
                    assert(this.levels@.contains_key(p) && this.level_wf(nodes, p));
                    assert(queues.contains_key(p));
                    assert forall|other: SlabIndex|
                        #![trigger slab.nodes()[other.0 as int]]
                        in_range(nodes, other) && !q.push(idx).contains(
                            other,
                        ) implies slab.nodes()[other.0 as int] == nodes[other.0 as int] by {
                        assert(q.push(idx)[q.len() as int] == idx);
                        assert forall|i: int| 0 <= i < q.len() implies q[i] != other by {
                            assert(q.push(idx)[i] == q[i]);
                        }
                    }
                    lemma_other_queue(nodes, slab.nodes(), queues, p, q.push(idx), price);
                } else {
                    if dom.contains(price) {
                        assert(this.level_wf(nodes, price));
                    }
                    assert forall|i: int| 0 <= i < q.push(idx).len() implies slab.nodes()[(
                    #[trigger] q.push(idx)[i]).0 as int].price == price && slab.nodes()[q.push(
                        idx,
                    )[i].0 as int].quantity > 0 by {
                        if i < q.len() {
                            assert(q.push(idx)[i] == q[i]);
                            assert(in_range(nodes, q[i]));
                        }
                    }
                }
            }
            lemma_best_exists(this.side, dom);
        }

        let is_new_best = match self.best_price {
            None => true,
            Some(best) => match self.side {
                Side::Bid => price > best.0,
                Side::Ask => price < best.0,
            },
        };
        if is_new_best {
            self.best_price = Some(Price(price));
        }
        proof {
            let now = self.best_price->Some_0.0;
            assert(is_best(this.side, dom.insert(price), now));
            lemma_best_unique(this.side, dom.insert(price), now);
        }
    }

    /// Take the order in slot `idx` out of its queue at `price`; a level that
    /// becomes empty goes. Where there is no level at `price` nothing happens.
    pub(crate) fn remove_order_from_l2_book_and_update_slab_links<A: Links>(
        &mut self,
        idx: SlabIndex,
        price: Price,
        slab: &mut A,
    )
        requires
            old(slab).wf(),
            old(self).wf(old(slab).nodes()),
            all_apart(old(self).queues(), old(slab).free_list()),
            old(self).queues().contains_key(price.0) ==> old(self).queues()[price.0].contains(idx),
        ensures
            final(slab).wf(),
            final(slab).free_list() == old(slab).free_list(),
            final(slab).rest() == old(slab).rest(),
            if old(self).queues().contains_key(price.0) {
                let q = old(self).queues()[price.0];
                let pos = q.index_of(idx);
                &&& final(slab).nodes() == bypassed(old(slab).nodes(), q, pos)
                &&& final(self).queues() == dropped(old(self).queues(), price.0, pos)
            } else {
                &&& final(slab).nodes() == old(slab).nodes()
                &&& final(self).table() == old(self).table()
                &&& final(self).queues() == old(self).queues()
            },
            final(self).wf(final(slab).nodes()),
            final(self).side() == old(self).side(),
    {
        let ghost nodes = slab.nodes();
        let ghost queues = self.queues();
        let ghost this = *self;
        let ghost q = queues[price.0];
        let ghost pos = q.index_of(idx);
        let found = match self.levels.entry(price.0) {
            Entry::Occupied(entry) => {
                let level = entry.into_mut();
                proof {
                    this.lemma_wf(nodes);
                    assert(this.levels@.contains_key(price.0) && this.level_wf(nodes, price.0));
                    assert(queues.contains_key(price.0));
                    assert(q[pos] == idx);
                    lemma_bypassed(nodes, q, pos);
                }
                level.remove(idx, slab);
                Some(level.is_empty())
            },
            Entry::Vacant(_) => None,
        };
        let emptied = match found {
            Some(emptied) => emptied,
            None => {
                proof {
                    assert(self.levels@ =~= this.levels@);
                    assert forall|p: u64| #[trigger]
                        self.levels@.contains_key(p) implies self.level_wf(nodes, p) by {
                        assert(this.level_wf(nodes, p));
                    }
                }
                return;
            },
        };
        proof {
            assert(self.levels@.dom() =~= this.levels@.dom());
            assert(emptied <==> q.remove(pos).len() == 0);
            assert forall|p: u64| #[trigger]
                self.levels@.contains_key(p) && p != price.0 implies self.level_wf(
                slab.nodes(),
                p,
            ) by {
                assert(this.levels@.contains_key(p) && this.level_wf(nodes, p));
                assert(queues.contains_key(p));
                lemma_other_queue(nodes, slab.nodes(), queues, p, q, price.0);
            }
        }

        if emptied {
            self.levels.remove(&price.0);
            self.price_index.remove(&price.0);
            proof {
                assert(self.levels@.dom() =~= this.levels@.dom().remove(price.0));
                assert(self.price_index@ =~= self.levels@.dom());
                assert(self.queues() =~= queues.remove(price.0));
            }
            if self.best_price == Some(price) {
                self.update_best_price();
            } else {
                proof {
                    lemma_best_without(this.side, this.levels@.dom(), price.0);
                }
            }
        } else {
            proof {
                assert(self.queues() =~= queues.insert(price.0, q.remove(pos)));
                assert forall|i: int| 0 <= i < q.remove(pos).len() implies slab.nodes()[(
                #[trigger] q.remove(pos)[i]).0 as int].price == price.0 && slab.nodes()[q.remove(
                    pos,
                )[i].0 as int].quantity > 0 by {
                    let j = if i < pos { i } else { i + 1 };
                    assert(q.remove(pos)[i] == q[j]);
                    assert(in_range(nodes, q[j]));
                }
            }
        }
    }

    /// Fill the orders at `price` from the front of their queue; a level that is
    /// drained goes. Gives nothing if no order rests at `price`.
    fn fill_level<A: Arena, S: FillSink<A::Id>>(
        &mut self,
        price: Price,
        arena: &mut A,
        sink: &mut S,
        quantity: u64,
    ) -> (r: Option<Consumed>)
        requires
            old(arena).wf(),
            old(self).wf(old(arena).nodes()),
            all_apart(old(self).queues(), old(arena).free_list()),
            old(self).queues().contains_key(price.0),
            quantity > 0,
        ensures
            r is Some,
            ({
                let c = r->Some_0;
                let q = old(self).queues()[price.0];
                let nodes = old(arena).nodes();
                let t = take(lots(nodes, q), quantity);
                let k = t.spent as int;
                &&& 0 <= k <= q.len()
                &&& c.remaining == t.left
                &&& c.freed == (if k == 0 {
                    None
                } else {
                    Some((q[0], q[k - 1]))
                })
                &&& final(arena).wf()
                &&& final(arena).free_list() == old(arena).free_list()
                &&& final(arena).rest() == retired_all::<A>(old(arena).rest(), q.take(k))
                &&& final(arena).nodes() == trimmed(nodes, q, k, t.rest[0].quantity)
                &&& final(self).wf(final(arena).nodes())
                &&& final(self).side() == old(self).side()
                &&& final(self).queues() == (if t.rest.len() == 0 {
                    old(self).queues().remove(price.0)
                } else {
                    old(self).queues().insert(price.0, q.skip(k))
                })
                &&& lots(final(arena).nodes(), q.skip(k)) == t.rest
                &&& delivered(
                    *old(sink),
                    named::<A>(old(arena).rest(), old(self).side(), t.fills),
                    *final(sink),
                )
            }),
    {
        let ghost nodes = arena.nodes();
        let ghost queues = self.queues();
        let ghost this = *self;
        let ghost q = queues[price.0];
        let ghost t = take(lots(nodes, q), quantity);
        let ghost k = t.spent as int;
        let side = self.side;
        proof {
            self.lemma_wf(nodes);
            assert(self.levels@.contains_key(price.0) && self.level_wf(nodes, price.0));
            lemma_take(lots(nodes, q), quantity);
        }

        let consumed = match self.levels.entry(price.0) {
            Entry::Occupied(entry) => {
                let level = entry.into_mut();
                match level.head {
                    Some(head) => level.consume(head, arena, sink, side, quantity),
                    None => {
                        return None;
                    },
                }
            },
            Entry::Vacant(_) => {
                return None;
            },
        };
        proof {
            assert(self.levels@.dom() =~= this.levels@.dom());
            assert forall|p: u64| #[trigger]
                self.levels@.contains_key(p) && p != price.0 implies self.level_wf(
                arena.nodes(),
                p,
            ) by {
                assert(this.levels@.contains_key(p) && this.level_wf(nodes, p));
                assert(queues.contains_key(p));
                lemma_other_queue(nodes, arena.nodes(), queues, p, q, price.0);
            }
        }

        if consumed.drained {
            self.levels.remove(&price.0);
            self.price_index.remove(&price.0);
            proof {
                assert(self.levels@.dom() =~= this.levels@.dom().remove(price.0));
                assert(self.price_index@ =~= self.levels@.dom());
                assert(self.queues() =~= queues.remove(price.0));
            }
            if self.best_price == Some(price) {
                self.update_best_price();
            } else {
                proof {
                    lemma_best_without(this.side, this.levels@.dom(), price.0);
                }
            }
        } else {
            proof {
                assert(self.queues() =~= queues.insert(price.0, q.skip(k)));
                lemma_take_positive(lots(nodes, q), quantity);
                assert forall|i: int| 0 <= i < q.skip(k).len() implies arena.nodes()[(
                #[trigger] q.skip(k)[i]).0 as int].price == price.0 && arena.nodes()[q.skip(
                    k,
                )[i].0 as int].quantity > 0 by {
                    assert(q.skip(k)[i] == q[i + k]);
                    assert(in_range(nodes, q[i + k]));
                    assert(in_range(nodes, q[k]));
                    assert(t.rest[i].quantity > 0);
                    assert(lots(arena.nodes(), q.skip(k))[i] == t.rest[i]);
                }
            }
        }
        Some(consumed)
    }

    /// Total quantity resting on this side.
    pub(crate) fn available(&self, Ghost(nodes): Ghost<Seq<Node>>) -> (r: u128)
        requires
            self.wf(nodes),
        ensures
            r == total(resting(nodes, self.queues())),
    {
        broadcast use vstd::std_specs::btree::group_btree_axioms;

        let ghost all = resting(nodes, self.queues());
        let mut sum: u128 = 0;
        proof {
            self.lemma_wf(nodes);
            assert(self.queues().dom() =~= self.levels@.dom());
            assert(all.dom() =~= self.levels@.dom());
            assert(self.price_index.len() == self.price_index@.len());
        }
        let ghost mut left = all;
        for p in it: self.price_index.iter()
            invariant
                self.wf(nodes),
                all == resting(nodes, self.queues()),
                all.dom() == self.levels@.dom(),
                all.dom().finite(),
                it.seq().unref().to_set() == self.levels@.dom(),
                it.seq().no_duplicates(),
                it.seq().len() == self.levels@.dom().len(),
                self.levels@.dom().len() <= usize::MAX,
                sum <= it.index() * u64::MAX,
                left.dom().finite(),
                left.dom().len() + it.index() == it.seq().len(),
                forall|i: int|
                    it.index() <= i < it.seq().len() ==> left.contains_key(
                        #[trigger] it.seq().unref()[i],
                    ),
                forall|q: u64| #[trigger]
                    left.contains_key(q) ==> all.contains_key(q) && left[q] == all[q],
                sum + total(left) == total(all),
        {
            let ghost seen = it.seq().unref();
            let ghost i = it.index() as int;
            proof {
                assert(seen[i] == *p);
                assert(seen.contains(*p));
                assert(seen.to_set().contains(*p));
                assert(self.levels@.contains_key(*p) && self.level_wf(nodes, *p));
                assert(left.contains_key(*p));
                lemma_total_remove(left, *p);
                lemma_lots_total(nodes, self.levels@[*p].slots@);
                assert(left[*p] == lots(nodes, self.levels@[*p].slots@));
                assert forall|j: int| i + 1 <= j < seen.len() implies left.remove(*p).contains_key(
                    #[trigger] seen[j],
                ) by {
                    assert(seen[j] == *it.seq()[j] && seen[i] == *it.seq()[i]);
                    assert(it.seq()[j] != it.seq()[i]);
                }
                left = left.remove(*p);
                assert((i + 1) * u64::MAX <= usize::MAX * u64::MAX) by (nonlinear_arith)
                    requires
                        i + 1 <= usize::MAX,
                ;
                assert(usize::MAX * u64::MAX <= u128::MAX) by (nonlinear_arith)
                    requires
                        usize::MAX <= u64::MAX,
                ;
                assert((i + 1) * u64::MAX == i * u64::MAX + u64::MAX) by (nonlinear_arith);
            }
            if let Some(level) = self.levels.get(p) {
                sum = sum + level.quantity as u128;
            }
        }
        assert(left.dom() =~= Set::empty());
        sum
    }

    /// Fill `quantity` against the orders on this side: best price first,
    /// oldest first within a price, and no price beyond `limit`. Gives the
    /// quantity that found no order.
    ///
    /// The slots of the orders that are filled completely are already linked
    /// within a level; they are stitched together across levels and go to the
    /// front of the freelist once, at the end.
    pub(crate) fn sweep<A: Arena, S: FillSink<A::Id>>(
        &mut self,
        arena: &mut A,
        sink: &mut S,
        limit: Option<Price>,
        quantity: u64,
    ) -> (remaining: u64)
        requires
            old(arena).wf(),
            old(self).wf(old(arena).nodes()),
            all_apart(old(self).queues(), old(arena).free_list()),
        ensures
            ({
                let before = resting(old(arena).nodes(), old(self).queues());
                let s = sweep(old(self).side(), before, ticks(limit), quantity);
                let nodes = old(arena).nodes();
                let queues = old(self).queues();
                &&& remaining == s.left
                &&& final(self).wf(final(arena).nodes())
                &&& final(self).side() == old(self).side()
                &&& resting(final(arena).nodes(), final(self).queues()) == s.levels
                &&& final(arena).wf()
                &&& final(arena).free_list() == s.done() + old(arena).free_list()
                &&& final(arena).rest() == retired_all::<A>(old(arena).rest(), s.done())
                &&& delivered(
                    *old(sink),
                    named::<A>(old(arena).rest(), old(self).side(), s.fills),
                    *final(sink),
                )
                &&& swept_slots(
                    nodes,
                    queues,
                    final(arena).nodes(),
                    final(self).queues(),
                    s.done(),
                )
            }),
    {
        let mut remaining = quantity;
        let mut freed_chain: Option<(SlabIndex, SlabIndex)> = None;
        let ghost this = *self;
        let ghost side = self.side;
        let ghost nodes = arena.nodes();
        let ghost queues = self.queues();
        let ghost rest = arena.rest();
        let ghost free = arena.free_list();
        let ghost pre = *sink;
        let ghost mut gone: Seq<SlabIndex> = Seq::empty();
        let ghost mut fills: Seq<Lot<SlabIndex>> = Seq::empty();
        proof {
            self.lemma_wf(nodes);
            assert(resting(nodes, queues).dom() =~= queues.dom());
            lemma_delivered_none::<A::Id, S>(pre);
            assert(named::<A>(rest, side, fills) =~= Seq::empty());
            lemma_progress_start(nodes, queues, side, ticks(limit), quantity, free);
        }

        while remaining > 0
            invariant
                this == *old(self),
                pre == *old(sink),
                nodes == old(arena).nodes(),
                rest == old(arena).rest(),
                free == old(arena).free_list(),
                side == this.side(),
                queues == this.queues(),
                arena.wf(),
                arena.free_list() == free,
                arena.rest() == retired_all::<A>(rest, gone),
                self.wf(arena.nodes()),
                self.side() == side,
                all_apart(self.queues(), free),
                progress(
                    nodes,
                    queues,
                    side,
                    ticks(limit),
                    quantity,
                    free,
                    arena.nodes(),
                    self.queues(),
                    gone,
                    fills,
                    remaining,
                ),
                match freed_chain {
                    None => gone.len() == 0,
                    Some((head, tail)) => first(gone) == Some(head) && last(gone) == Some(tail),
                },
                delivered(pre, named::<A>(rest, side, fills), *sink),
            ensures
                remaining == 0 || best(side, self.queues().dom()) is None || !crosses(
                    side,
                    ticks(limit),
                    best(side, self.queues().dom())->Some_0,
                ),
            decreases self.queues().dom().len(), remaining,
        {
            let ghost now = arena.nodes();
            let ghost current = self.queues();
            proof {
                self.lemma_wf(now);
                assert(current.dom() =~= self.levels@.dom());
                lemma_best_exists(side, current.dom());
            }

            // The best price on this side.
            let fill_price = match self.best_price {
                Some(p) => p,
                None => {
                    break;
                },
            };

            // Stop where the limit no longer crosses.
            if let Some(limit) = limit {
                let crosses = match self.side {
                    Side::Ask => limit.0 >= fill_price.0,
                    Side::Bid => limit.0 <= fill_price.0,
                };
                if !crosses {
                    break;
                }
            }

            let ghost q = current[fill_price.0];
            let ghost mid = *sink;
            let ghost t = take(lots(now, q), remaining);
            let ghost asked = remaining;
            let consumed = match self.fill_level(fill_price, arena, sink, remaining) {
                Some(c) => c,
                None => {
                    break;
                },
            };
            remaining = consumed.remaining;
            let ghost mid_nodes = arena.nodes();
            let ghost more = q.take(t.spent as int);
            proof {
                self.lemma_wf(mid_nodes);
                lemma_progress_chain(
                    nodes,
                    queues,
                    side,
                    ticks(limit),
                    quantity,
                    free,
                    now,
                    current,
                    gone,
                    fills,
                    asked,
                    fill_price.0,
                );
                lemma_take(lots(now, q), asked);
                lemma_still_named::<A>(rest, gone, side, q, t.fills);
                lemma_delivered_concat(
                    pre,
                    named::<A>(rest, side, fills),
                    mid,
                    named::<A>(rest, side, t.fills),
                    *sink,
                );
                assert(named::<A>(rest, side, fills) + named::<A>(rest, side, t.fills)
                    =~= named::<A>(rest, side, fills + t.fills));
                lemma_retired_concat::<A>(rest, gone, more);
            }

            // Stitch the slots of this level to those of the levels before.
            if let Some((lf_head, lf_tail)) = consumed.freed {
                match freed_chain {
                    Some((head, prev_tail)) => {
                        arena.set_next(prev_tail, Some(lf_head));
                        freed_chain = Some((head, lf_tail));
                    },
                    None => {
                        freed_chain = Some((lf_head, lf_tail));
                    },
                }
            }
            proof {
                lemma_progress_step(
                    nodes,
                    queues,
                    side,
                    ticks(limit),
                    quantity,
                    free,
                    now,
                    current,
                    gone,
                    fills,
                    asked,
                    fill_price.0,
                    self.queues(),
                    arena.nodes(),
                );
                self.lemma_frame(mid_nodes, arena.nodes());
                if t.rest.len() > 0 {
                    assert(self.queues().dom() =~= current.dom());
                } else {
                    assert(self.queues().dom() =~= current.dom().remove(fill_price.0));
                }
                fills = fills + t.fills;
                gone = gone + more;
            }
        }

        let ghost swept = arena.nodes();
        proof {
            self.lemma_wf(swept);
            lemma_progress_end(
                nodes,
                queues,
                side,
                ticks(limit),
                quantity,
                free,
                swept,
                self.queues(),
                gone,
                fills,
                remaining,
            );
        }

        // The slots of the orders that are gone go to the front of the freelist.
        if let Some((head, tail)) = freed_chain {
            proof {
                assert(gone.contains(tail)) by {
                    assert(gone[gone.len() - 1] == tail);
                }
            }
            arena.splice(head, tail, Ghost(gone));
            proof {
                lemma_swept_linked(nodes, queues, swept, self.queues(), gone, arena.nodes());
                self.lemma_frame(swept, arena.nodes());
            }
        } else {
            assert(gone + free =~= free);
        }
        remaining
    }
}

/// A price limit in ticks.
pub open spec fn ticks(limit: Option<Price>) -> Option<u64> {
    match limit {
        Some(p) => Some(p.0),
        None => None,
    }
}

/// What a sweep may do to slots: of those that had an order queued, the ones in
/// `gone` have none any more and the others still do. No other slot changes,
/// and no slot changes its price.
#[verifier::opaque]
pub open spec fn swept_slots(
    nodes: Seq<Node>,
    queues: Queues,
    nodes_after: Seq<Node>,
    queues_after: Queues,
    gone: Seq<SlabIndex>,
) -> bool {
    &&& nodes_after.len() == nodes.len()
    &&& forall|n: int| 0 <= n < nodes.len() ==> (#[trigger] nodes_after[n]).price == nodes[n].price
    &&& forall|idx: SlabIndex| #[trigger]
        gone.contains(idx) ==> in_range(nodes, idx) && rests(nodes, queues, idx)
            && !rests(nodes_after, queues_after, idx)
    &&& forall|idx: SlabIndex| #[trigger]
        rests(nodes_after, queues_after, idx) && in_range(nodes, idx) ==> rests(nodes, queues, idx)
    &&& forall|idx: SlabIndex|
        in_range(nodes, idx) && #[trigger] rests(nodes, queues, idx) ==> gone.contains(idx)
            || rests(nodes_after, queues_after, idx)
    &&& forall|idx: SlabIndex|
        #![trigger nodes_after[idx.0 as int]]
        in_range(nodes, idx) && !rests(nodes, queues, idx) ==> nodes_after[idx.0 as int]
            == nodes[idx.0 as int]
}

/// How far a sweep that began at `nodes` and `queues` has come: the slots in
/// `gone` are chained together, `fills` have happened, and going on from `now`
/// and `current` with `remaining` ends where the whole sweep ends.
#[verifier::opaque]
spec fn progress(
    nodes: Seq<Node>,
    queues: Queues,
    side: Side,
    limit: Option<u64>,
    quantity: u64,
    free: Seq<SlabIndex>,
    now: Seq<Node>,
    current: Queues,
    gone: Seq<SlabIndex>,
    fills: Seq<Lot<SlabIndex>>,
    remaining: u64,
) -> bool {
    let target = sweep(side, resting(nodes, queues), limit, quantity);
    let s = sweep(side, resting(now, current), limit, remaining);
    &&& swept_slots(nodes, queues, now, current, gone)
    &&& distinct_slots(now, gone)
    &&& apart(gone, free)
    &&& gone.len() > 0 ==> linked(now, gone, now[last(gone)->Some_0.0 as int].next)
    &&& gone.len() <= fills.len()
    &&& remaining > 0 ==> gone.len() == fills.len()
    &&& forall|i: int| 0 <= i < gone.len() ==> #[trigger] gone[i] == fills[i].id
    &&& target.fills == fills + s.fills
    &&& target.levels == s.levels
    &&& target.left == s.left
    &&& target.spent == gone.len() + s.spent
}

proof fn lemma_progress_start(
    nodes: Seq<Node>,
    queues: Queues,
    side: Side,
    limit: Option<u64>,
    quantity: u64,
    free: Seq<SlabIndex>,
)
    ensures
        progress(
            nodes,
            queues,
            side,
            limit,
            quantity,
            free,
            nodes,
            queues,
            Seq::empty(),
            Seq::empty(),
            quantity,
        ),
{
    reveal(progress);
    lemma_unswept(nodes, queues);
    let target = sweep(side, resting(nodes, queues), limit, quantity);
    assert(Seq::<Lot<SlabIndex>>::empty() + target.fills =~= target.fills);
}

/// The slots that are gone form a chain outside the queues.
proof fn lemma_progress_chain(
    nodes: Seq<Node>,
    queues: Queues,
    side: Side,
    limit: Option<u64>,
    quantity: u64,
    free: Seq<SlabIndex>,
    now: Seq<Node>,
    current: Queues,
    gone: Seq<SlabIndex>,
    fills: Seq<Lot<SlabIndex>>,
    remaining: u64,
    p: u64,
)
    requires
        progress(nodes, queues, side, limit, quantity, free, now, current, gone, fills, remaining),
        ladder(now, current),
        current.contains_key(p),
    ensures
        forall|i: int| 0 <= i < current[p].len() ==> !gone.contains(#[trigger] current[p][i]),
        last(gone) matches Some(t) ==> in_range(now, t) && !free.contains(t),
{
    reveal(progress);
    lemma_swept_apart(nodes, queues, now, current, gone, p);
    if gone.len() > 0 {
        assert(in_range(now, gone[gone.len() - 1]));
    }
}

/// One more level.
proof fn lemma_progress_step(
    nodes: Seq<Node>,
    queues: Queues,
    side: Side,
    limit: Option<u64>,
    quantity: u64,
    free: Seq<SlabIndex>,
    now: Seq<Node>,
    current: Queues,
    gone: Seq<SlabIndex>,
    fills: Seq<Lot<SlabIndex>>,
    remaining: u64,
    p: u64,
    kept: Queues,
    after: Seq<Node>,
)
    requires
        progress(nodes, queues, side, limit, quantity, free, now, current, gone, fills, remaining),
        ladder(now, current),
        all_apart(current, free),
        remaining > 0,
        best(side, current.dom()) == Some(p),
        current.contains_key(p),
        crosses(side, limit, p),
        ({
            let q = current[p];
            let t = take(lots(now, q), remaining);
            let k = t.spent as int;
            let mid = trimmed(now, q, k, t.rest[0].quantity);
            &&& lots(mid, q.skip(k)) == t.rest
            &&& ladder(mid, kept)
            &&& kept == (if t.rest.len() == 0 {
                current.remove(p)
            } else {
                current.insert(p, q.skip(k))
            })
            &&& after == (if k > 0 && gone.len() > 0 {
                let n = last(gone)->Some_0.0 as int;
                mid.update(n, Node { next: Some(q[0]), ..mid[n] })
            } else {
                mid
            })
        }),
    ensures
        ({
            let q = current[p];
            let t = take(lots(now, q), remaining);
            let more = q.take(t.spent as int);
            let mid = trimmed(now, q, t.spent as int, t.rest[0].quantity);
            &&& progress(
                nodes,
                queues,
                side,
                limit,
                quantity,
                free,
                after,
                kept,
                gone + more,
                fills + t.fills,
                t.left,
            )
            &&& all_apart(kept, free)
            &&& first(gone + more) == (if gone.len() > 0 {
                first(gone)
            } else {
                first(more)
            })
            &&& last(gone + more) == (if more.len() > 0 {
                last(more)
            } else {
                last(gone)
            })
            &&& after.len() == mid.len()
            &&& forall|idx: SlabIndex|
                #![trigger after[idx.0 as int]]
                in_range(mid, idx) && rests(mid, kept, idx) ==> after[idx.0 as int]
                    == mid[idx.0 as int]
        }),
{
    reveal(progress);
    let q = current[p];
    let all = lots(now, q);
    let t = take(all, remaining);
    let k = t.spent as int;
    let more = q.take(k);
    let mid = trimmed(now, q, k, t.rest[0].quantity);
    lemma_take(all, remaining);
    lemma_swept_apart(nodes, queues, now, current, gone, p);
    lemma_level_swept(now, current, p, k, t.rest[0].quantity, kept);
    lemma_swept_concat(nodes, queues, now, current, mid, kept, gone, more);
    lemma_stitched(now, mid, after, gone, q, k);
    lemma_swept_linked(nodes, queues, mid, kept, gone + more, after);
    lemma_all_lots(mid, after, kept);
    assert(resting(now, current).dom() =~= current.dom());
    lemma_sweep_step(side, resting(now, current), limit, remaining, p);
    let u = sweep(side, resting(after, kept), limit, t.left);
    assert((fills + t.fills) + u.fills =~= fills + (t.fills + u.fills));
    let both = gone + more;
    assert forall|i: int| 0 <= i < both.len() implies #[trigger] both[i] == (fills
        + t.fills)[i].id by {
        if i < gone.len() {
            assert(gone[i] == fills[i].id);
        } else {
            assert(t.fills[i - gone.len()].id == q[i - gone.len()]);
        }
    }
    assert forall|i: int| 0 <= i < both.len() implies !free.contains(#[trigger] both[i]) by {
        if i < gone.len() {
            assert(!free.contains(gone[i]));
        } else {
            assert(!free.contains(q[i - gone.len()]));
        }
    }
    assert forall|r: u64| #[trigger] kept.contains_key(r) implies apart(kept[r], free) by {
        if r == p {
            assert forall|i: int| 0 <= i < q.skip(k).len() implies !free.contains(
                #[trigger] q.skip(k)[i],
            ) by {
                assert(q.skip(k)[i] == q[i + k]);
            }
        }
    }
}

/// The end of the sweep.
proof fn lemma_progress_end(
    nodes: Seq<Node>,
    queues: Queues,
    side: Side,
    limit: Option<u64>,
    quantity: u64,
    free: Seq<SlabIndex>,
    now: Seq<Node>,
    current: Queues,
    gone: Seq<SlabIndex>,
    fills: Seq<Lot<SlabIndex>>,
    remaining: u64,
)
    requires
        progress(nodes, queues, side, limit, quantity, free, now, current, gone, fills, remaining),
        ladder(now, current),
        remaining == 0 || best(side, current.dom()) is None || !crosses(
            side,
            limit,
            best(side, current.dom())->Some_0,
        ),
    ensures
        ({
            let s = sweep(side, resting(nodes, queues), limit, quantity);
            &&& s.fills == fills
            &&& s.levels == resting(now, current)
            &&& s.left == remaining
            &&& s.done() == gone
        }),
        swept_slots(nodes, queues, now, current, gone),
        distinct_slots(now, gone),
        apart(gone, free),
        gone.len() > 0 ==> linked(now, gone, now[last(gone)->Some_0.0 as int].next),
{
    reveal(progress);
    assert(resting(now, current).dom() =~= current.dom());
    assert(fills + Seq::<Lot<SlabIndex>>::empty() =~= fills);
    let s = sweep(side, resting(nodes, queues), limit, quantity);
    assert(s.done() =~= gone);
}

/// What rests does not depend on slots without orders.
proof fn lemma_all_lots(a: Seq<Node>, b: Seq<Node>, queues: Queues)
    requires
        ladder(a, queues),
        a.len() == b.len(),
        forall|idx: SlabIndex|
            #![trigger b[idx.0 as int]]
            in_range(a, idx) && rests(a, queues, idx) ==> b[idx.0 as int] == a[idx.0 as int],
    ensures
        resting(b, queues) == resting(a, queues),
{
    assert forall|p: u64| #[trigger] queues.contains_key(p) implies lots(b, queues[p]) == lots(
        a,
        queues[p],
    ) by {
        lemma_queue_frame(a, b, queues, p);
    }
    assert(resting(b, queues) =~= resting(a, queues));
}

/// Taking from a queue of positive lots leaves one.
proof fn lemma_take_positive(queue: Seq<Lot<SlabIndex>>, quantity: u64)
    requires
        forall|i: int| 0 <= i < queue.len() ==> (#[trigger] queue[i]).quantity > 0,
    ensures
        forall|i: int|
            0 <= i < take(queue, quantity).rest.len() ==> (#[trigger] take(
                queue,
                quantity,
            ).rest[i]).quantity > 0,
    decreases queue.len(),
{
    let t = take(queue, quantity);
    if queue.len() == 0 || quantity == 0 {
        assert(t.rest == queue);
    } else if queue[0].quantity <= quantity {
        let rest = queue.drop_first();
        assert forall|i: int| 0 <= i < rest.len() implies (#[trigger] rest[i]).quantity > 0 by {
            assert(rest[i] == queue[i + 1]);
        }
        lemma_take_positive(rest, (quantity - queue[0].quantity) as u64);
        assert(t.rest == take(rest, (quantity - queue[0].quantity) as u64).rest);
    } else {
        assert forall|i: int| 0 <= i < t.rest.len() implies (#[trigger] t.rest[i]).quantity > 0 by {
            assert(queue[i].quantity > 0);
        }
    }
}

/// Filling a level from the front: what it does to the slots and to what rests.
proof fn lemma_level_swept(
    nodes: Seq<Node>,
    queues: Queues,
    p: u64,
    k: int,
    quantity: u64,
    queues_after: Queues,
)
    requires
        ladder(nodes, queues),
        queues.contains_key(p),
        0 <= k <= queues[p].len(),
        queues_after == (if k == queues[p].len() {
            queues.remove(p)
        } else {
            queues.insert(p, queues[p].skip(k))
        }),
    ensures
        ({
            let q = queues[p];
            let after = trimmed(nodes, q, k, quantity);
            &&& swept_slots(nodes, queues, after, queues_after, q.take(k))
            &&& resting(after, queues_after) == (if k == q.len() {
                resting(nodes, queues).remove(p)
            } else {
                resting(nodes, queues).insert(p, lots(after, q.skip(k)))
            })
        }),
{
    reveal(swept_slots);
    let q = queues[p];
    let after = trimmed(nodes, q, k, quantity);
    if k < q.len() {
        assert(in_range(nodes, q[k]));
    }
    assert forall|idx: SlabIndex| #[trigger] q.take(k).contains(idx) implies in_range(nodes, idx)
        && rests(nodes, queues, idx) && !rests(after, queues_after, idx) by {
        let i = choose|i: int| 0 <= i < k && q.take(k)[i] == idx;
        assert(q[i] == idx && in_range(nodes, q[i]));
        if k < q.len() {
            assert forall|j: int| 0 <= j < q.skip(k).len() implies q.skip(k)[j] != idx by {
                assert(q.skip(k)[j] == q[j + k]);
            }
        }
    }
    assert forall|idx: SlabIndex| #[trigger]
        rests(after, queues_after, idx) && in_range(nodes, idx) implies rests(
        nodes,
        queues,
        idx,
    ) by {
        if nodes[idx.0 as int].price == p {
            let j = choose|j: int| 0 <= j < q.skip(k).len() && q.skip(k)[j] == idx;
            assert(q[j + k] == idx);
        }
    }
    assert forall|idx: SlabIndex|
        in_range(nodes, idx) && #[trigger] rests(nodes, queues, idx) implies q.take(k).contains(idx)
        || rests(after, queues_after, idx) by {
        if nodes[idx.0 as int].price == p {
            let i = choose|i: int| 0 <= i < q.len() && q[i] == idx;
            if i < k {
                assert(q.take(k)[i] == idx);
            } else {
                assert(q.skip(k)[i - k] == idx);
            }
        }
    }
    assert forall|idx: SlabIndex|
        #![trigger after[idx.0 as int]]
        in_range(nodes, idx) && !rests(nodes, queues, idx) implies after[idx.0 as int]
        == nodes[idx.0 as int] by {
        if k < q.len() {
            assert(q.contains(q[k]));
            assert(rests(nodes, queues, q[k]));
        }
    }
    assert forall|r: u64| #[trigger] queues.contains_key(r) && r != p implies lots(after, queues[r])
        == lots(nodes, queues[r]) by {
        lemma_other_queue(nodes, after, queues, r, q, p);
    }
    assert(resting(after, queues_after) =~= (if k == q.len() {
        resting(nodes, queues).remove(p)
    } else {
        resting(nodes, queues).insert(p, lots(after, q.skip(k)))
    }));
}

/// Nothing swept.
proof fn lemma_unswept(nodes: Seq<Node>, queues: Queues)
    ensures
        swept_slots(nodes, queues, nodes, queues, Seq::empty()),
{
    reveal(swept_slots);
}

/// Slots that are gone stand in no queue.
proof fn lemma_swept_apart(
    nodes: Seq<Node>,
    queues: Queues,
    nodes_after: Seq<Node>,
    queues_after: Queues,
    gone: Seq<SlabIndex>,
    p: u64,
)
    requires
        swept_slots(nodes, queues, nodes_after, queues_after, gone),
        ladder(nodes_after, queues_after),
        queues_after.contains_key(p),
    ensures
        nodes_after.len() == nodes.len(),
        forall|i: int| 0 <= i < queues_after[p].len() ==> !gone.contains(#[trigger] queues_after[p][i]),
{
    reveal(swept_slots);
    let q = queues_after[p];
    assert forall|i: int| 0 <= i < q.len() implies !gone.contains(#[trigger] q[i]) by {
        assert(rests(nodes_after, queues_after, q[i]));
    }
}

/// One sweep after another.
proof fn lemma_swept_concat(
    a: Seq<Node>,
    qa: Queues,
    b: Seq<Node>,
    qb: Queues,
    c: Seq<Node>,
    qc: Queues,
    some: Seq<SlabIndex>,
    more: Seq<SlabIndex>,
)
    requires
        swept_slots(a, qa, b, qb, some),
        swept_slots(b, qb, c, qc, more),
    ensures
        swept_slots(a, qa, c, qc, some + more),
{
    reveal(swept_slots);
    let both = some + more;
    assert forall|idx: SlabIndex| #[trigger] both.contains(idx) implies some.contains(idx)
        || more.contains(idx) by {
        let i = choose|i: int| 0 <= i < both.len() && both[i] == idx;
        if i < some.len() {
            assert(some[i] == idx);
        } else {
            assert(more[i - some.len()] == idx);
        }
    }
    assert forall|idx: SlabIndex| some.contains(idx) || more.contains(idx) implies #[trigger]
    both.contains(idx) by {
        if some.contains(idx) {
            let i = choose|i: int| 0 <= i < some.len() && some[i] == idx;
            assert(both[i] == idx);
        } else {
            let i = choose|i: int| 0 <= i < more.len() && more[i] == idx;
            assert(both[some.len() + i] == idx);
        }
    }
    assert forall|n: int| 0 <= n < a.len() implies (#[trigger] c[n]).price == a[n].price by {
        assert(c[n].price == b[n].price);
        assert(b[n].price == a[n].price);
    }
    assert forall|idx: SlabIndex| #[trigger] both.contains(idx) implies in_range(a, idx) && rests(
        a,
        qa,
        idx,
    ) && !rests(c, qc, idx) by {
        if some.contains(idx) {
            assert(!rests(b, qb, idx));
        } else {
            assert(rests(b, qb, idx));
        }
    }
    assert forall|idx: SlabIndex| #[trigger]
        rests(c, qc, idx) && in_range(a, idx) implies rests(a, qa, idx) by {
        assert(rests(b, qb, idx));
    }
    assert forall|idx: SlabIndex|
        in_range(a, idx) && #[trigger] rests(a, qa, idx) implies both.contains(idx) || rests(
        c,
        qc,
        idx,
    ) by {
        if !some.contains(idx) {
            assert(rests(b, qb, idx));
        }
    }
    assert forall|idx: SlabIndex|
        #![trigger c[idx.0 as int]]
        in_range(a, idx) && !rests(a, qa, idx) implies c[idx.0 as int] == a[idx.0 as int] by {
        assert(b[idx.0 as int] == a[idx.0 as int]);
        assert(!rests(b, qb, idx));
    }
}

/// Relinking slots that are gone.
proof fn lemma_swept_linked(
    nodes: Seq<Node>,
    queues: Queues,
    a: Seq<Node>,
    queues_after: Queues,
    gone: Seq<SlabIndex>,
    b: Seq<Node>,
)
    requires
        swept_slots(nodes, queues, a, queues_after, gone),
        b.len() == a.len(),
        forall|idx: SlabIndex|
            #![trigger b[idx.0 as int]]
            in_range(a, idx) && !gone.contains(idx) ==> b[idx.0 as int] == a[idx.0 as int],
        forall|n: int| 0 <= n < a.len() ==> (#[trigger] b[n]).price == a[n].price,
    ensures
        swept_slots(nodes, queues, b, queues_after, gone),
        forall|idx: SlabIndex|
            #![trigger b[idx.0 as int]]
            in_range(a, idx) && rests(a, queues_after, idx) ==> b[idx.0 as int] == a[idx.0 as int],
{
    reveal(swept_slots);
    assert forall|n: int| 0 <= n < nodes.len() implies (#[trigger] b[n]).price == nodes[n].price by {
        assert(a[n].price == nodes[n].price);
    }
    assert forall|idx: SlabIndex| in_range(nodes, idx) implies #[trigger] rests(
        b,
        queues_after,
        idx,
    ) == rests(a, queues_after, idx) by {
        assert(b[idx.0 as int].price == a[idx.0 as int].price);
    }
    assert forall|idx: SlabIndex|
        in_range(nodes, idx) && #[trigger] rests(nodes, queues, idx) implies gone.contains(idx)
        || rests(b, queues_after, idx) by {
        assert(gone.contains(idx) || rests(a, queues_after, idx));
    }
    assert forall|idx: SlabIndex|
        #![trigger b[idx.0 as int]]
        in_range(nodes, idx) && !rests(nodes, queues, idx) implies b[idx.0 as int]
        == nodes[idx.0 as int] by {
        assert(!gone.contains(idx));
        assert(a[idx.0 as int] == nodes[idx.0 as int]);
    }
    assert forall|idx: SlabIndex|
        #![trigger b[idx.0 as int]]
        in_range(a, idx) && rests(a, queues_after, idx) implies b[idx.0 as int]
        == a[idx.0 as int] by {
        assert(!gone.contains(idx));
    }
}

/// Orders that are not gone keep their names.
proof fn lemma_still_named<A: Arena>(
    rest: A::Rest,
    gone: Seq<SlabIndex>,
    side: Side,
    q: Seq<SlabIndex>,
    fills: Seq<Lot<SlabIndex>>,
)
    requires
        fills.len() <= q.len(),
        forall|i: int| 0 <= i < fills.len() ==> (#[trigger] fills[i]).id == q[i],
        forall|i: int| 0 <= i < q.len() ==> !gone.contains(#[trigger] q[i]),
    ensures
        named::<A>(retired_all::<A>(rest, gone), side, fills) == named::<A>(rest, side, fills),
{
    assert forall|i: int| 0 <= i < fills.len() implies A::id_in(
        retired_all::<A>(rest, gone),
        side,
        (#[trigger] fills[i]).id,
    ) == A::id_in(rest, side, fills[i].id) by {
        assert(!gone.contains(q[i]));
        lemma_retired_all::<A>(rest, gone, side, q[i]);
    }
    assert(named::<A>(retired_all::<A>(rest, gone), side, fills) =~= named::<A>(rest, side, fills));
}

/// The chain of slots that are gone, with the front of a queue stitched on.
proof fn lemma_stitched(
    nodes: Seq<Node>,
    mid: Seq<Node>,
    after: Seq<Node>,
    gone: Seq<SlabIndex>,
    q: Seq<SlabIndex>,
    k: int,
)
    requires
        queue(nodes, q),
        0 <= k <= q.len(),
        distinct_slots(nodes, gone),
        forall|i: int| 0 <= i < q.len() ==> !gone.contains(#[trigger] q[i]),
        mid.len() == nodes.len(),
        forall|idx: SlabIndex|
            #![trigger mid[idx.0 as int]]
            in_range(nodes, idx) && (k == q.len() || idx != q[k]) ==> mid[idx.0 as int]
                == nodes[idx.0 as int],
        gone.len() > 0 ==> linked(nodes, gone, nodes[last(gone)->Some_0.0 as int].next),
        after == (if k > 0 && gone.len() > 0 {
            let t = last(gone)->Some_0.0 as int;
            mid.update(t, Node { next: Some(q[0]), ..mid[t] })
        } else {
            mid
        }),
    ensures
        ({
            let both = gone + q.take(k);
            &&& distinct_slots(after, both)
            &&& both.len() > 0 ==> linked(after, both, after[last(both)->Some_0.0 as int].next)
            &&& first(both) == (if gone.len() > 0 {
                first(gone)
            } else {
                first(q.take(k))
            })
            &&& forall|idx: SlabIndex|
                #![trigger after[idx.0 as int]]
                in_range(nodes, idx) && !both.contains(idx) ==> after[idx.0 as int]
                    == mid[idx.0 as int]
            &&& forall|n: int| 0 <= n < nodes.len() ==> (#[trigger] after[n]).price == mid[n].price
        }),
{
    let both = gone + q.take(k);
    let n = gone.len() as int;
    if n > 0 {
        assert(in_range(nodes, gone[n - 1]));
        assert(both[n - 1] == gone[n - 1]);
    }
    assert forall|i: int| 0 <= i < both.len() implies in_range(after, #[trigger] both[i]) by {
        if i < n {
            assert(in_range(nodes, gone[i]));
        } else {
            assert(in_range(nodes, q[i - n]));
        }
    }
    assert(both.no_duplicates()) by {
        assert forall|i: int, j: int|
            0 <= i < both.len() && 0 <= j < both.len() && i != j implies both[i] != both[j] by {
            if i < n && j < n {
                assert(gone[i] != gone[j]);
            } else if i >= n && j >= n {
                assert(q[i - n] != q[j - n]);
            } else if i < n {
                assert(!gone.contains(q[j - n]));
                assert(gone[i] == both[i]);
            } else {
                assert(!gone.contains(q[i - n]));
                assert(gone[j] == both[j]);
            }
        }
    }
    if both.len() > 0 {
        let end = after[last(both)->Some_0.0 as int].next;
        assert forall|i: int| 0 <= i < both.len() implies #[trigger] leads(after, both, i, end) by {
            if i < n {
                let old_end = nodes[last(gone)->Some_0.0 as int].next;
                assert(both[i] == gone[i]);
                assert(leads(nodes, gone, i, old_end));
                assert(in_range(nodes, gone[i]));
                if k < q.len() {
                    assert(!gone.contains(q[k]));
                }
                if i < n - 1 {
                    assert(gone[i] != gone[n - 1]);
                    assert(both[i + 1] == gone[i + 1]);
                } else if k > 0 {
                    assert(both[i + 1] == q[0]);
                }
            } else {
                let j = i - n;
                assert(both[i] == q[j]);
                assert(leads(nodes, q, j, None));
                assert(in_range(nodes, q[j]));
                assert(!gone.contains(q[j]));
                if n > 0 {
                    assert(gone[n - 1] != q[j]);
                }
                if i < both.len() - 1 {
                    assert(both[i + 1] == q[j + 1]);
                }
            }
        }
    }
}

/// A queue only depends on the slots with orders in them.
proof fn lemma_queue_frame(a: Seq<Node>, b: Seq<Node>, queues: Queues, p: u64)
    requires
        ladder(a, queues),
        a.len() == b.len(),
        forall|idx: SlabIndex|
            #![trigger b[idx.0 as int]]
            in_range(a, idx) && rests(a, queues, idx) ==> b[idx.0 as int] == a[idx.0 as int],
        queues.contains_key(p),
    ensures
        queue(b, queues[p]),
        priced(b, queues[p], p),
        slots_total(b, queues[p]) == slots_total(a, queues[p]),
        lots(b, queues[p]) == lots(a, queues[p]),
{
    let q = queues[p];
    assert forall|i: int| 0 <= i < q.len() implies b[(#[trigger] q[i]).0 as int]
        == a[q[i].0 as int] by {
        assert(in_range(a, q[i]));
        assert(rests(a, queues, q[i]));
    }
    lemma_same_queue(a, b, q, p);
}

/// A queue depends on nothing but its slots.
proof fn lemma_same_queue(a: Seq<Node>, b: Seq<Node>, q: Seq<SlabIndex>, p: u64)
    requires
        queue(a, q),
        priced(a, q, p),
        a.len() == b.len(),
        forall|i: int| 0 <= i < q.len() ==> b[(#[trigger] q[i]).0 as int] == a[q[i].0 as int],
    ensures
        queue(b, q),
        priced(b, q, p),
        slots_total(b, q) == slots_total(a, q),
        lots(b, q) == lots(a, q),
{
    assert forall|i: int| 0 <= i < q.len() implies in_range(b, #[trigger] q[i]) by {
        assert(in_range(a, q[i]));
    }
    assert forall|i: int| 0 <= i < q.len() implies #[trigger] leads(b, q, i, None) by {
        assert(leads(a, q, i, None));
        assert(b[q[i].0 as int] == a[q[i].0 as int]);
    }
    assert forall|i: int| 0 <= i < q.len() implies #[trigger] follows(b, q, i) by {
        assert(follows(a, q, i));
        assert(b[q[i].0 as int] == a[q[i].0 as int]);
    }
    lemma_slots_total_frame(a, b, q);
    assert(lots(b, q) =~= lots(a, q));
}

/// A queue is not affected by what happens to slots of another price.
proof fn lemma_other_queue(
    a: Seq<Node>,
    b: Seq<Node>,
    queues: Queues,
    p: u64,
    touched: Seq<SlabIndex>,
    price: u64,
)
    requires
        ladder(a, queues),
        a.len() == b.len(),
        queues.contains_key(p),
        p != price,
        forall|i: int| 0 <= i < touched.len() ==> a[(#[trigger] touched[i]).0 as int].price == price,
        forall|idx: SlabIndex|
            #![trigger b[idx.0 as int]]
            in_range(a, idx) && !touched.contains(idx) ==> b[idx.0 as int] == a[idx.0 as int],
    ensures
        queue(b, queues[p]),
        priced(b, queues[p], p),
        slots_total(b, queues[p]) == slots_total(a, queues[p]),
        lots(b, queues[p]) == lots(a, queues[p]),
{
    let q = queues[p];
    assert forall|i: int| 0 <= i < q.len() implies b[(#[trigger] q[i]).0 as int]
        == a[q[i].0 as int] by {
        assert(in_range(a, q[i]));
        assert(!touched.contains(q[i]));
    }
    lemma_same_queue(a, b, q, p);
}

/// Removing a price that is not the best keeps the best.
proof fn lemma_best_without(side: Side, prices: Set<u64>, p: u64)
    requires
        prices.finite(),
        prices.contains(p),
        best(side, prices) != Some(p),
    ensures
        best(side, prices.remove(p)) == best(side, prices),
{
    lemma_best_exists(side, prices);
    let b = best(side, prices)->Some_0;
    assert(is_best(side, prices.remove(p), b));
    lemma_best_unique(side, prices.remove(p), b);
}

/// What rests in well-linked queues: every level has lots, no slot is there
/// twice, and a slot is there exactly if its order stands in its queue.
pub proof fn lemma_resting(nodes: Seq<Node>, queues: Queues)
    requires
        ladder(nodes, queues),
    ensures
        distinct_ids(resting(nodes, queues)),
        resting(nodes, queues).dom() == queues.dom(),
        forall|p: u64| #[trigger]
            resting(nodes, queues).contains_key(p) ==> resting(nodes, queues)[p].len() > 0,
        forall|idx: SlabIndex| #[trigger]
            holds(resting(nodes, queues), idx) ==> in_range(nodes, idx),
        forall|idx: SlabIndex| #[trigger]
            holds(resting(nodes, queues), idx) <==> rests(nodes, queues, idx),
{
    let levels = resting(nodes, queues);
    assert(levels.dom() =~= queues.dom());
    assert forall|p: u64, i: int, q: u64, j: int, id: SlabIndex|
        #![trigger rests_at(levels, p, i, id), rests_at(levels, q, j, id)]
        rests_at(levels, p, i, id) && rests_at(levels, q, j, id) implies p == q && i == j by {
        assert(queues.contains_key(p) && queues.contains_key(q));
        assert(queues[p][i] == id && queues[q][j] == id);
    }
    assert forall|p: u64| #[trigger] levels.contains_key(p) implies levels[p].len() > 0 by {
        assert(queues.contains_key(p));
    }
    assert forall|idx: SlabIndex| #[trigger] holds(levels, idx) implies in_range(nodes, idx)
        && rests(nodes, queues, idx) by {
        let (p, i) = choose|p: u64, i: int| rests_at(levels, p, i, idx);
        assert(queues.contains_key(p));
        assert(queues[p][i] == idx);
    }
    assert forall|idx: SlabIndex| rests(nodes, queues, idx) implies #[trigger] holds(
        levels,
        idx,
    ) by {
        let p = nodes[idx.0 as int].price;
        let i = queues[p].index_of(idx);
        assert(queues[p][i] == idx);
        assert(rests_at(levels, p, i, idx));
    }
}

/// Queueing one more order adds its lot at the back of its level.
pub proof fn lemma_rested(nodes: Seq<Node>, queues: Queues, idx: SlabIndex)
    requires
        ladder(nodes, queues),
        in_range(nodes, idx),
        !rests(nodes, queues, idx),
    ensures
        ({
            let lot = Lot { id: idx, quantity: nodes[idx.0 as int].quantity };
            let p = nodes[idx.0 as int].price;
            let q = queue_at(queues, p);
            let after = appended(nodes, q, idx);
            let more = queues.insert(p, q.push(idx));
            &&& resting(after, more) == with_lot(resting(nodes, queues), p, lot)
            &&& forall|i: SlabIndex| #[trigger]
                rests(after, more, i) && in_range(nodes, i) <==> in_range(nodes, i) && (rests(
                    nodes,
                    queues,
                    i,
                ) || i == idx)
            &&& forall|n: int|
                0 <= n < nodes.len() ==> (#[trigger] after[n]).price == nodes[n].price
                    && after[n].quantity == nodes[n].quantity
            &&& forall|i: SlabIndex|
                #![trigger after[i.0 as int]]
                in_range(nodes, i) && i != idx && !rests(nodes, queues, i) ==> after[i.0 as int]
                    == nodes[i.0 as int]
        }),
{
    let p = nodes[idx.0 as int].price;
    let q = queue_at(queues, p);
    let after = appended(nodes, q, idx);
    let more = queues.insert(p, q.push(idx));
    let lot = Lot { id: idx, quantity: nodes[idx.0 as int].quantity };
    if q.len() > 0 {
        assert(in_range(nodes, q[q.len() - 1]));
    }
    assert forall|n: int| 0 <= n < nodes.len() implies (#[trigger] after[n]).price
        == nodes[n].price && after[n].quantity == nodes[n].quantity by {}
    assert forall|p2: u64| #[trigger] queues.contains_key(p2) implies lots(after, queues[p2])
        == lots(nodes, queues[p2]) by {
        assert(lots(after, queues[p2]) =~= lots(nodes, queues[p2]));
    }
    assert(lots(after, q.push(idx)) =~= lots(nodes, q).push(lot));
    assert(lots(nodes, q) =~= lots_at(resting(nodes, queues), p));
    assert(resting(after, more) =~= with_lot(resting(nodes, queues), p, lot));
    assert forall|i: SlabIndex| in_range(nodes, i) implies (#[trigger] rests(after, more, i)
        <==> rests(nodes, queues, i) || i == idx) by {
        let r = nodes[i.0 as int].price;
        if r == p {
            assert(q.push(idx).contains(i) <==> q.contains(i) || i == idx) by {
                if q.contains(i) {
                    let j = q.index_of(i);
                    assert(q.push(idx)[j] == i);
                }
                if i == idx {
                    assert(q.push(idx)[q.len() as int] == idx);
                }
                if q.push(idx).contains(i) && i != idx {
                    let j = q.push(idx).index_of(i);
                    assert(q[j] == i);
                }
            }
        }
    }
    assert forall|i: SlabIndex|
        #![trigger after[i.0 as int]]
        in_range(nodes, i) && i != idx && !rests(nodes, queues, i) implies after[i.0 as int]
        == nodes[i.0 as int] by {
        if q.len() > 0 {
            let l = q[q.len() - 1];
            assert(queues.contains_key(p));
            assert(nodes[l.0 as int].price == p);
            assert(queues[p].contains(l));
            assert(rests(nodes, queues, l));
        }
    }
}

/// Taking one order out of its queue takes its lot out of the side.
pub proof fn lemma_dropped(nodes: Seq<Node>, queues: Queues, idx: SlabIndex)
    requires
        ladder(nodes, queues),
        in_range(nodes, idx),
        rests(nodes, queues, idx),
    ensures
        ({
            let p = nodes[idx.0 as int].price;
            let q = queues[p];
            let pos = q.index_of(idx);
            let after = bypassed(nodes, q, pos);
            let fewer = dropped(queues, p, pos);
            &&& resting(after, fewer) == without(resting(nodes, queues), idx)
            &&& forall|i: SlabIndex| #[trigger]
                rests(after, fewer, i) && in_range(nodes, i) <==> in_range(nodes, i) && rests(
                    nodes,
                    queues,
                    i,
                ) && i != idx
            &&& after.len() == nodes.len()
            &&& forall|n: int|
                0 <= n < nodes.len() ==> (#[trigger] after[n]).price == nodes[n].price
                    && after[n].quantity == nodes[n].quantity
            &&& forall|i: SlabIndex|
                #![trigger after[i.0 as int]]
                in_range(nodes, i) && !rests(nodes, queues, i) ==> after[i.0 as int]
                    == nodes[i.0 as int]
        }),
{
    let p = nodes[idx.0 as int].price;
    let q = queues[p];
    let pos = q.index_of(idx);
    let after = bypassed(nodes, q, pos);
    let fewer = dropped(queues, p, pos);
    let levels = resting(nodes, queues);
    assert(queues.contains_key(p));
    assert(queue(nodes, q));
    assert(q[pos] == idx);
    assert forall|i: int| 0 <= i < q.len() implies in_range(nodes, #[trigger] q[i]) && rests(
        nodes,
        queues,
        q[i],
    ) by {
        assert(q.contains(q[i]));
    }
    assert(rests_at(levels, p, pos, idx));
    lemma_resting(nodes, queues);
    lemma_without(levels, p, pos, idx);
    assert forall|n: int| 0 <= n < nodes.len() implies (#[trigger] after[n]).price
        == nodes[n].price && after[n].quantity == nodes[n].quantity by {}
    assert forall|p2: u64| #[trigger] queues.contains_key(p2) implies lots(after, queues[p2])
        == lots(nodes, queues[p2]) by {
        assert(lots(after, queues[p2]) =~= lots(nodes, queues[p2]));
    }
    assert(lots(after, q.remove(pos)) =~= lots(nodes, q).remove(pos));
    assert(resting(after, fewer) =~= without(levels, idx));
    assert forall|i: SlabIndex| in_range(nodes, i) implies (#[trigger] rests(after, fewer, i)
        <==> rests(nodes, queues, i) && i != idx) by {
        let r = nodes[i.0 as int].price;
        if r == p {
            if q.contains(i) && i != idx {
                let j = q.index_of(i);
                assert(q[j] == i);
                if j < pos {
                    assert(q.remove(pos)[j] == i);
                } else {
                    assert(q.remove(pos)[j - 1] == i);
                }
            }
            if q.remove(pos).contains(i) {
                let j = q.remove(pos).index_of(i);
                if j < pos {
                    assert(q[j] == i);
                } else {
                    assert(q[j + 1] == i);
                }
            }
        }
    }
}

/// What is kept says the same of orders under other names.
pub proof fn lemma_tells_renamed<I, J>(half: HalfBook, levels: Levels<I>, name: spec_fn(I) -> J)
    requires
        tells(half, levels),
    ensures
        tells(half, renamed(levels, name)),
{
    let other = renamed(levels, name);
    assert(other.dom() =~= levels.dom());
    assert forall|p: u64| #[trigger] other.contains_key(p) implies half.table()[p].order_count
        == other[p].len() && half.table()[p].quantity == queue_total(other[p]) by {
        assert(levels.contains_key(p));
        lemma_queue_total_rename(levels[p], name);
    }
}

} // verus!
