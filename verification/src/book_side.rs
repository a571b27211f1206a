use vstd::prelude::*;

use rb_tree::RBMap;

use crate::order::Order;
use crate::price_level::PriceLevel;
use crate::price_level::first_eq_index;
use crate::price_level::first_match_index;
use crate::price_level::has_match;
use crate::price_level::sum_quantities;
use crate::price_map::entries;
use crate::price_map::rb_get;
use crate::price_map::rb_insert;
use crate::price_map::rb_len;
use crate::price_map::rb_new;
use crate::price_map::rb_peek_max;
use crate::price_map::rb_peek_min;
use crate::price_map::rb_remove;

verus! {

/// The queue resting at a price of a side, or the empty queue where no level
/// is indexed at that price.
pub open spec fn level_seq(m: Map<u32, Seq<Order>>, price: u32) -> Seq<Order> {
    if m.dom().contains(price) {
        m[price]
    } else {
        Seq::empty()
    }
}

/// Whether a side holds, at exactly `price`, some order of exactly
/// `quantity`: the condition under which a trade executes.
pub open spec fn can_trade(m: Map<u32, Seq<Order>>, price: u32, quantity: u32) -> bool {
    m.dom().contains(price) && has_match(m[price], quantity)
}

/// A side after appending `o` to the back of the queue at `o.price`,
/// creating the level on demand.
pub open spec fn side_insert(m: Map<u32, Seq<Order>>, o: Order) -> Map<u32, Seq<Order>> {
    m.insert(o.price, level_seq(m, o.price).push(o))
}

/// A side after deleting position `i` of the queue at `price`; a level
/// emptied by the deletion is removed from the side.
pub open spec fn side_remove_at(m: Map<u32, Seq<Order>>, price: u32, i: int) -> Map<
    u32,
    Seq<Order>,
> {
    if m[price].len() == 1 {
        m.remove(price)
    } else {
        m.insert(price, m[price].remove(i))
    }
}

/// Idempotent emptiness: deleting the last order of a level removes its
/// price from the side, so level lookups and best-price queries no longer
/// see that price.  `remove` and `trade` change a side exactly by
/// `side_remove_at`.
pub proof fn lemma_removing_last_order_drops_level(m: Map<u32, Seq<Order>>, price: u32, i: int)
    requires
        m[price].len() == 1,
    ensures
        !side_remove_at(m, price, i).dom().contains(price),
{
}

/// One side of the order book: its price levels, indexed by price in an
/// ordered map.  The view of a side is the map from each indexed price to
/// the queue resting there.
pub struct BookSide {
    prices: RBMap<u32, PriceLevel>,
}

impl View for BookSide {
    type V = Map<u32, Seq<Order>>;

    closed spec fn view(&self) -> Map<u32, Seq<Order>> {
        entries(self.prices).map_values(|pl: PriceLevel| pl@)
    }
}

impl BookSide {
    spec fn levels(self) -> Map<u32, PriceLevel> {
        entries(self.prices)
    }

    spec fn level_ok(self, p: u32) -> bool {
        &&& self.levels()[p].wf()
        &&& self.levels()[p].price == p
        &&& self.levels()[p]@.len() > 0
    }

    /// Well-formedness: every indexed price maps to a non-empty,
    /// well-formed level whose price is its key.
    pub closed spec fn wf(self) -> bool {
        &&& self.levels().dom().finite()
        &&& forall|p: u32| #[trigger] self.levels().dom().contains(p) ==> self.level_ok(p)
    }

    proof fn lemma_view(self)
        ensures
            self@.dom() =~= self.levels().dom(),
            forall|p: u32| #[trigger] self.levels().dom().contains(p) ==> self@[p]
                == self.levels()[p]@,
    {
    }

    #[must_use]
    pub fn new() -> (r: Self)
        ensures
            r.wf(),
            r@.dom() == Set::<u32>::empty(),
    {
        let r = Self { prices: rb_new() };
        proof {
            r.lemma_view();
        }
        r
    }

    /// Appends an order to the level at its price, creating the level on
    /// demand, and returns the level's new volume.
    pub fn append(&mut self, order: Order) -> (v: u32)
        requires
            old(self).wf(),
            sum_quantities(level_seq(old(self)@, order.price)) + order.quantity <= u32::MAX,
        ensures
            final(self).wf(),
            final(self)@ == side_insert(old(self)@, order),
            v == sum_quantities(final(self)@[order.price]),
            sum_quantities(final(self)@[order.price]) == sum_quantities(
                level_seq(old(self)@, order.price),
            ) + order.quantity,
    {
        proof {
            old(self).lemma_view();
        }
        let v: u32;
        match rb_remove(&mut self.prices, order.price) {
            Some(mut level) => {
                v = level.append(order);
                rb_insert(&mut self.prices, order.price, level);
            }
            None => {
                let mut level = PriceLevel::new(order.price);
                v = level.append(order);
                rb_insert(&mut self.prices, order.price, level);
            }
        }
        proof {
            self.lemma_view();
            assert(self@ =~~= side_insert(old(self)@, order));
            assert forall|p: u32| #[trigger] self.levels().dom().contains(p) implies self.level_ok(
                p,
            ) by {
                if p != order.price {
                    assert(self.levels()[p] == old(self).levels()[p]);
                }
            }
        }
        v
    }

    /// Removes `order` from the level at its price and returns it; returns
    /// `None` when no level is indexed at that price.  A level emptied by
    /// the removal is deleted.  Callers must only remove orders resident in
    /// the level at their price.
    pub fn remove(&mut self, order: Order) -> (r: Option<Order>)
        requires
            old(self).wf(),
            old(self)@.dom().contains(order.price) ==> old(self)@[order.price].contains(order),
        ensures
            final(self).wf(),
            !old(self)@.dom().contains(order.price) ==> r is None && final(self)@ == old(self)@,
            old(self)@.dom().contains(order.price) ==> {
                &&& r == Some(order)
                &&& final(self)@ == side_remove_at(
                    old(self)@,
                    order.price,
                    first_eq_index(old(self)@[order.price], order),
                )
            },
    {
        proof {
            old(self).lemma_view();
        }
        match rb_remove(&mut self.prices, order.price) {
            None => {
                proof {
                    self.lemma_view();
                    assert(self@ =~~= old(self)@);
                }
                None
            }
            Some(mut level) => {
                proof {
                    assert(old(self).levels().dom().contains(order.price));
                    assert(level == old(self).levels()[order.price]);
                    assert(level@ == old(self)@[order.price]);
                    crate::price_level::lemma_first_eq_index(old(self)@[order.price], order);
                }
                level.remove(order);
                if level.is_empty() {
                    proof {
                        self.lemma_view();
                        assert(old(self)@[order.price].len() == 1);
                        assert(self@ =~~= side_remove_at(
                            old(self)@,
                            order.price,
                            first_eq_index(old(self)@[order.price], order),
                        ));
                        assert(self.wf());
                    }
                } else {
                    rb_insert(&mut self.prices, order.price, level);
                    proof {
                        self.lemma_view();
                        assert(self@ =~~= side_remove_at(
                            old(self)@,
                            order.price,
                            first_eq_index(old(self)@[order.price], order),
                        ));
                        assert forall|p: u32| #[trigger]
                            self.levels().dom().contains(p) implies self.level_ok(p) by {
                            if p != order.price {
                                assert(self.levels()[p] == old(self).levels()[p]);
                            }
                        }
                    }
                }
                Some(order)
            }
        }
    }

    /// Trades against the level at exactly `price`: removes and returns the
    /// earliest-submitted order of exactly `quantity` resting there, or
    /// returns `None` when no level or no exact-quantity order exists.  A
    /// level emptied by the trade is deleted.
    pub fn trade(&mut self, price: u32, quantity: u32) -> (r: Option<Order>)
        requires
            old(self).wf(),
        ensures
            final(self).wf(),
            !can_trade(old(self)@, price, quantity) ==> r is None && final(self)@ == old(self)@,
            can_trade(old(self)@, price, quantity) ==> {
                let i = first_match_index(old(self)@[price], quantity);
                &&& r == Some(old(self)@[price][i])
                &&& final(self)@ == side_remove_at(old(self)@, price, i)
            },
    {
        proof {
            old(self).lemma_view();
        }
        match rb_remove(&mut self.prices, price) {
            None => {
                proof {
                    self.lemma_view();
                    assert(self@ =~~= old(self)@);
                }
                None
            }
            Some(mut level) => {
                proof {
                    assert(old(self).levels().dom().contains(price));
                    assert(level == old(self).levels()[price]);
                    assert(level@ == old(self)@[price]);
                    if has_match(old(self)@[price], quantity) {
                        crate::price_level::lemma_first_match_index(old(self)@[price], quantity);
                    }
                }
                let outcome = level.trade(quantity);
                if level.is_empty() {
                    proof {
                        self.lemma_view();
                        assert(can_trade(old(self)@, price, quantity));
                        assert(old(self)@[price].len() == 1);
                        assert(self@ =~~= side_remove_at(
                            old(self)@,
                            price,
                            first_match_index(old(self)@[price], quantity),
                        ));
                        assert(self.wf());
                    }
                } else {
                    rb_insert(&mut self.prices, price, level);
                    proof {
                        self.lemma_view();
                        if can_trade(old(self)@, price, quantity) {
                            assert(self@ =~~= side_remove_at(
                                old(self)@,
                                price,
                                first_match_index(old(self)@[price], quantity),
                            ));
                        } else {
                            assert(self@ =~~= old(self)@);
                        }
                        assert forall|p: u32| #[trigger]
                            self.levels().dom().contains(p) implies self.level_ok(p) by {
                            if p != price {
                                assert(self.levels()[p] == old(self).levels()[p]);
                            }
                        }
                    }
                }
                outcome
            }
        }
    }

    /// The aggregate volume resting at `price`, or `None` when no level is
    /// indexed there.
    #[must_use]
    pub fn get_price_volume(&self, price: u32) -> (r: Option<u32>)
        requires
            self.wf(),
        ensures
            self@.dom().contains(price) ==> r == Some(sum_quantities(self@[price]) as u32),
            self@.dom().contains(price) ==> sum_quantities(self@[price]) <= u32::MAX,
            !self@.dom().contains(price) ==> r is None,
    {
        proof {
            self.lemma_view();
        }
        match rb_get(&self.prices, price) {
            Some(level) => Some(level.volume),
            None => None,
        }
    }

    /// The level at `price`, or `None` when no level is indexed there.
    #[must_use]
    pub fn get_level(&self, price: u32) -> (r: Option<&PriceLevel>)
        requires
            self.wf(),
        ensures
            self@.dom().contains(price) ==> r is Some,
            !self@.dom().contains(price) ==> r is None,
            r matches Some(l) ==> {
                &&& l.price == price
                &&& l.wf()
                &&& l@ == level_seq(self@, price)
                &&& l.volume == sum_quantities(level_seq(self@, price))
            },
    {
        proof {
            self.lemma_view();
        }
        rb_get(&self.prices, price)
    }

    /// The number of indexed price levels.
    #[must_use]
    pub fn len(&self) -> (n: usize)
        requires
            self.wf(),
        ensures
            n == self@.dom().len(),
    {
        proof {
            self.lemma_view();
        }
        rb_len(&self.prices)
    }

    /// The level at the lowest indexed price, or `None` when the side is
    /// empty.
    #[must_use]
    pub fn min(&self) -> (r: Option<&PriceLevel>)
        requires
            self.wf(),
        ensures
            self@.dom().is_empty() ==> r is None,
            !self@.dom().is_empty() ==> r is Some,
            r matches Some(l) ==> {
                &&& self@.dom().contains(l.price)
                &&& l.wf()
                &&& l@ == self@[l.price]
                &&& l.volume == sum_quantities(self@[l.price])
                &&& forall|k: u32| #[trigger] self@.dom().contains(k) ==> l.price <= k
            },
    {
        proof {
            self.lemma_view();
        }
        let r = rb_peek_min(&self.prices);
        proof {
            match r {
                Some(l) => {
                    let k = choose|k: u32|
                        {
                            &&& #[trigger] entries(self.prices).dom().contains(k)
                            &&& *l == entries(self.prices)[k]
                            &&& forall|k2: u32| entries(self.prices).dom().contains(k2) ==> k <= k2
                        };
                    assert(l.price == k);
                }
                None => {}
            }
        }
        r
    }

    /// The level at the highest indexed price, or `None` when the side is
    /// empty.
    #[must_use]
    pub fn max(&self) -> (r: Option<&PriceLevel>)
        requires
            self.wf(),
        ensures
            self@.dom().is_empty() ==> r is None,
            !self@.dom().is_empty() ==> r is Some,
            r matches Some(l) ==> {
                &&& self@.dom().contains(l.price)
                &&& l.wf()
                &&& l@ == self@[l.price]
                &&& l.volume == sum_quantities(self@[l.price])
                &&& forall|k: u32| #[trigger] self@.dom().contains(k) ==> k <= l.price
            },
    {
        proof {
            self.lemma_view();
        }
        let r = rb_peek_max(&self.prices);
        proof {
            match r {
                Some(l) => {
                    let k = choose|k: u32|
                        {
                            &&& #[trigger] entries(self.prices).dom().contains(k)
                            &&& *l == entries(self.prices)[k]
                            &&& forall|k2: u32| entries(self.prices).dom().contains(k2) ==> k2 <= k
                        };
                    assert(l.price == k);
                }
                None => {}
            }
        }
        r
    }
}

} // verus!
