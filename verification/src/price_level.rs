use vstd::prelude::*;

use crate::order::Order;

verus! {

/// The sum of the quantities of all orders in a queue.  A price level's
/// `volume` field always equals this sum over its queue.
pub open spec fn sum_quantities(s: Seq<Order>) -> int
    decreases s.len(),
{
    if s.len() == 0 {
        0
    } else {
        s[0].quantity + sum_quantities(s.drop_first())
    }
}

/// Whether some order in the queue has exactly the requested quantity.
pub open spec fn has_match(s: Seq<Order>, quantity: u32) -> bool {
    exists|i: int| 0 <= i < s.len() && (#[trigger] s[i]).quantity == quantity
}

/// The position of the earliest-submitted order with exactly the requested
/// quantity; meaningful when `has_match(s, quantity)` holds.
pub open spec fn first_match_index(s: Seq<Order>, quantity: u32) -> int
    decreases s.len(),
{
    if s.len() == 0 {
        0
    } else if s[0].quantity == quantity {
        0
    } else {
        1 + first_match_index(s.drop_first(), quantity)
    }
}

/// The position of the first order in the queue equal to `o`; meaningful
/// when `s.contains(o)` holds.
pub open spec fn first_eq_index(s: Seq<Order>, o: Order) -> int
    decreases s.len(),
{
    if s.len() == 0 {
        0
    } else if s[0] == o {
        0
    } else {
        1 + first_eq_index(s.drop_first(), o)
    }
}

pub proof fn lemma_sum_nonneg(s: Seq<Order>)
    ensures
        sum_quantities(s) >= 0,
    decreases s.len(),
{
    if s.len() > 0 {
        lemma_sum_nonneg(s.drop_first());
    }
}

pub proof fn lemma_sum_push(s: Seq<Order>, o: Order)
    ensures
        sum_quantities(s.push(o)) == sum_quantities(s) + o.quantity,
    decreases s.len(),
{
    assert(s.push(o)[0] == if s.len() == 0 { o } else { s[0] });
    if s.len() == 0 {
        assert(s.push(o).drop_first() =~= Seq::<Order>::empty());
        assert(sum_quantities(Seq::<Order>::empty()) == 0);
    } else {
        assert(s.push(o).drop_first() =~= s.drop_first().push(o));
        lemma_sum_push(s.drop_first(), o);
    }
}

pub proof fn lemma_sum_remove(s: Seq<Order>, i: int)
    requires
        0 <= i < s.len(),
    ensures
        sum_quantities(s.remove(i)) == sum_quantities(s) - s[i].quantity,
    decreases s.len(),
{
    if i == 0 {
        assert(s.remove(0) =~= s.drop_first());
    } else {
        assert(s.remove(i).drop_first() =~= s.drop_first().remove(i - 1));
        lemma_sum_remove(s.drop_first(), i - 1);
    }
}

/// Each resident order's quantity is at most the whole queue's sum.
pub proof fn lemma_elem_le_sum(s: Seq<Order>, i: int)
    requires
        0 <= i < s.len(),
    ensures
        s[i].quantity <= sum_quantities(s),
    decreases s.len(),
{
    if i == 0 {
        lemma_sum_nonneg(s.drop_first());
    } else {
        lemma_elem_le_sum(s.drop_first(), i - 1);
    }
}

/// The FIFO tie-break law: when some resting order matches the requested
/// quantity exactly, `first_match_index` names a position holding such an
/// order, and every earlier position holds an order of a different quantity —
/// so a trade always takes the earliest-submitted order among equal-quantity
/// candidates.
pub proof fn lemma_first_match_index(s: Seq<Order>, quantity: u32)
    requires
        has_match(s, quantity),
    ensures
        0 <= first_match_index(s, quantity) < s.len(),
        s[first_match_index(s, quantity)].quantity == quantity,
        forall|j: int| 0 <= j < first_match_index(s, quantity) ==> (#[trigger] s[j]).quantity
            != quantity,
    decreases s.len(),
{
    if s.len() > 0 && s[0].quantity != quantity {
        assert(has_match(s.drop_first(), quantity)) by {
            let i = choose|i: int| 0 <= i < s.len() && (#[trigger] s[i]).quantity == quantity;
            assert(s.drop_first()[i - 1].quantity == quantity);
        }
        lemma_first_match_index(s.drop_first(), quantity);
        assert(forall|j: int| 0 < j < first_match_index(s, quantity) ==> (#[trigger] s[j])
            == s.drop_first()[j - 1]);
    }
}

pub proof fn lemma_first_eq_index(s: Seq<Order>, o: Order)
    requires
        s.contains(o),
    ensures
        0 <= first_eq_index(s, o) < s.len(),
        s[first_eq_index(s, o)] == o,
        forall|j: int| 0 <= j < first_eq_index(s, o) ==> s[j] != o,
    decreases s.len(),
{
    if s.len() > 0 && s[0] != o {
        assert(s.drop_first().contains(o)) by {
            let i = choose|i: int| 0 <= i < s.len() && s[i] == o;
            assert(s.drop_first()[i - 1] == o);
        }
        lemma_first_eq_index(s.drop_first(), o);
        assert(forall|j: int| 0 < j < first_eq_index(s, o) ==> s[j] == s.drop_first()[j - 1]);
    }
}

/// The volume invariant: a well-formed level's `volume` equals the sum of
/// its resident orders' quantities.  `new` establishes well-formedness and
/// `append`, `remove` and `trade` preserve it, so the equality holds after
/// any sequence of those operations.
pub proof fn lemma_volume_invariant(level: PriceLevel)
    requires
        level.wf(),
    ensures
        level.volume == sum_quantities(level@),
{
}

/// A FIFO queue of every order resting at one price, together with the
/// maintained aggregate volume of those orders.
#[derive(Debug, PartialEq)]
pub struct PriceLevel {
    pub volume: u32,
    pub price: u32,
    pub orders: Vec<Order>,
}

impl View for PriceLevel {
    type V = Seq<Order>;

    open spec fn view(&self) -> Seq<Order> {
        self.orders@
    }
}

impl PriceLevel {
    /// Well-formedness: the volume equals the sum of the resident orders'
    /// quantities, and every resident order carries this level's price.
    pub open spec fn wf(self) -> bool {
        &&& self.volume == sum_quantities(self@)
        &&& forall|i: int| 0 <= i < self@.len() ==> (#[trigger] self@[i]).price == self.price
    }

    #[must_use]
    pub fn new(price: u32) -> (r: Self)
        ensures
            r.price == price,
            r.volume == 0,
            r@ == Seq::<Order>::empty(),
            r.wf(),
    {
        Self { volume: 0, price, orders: Vec::new() }
    }

    /// Appends an order to the back of the queue and adds its quantity to
    /// the volume.
    pub fn append(&mut self, order: Order) -> (v: u32)
        requires
            old(self).wf(),
            order.price == old(self).price,
            sum_quantities(old(self)@) + order.quantity <= u32::MAX,
        ensures
            final(self).wf(),
            final(self)@ == old(self)@.push(order),
            final(self).price == old(self).price,
            final(self).volume == old(self).volume + order.quantity,
            v == final(self).volume,
    {
        proof {
            lemma_sum_push(self.orders@, order);
        }
        self.volume = self.volume + order.quantity;
        self.orders.push(order);
        self.volume
    }

    /// Removes the first order equal to `order` from the queue and subtracts
    /// its quantity from the volume.  Callers must only remove orders known
    /// to be resident.
    pub fn remove(&mut self, order: Order) -> (v: u32)
        requires
            old(self).wf(),
            old(self)@.contains(order),
        ensures
            final(self).wf(),
            final(self)@ == old(self)@.remove(first_eq_index(old(self)@, order)),
            final(self).price == old(self).price,
            final(self).volume == old(self).volume - order.quantity,
            v == final(self).volume,
    {
        let ghost s = self.orders@;
        let ghost idx = first_eq_index(s, order);
        proof {
            lemma_first_eq_index(s, order);
            lemma_elem_le_sum(s, idx);
            lemma_sum_remove(s, idx);
        }
        let n: usize = self.orders.len();
        let mut i: usize = 0;
        while self.orders[i] != order
            invariant
                self.orders@ == s,
                self.volume == old(self).volume,
                self.price == old(self).price,
                n == s.len(),
                0 <= i <= idx < s.len(),
                idx == first_eq_index(s, order),
                s[idx] == order,
                forall|j: int| 0 <= j < i ==> s[j] != order,
            decreases idx - i,
        {
            assert(i < idx);
            i = i + 1;
        }
        assert(i == idx);
        self.orders.remove(i);
        self.volume = self.volume - order.quantity;
        self.volume
    }

    /// The length of the price level is the length of its queue.
    #[must_use]
    pub fn len(&self) -> (n: usize)
        ensures
            n == self@.len(),
    {
        self.orders.len()
    }

    /// The level is empty when its queue is; an order book deletes such a
    /// level from its side.
    #[must_use]
    pub fn is_empty(&self) -> (b: bool)
        ensures
            b == (self@.len() == 0),
    {
        self.orders.is_empty()
    }

    /// The oldest resident order, if any.
    #[must_use]
    pub fn front(&self) -> (r: Option<&Order>)
        ensures
            self@.len() == 0 ==> r is None,
            self@.len() > 0 ==> (r matches Some(o) && *o == self@[0]),
    {
        if self.orders.len() == 0 {
            None
        } else {
            Some(&self.orders[0])
        }
    }

    /// Scans the queue in arrival order and removes the first order whose
    /// quantity equals the requested quantity exactly; returns it, or `None`
    /// when no resident order matches.  There is no partial fill: a trade
    /// only ever executes against a single exact-quantity order.
    pub fn trade(&mut self, quantity: u32) -> (r: Option<Order>)
        requires
            old(self).wf(),
        ensures
            final(self).wf(),
            final(self).price == old(self).price,
            has_match(old(self)@, quantity) ==> {
                let i = first_match_index(old(self)@, quantity);
                &&& r == Some(old(self)@[i])
                &&& final(self)@ == old(self)@.remove(i)
                &&& final(self).volume == old(self).volume - quantity
            },
            !has_match(old(self)@, quantity) ==> r is None && *final(self) == *old(self),
    {
        let ghost s = self.orders@;
        let mut i: usize = 0;
        while i < self.orders.len()
            invariant
                old(self).wf(),
                *self == *old(self),
                self.orders@ == s,
                0 <= i <= s.len(),
                forall|j: int| 0 <= j < i ==> (#[trigger] s[j]).quantity != quantity,
            decreases s.len() - i,
        {
            if self.orders[i].quantity == quantity {
                let target: Order = self.orders[i];
                proof {
                    assert(has_match(s, quantity));
                    lemma_first_match_index(s, quantity);
                    assert(first_match_index(s, quantity) == i);
                    assert(s.contains(target));
                    lemma_first_eq_index(s, target);
                    assert(first_eq_index(s, target) == i);
                }
                self.remove(target);
                return Some(target);
            }
            i = i + 1;
        }
        proof {
            assert(!has_match(s, quantity));
        }
        None
    }
}

} // verus!
