use vstd::prelude::*;

use std::collections::HashMap;

use crate::book_side::BookSide;
use crate::book_side::can_trade;
use crate::book_side::level_seq;
use crate::book_side::side_insert;
use crate::book_side::side_remove_at;
use crate::order::Order;
use crate::order::Side;
use crate::price_level::first_eq_index;
use crate::price_level::first_match_index;
use crate::price_level::lemma_first_eq_index;
use crate::price_level::lemma_first_match_index;
use crate::price_level::lemma_sum_nonneg;
use crate::price_level::lemma_sum_push;
use crate::price_level::lemma_sum_remove;
use crate::price_level::sum_quantities;

verus! {

broadcast use vstd::std_specs::hash::group_hash_axioms;

/// The side comparator: on the ask side a lower price is at least as good,
/// on the bid side a higher one.
pub open spec fn better_or_equal(side: Side, a: u32, b: u32) -> bool {
    if side is Ask {
        a <= b
    } else {
        a >= b
    }
}

/// Whether `p` is the best (most aggressive) indexed price of a side: the
/// lowest ask or the highest bid.
pub open spec fn is_best_price(side: Side, m: Map<u32, Seq<Order>>, p: u32) -> bool {
    &&& m.dom().contains(p)
    &&& forall|q: u32| #[trigger] m.dom().contains(q) ==> better_or_equal(side, p, q)
}

/// The best indexed price of a side; meaningful when the side is non-empty.
pub open spec fn best_price(side: Side, m: Map<u32, Seq<Order>>) -> u32 {
    choose|p: u32| is_best_price(side, m, p)
}

/// The best indexed price of a side, or `None` when the side is empty.
pub open spec fn best_opt(side: Side, m: Map<u32, Seq<Order>>) -> Option<u32> {
    if m.dom().is_empty() {
        None
    } else {
        Some(best_price(side, m))
    }
}

/// At most one price of a side is best.
pub proof fn lemma_best_price_unique(side: Side, m: Map<u32, Seq<Order>>, p: u32)
    requires
        is_best_price(side, m, p),
    ensures
        best_price(side, m) == p,
{
    let b = best_price(side, m);
    assert(is_best_price(side, m, b));
    assert(better_or_equal(side, b, p));
    assert(better_or_equal(side, p, b));
}

/// A finite, non-empty side has a best price.
pub proof fn lemma_best_exists(side: Side, m: Map<u32, Seq<Order>>)
    requires
        m.dom().finite(),
        !m.dom().is_empty(),
    ensures
        is_best_price(side, m, best_price(side, m)),
    decreases m.dom().len(),
{
    let x = m.dom().choose();
    assert(m.dom().contains(x));
    let rest = m.remove(x);
    assert(rest.dom() =~= m.dom().remove(x));
    if rest.dom().is_empty() {
        assert forall|q: u32| #[trigger] m.dom().contains(q) implies better_or_equal(
            side,
            x,
            q,
        ) by {
            if q != x {
                assert(rest.dom().contains(q));
            }
        }
        assert(is_best_price(side, m, x));
    } else {
        lemma_best_exists(side, rest);
        let b = best_price(side, rest);
        let cand = if better_or_equal(side, x, b) {
            x
        } else {
            b
        };
        assert forall|q: u32| #[trigger] m.dom().contains(q) implies better_or_equal(
            side,
            cand,
            q,
        ) by {
            if q != x {
                assert(rest.dom().contains(q));
                assert(better_or_equal(side, b, q));
            }
        }
        assert(is_best_price(side, m, cand));
    }
    let w = choose|p: u32| is_best_price(side, m, p);
    assert(is_best_price(side, m, w));
}

/// The queue at one price of one side is sound: non-empty, its total
/// quantity fits the volume counter, every order carries the level's price
/// and the side's tag, and no two resident orders share an id.
pub open spec fn side_level_ok(side: Side, p: u32, s: Seq<Order>) -> bool {
    &&& s.len() > 0
    &&& sum_quantities(s) <= u32::MAX
    &&& forall|i: int|
        0 <= i < s.len() ==> (#[trigger] s[i]).price == p && s[i].side == side
    &&& forall|i: int, j: int|
        0 <= i < j < s.len() ==> (#[trigger] s[i]).id != (#[trigger] s[j]).id
}

/// Every queue of a side is sound.
pub open spec fn side_map_ok(side: Side, m: Map<u32, Seq<Order>>) -> bool {
    &&& m.dom().finite()
    &&& forall|p: u32| #[trigger] m.dom().contains(p) ==> side_level_ok(side, p, m[p])
}

/// The mathematical state of an order book: each side as a map from price
/// to the queue resting there, and the flat index from order id to order.
#[verifier::ext_equal]
pub struct BookModel {
    pub asks: Map<u32, Seq<Order>>,
    pub bids: Map<u32, Seq<Order>>,
    pub index: Map<u32, Order>,
}

impl BookModel {
    /// The map of the given side.
    pub open spec fn side_map(self, side: Side) -> Map<u32, Seq<Order>> {
        if side is Ask {
            self.asks
        } else {
            self.bids
        }
    }

    /// The book with the given side replaced.
    pub open spec fn with_side(self, side: Side, m: Map<u32, Seq<Order>>) -> BookModel {
        if side is Ask {
            BookModel { asks: m, ..self }
        } else {
            BookModel { bids: m, ..self }
        }
    }

    /// The book with the flat index replaced.
    pub open spec fn with_index(self, ix: Map<u32, Order>) -> BookModel {
        BookModel { index: ix, ..self }
    }

    /// Whether `o` rests in the book: the side it names holds it, queued at
    /// the price it names.
    pub open spec fn resident(self, o: Order) -> bool {
        &&& self.side_map(o.side).dom().contains(o.price)
        &&& self.side_map(o.side)[o.price].contains(o)
    }

    /// Every id in the index names an order resting in the matching side.
    pub open spec fn index_to_book(self) -> bool {
        forall|id: u32| #[trigger]
            self.index.dom().contains(id) ==> self.index[id].id == id && self.resident(
                self.index[id],
            )
    }

    /// Every resting order is indexed under its id, as an identical copy.
    pub open spec fn book_to_index(self) -> bool {
        forall|side: Side, p: u32, i: int|
            #![trigger self.side_map(side)[p][i]]
            self.side_map(side).dom().contains(p) && 0 <= i < self.side_map(side)[p].len() ==> {
                let o = self.side_map(side)[p][i];
                self.index.dom().contains(o.id) && self.index[o.id] == o
            }
    }

    /// Well-formedness: both sides are sound, the index is finite, and the
    /// index and the sides describe exactly the same resting orders.
    pub open spec fn wf(self) -> bool {
        &&& side_map_ok(Side::Ask, self.asks)
        &&& side_map_ok(Side::Bid, self.bids)
        &&& self.index.dom().finite()
        &&& self.index_to_book()
        &&& self.book_to_index()
    }

    /// No resting bid is priced at or above any resting ask.
    pub open spec fn uncrossed(self) -> bool {
        forall|pa: u32, pb: u32|
            #[trigger] self.asks.dom().contains(pa) && #[trigger] self.bids.dom().contains(pb)
                ==> pb < pa
    }
}

/// The book after a new order is appended: the order joins the back of the
/// queue at its price on its side, and the index gains its id.
pub open spec fn append_model(m: BookModel, o: Order) -> BookModel {
    m.with_side(o.side, side_insert(m.side_map(o.side), o)).with_index(m.index.insert(o.id, o))
}

/// The book after the order at position `i` of the queue at `p` on `side`
/// leaves the book: it leaves the queue (an emptied level is deleted) and
/// the index loses its id.
pub open spec fn remove_at_model(m: BookModel, side: Side, p: u32, i: int) -> BookModel {
    m.with_side(side, side_remove_at(m.side_map(side), p, i)).with_index(
        m.index.remove(m.side_map(side)[p][i].id),
    )
}

/// Appending a fresh order preserves well-formedness.
pub proof fn lemma_append_model_wf(m: BookModel, o: Order)
    requires
        m.wf(),
        !m.index.dom().contains(o.id),
        sum_quantities(level_seq(m.side_map(o.side), o.price)) + o.quantity <= u32::MAX,
    ensures
        append_model(m, o).wf(),
{
    let m2 = append_model(m, o);
    let own = m.side_map(o.side);
    let s2 = level_seq(own, o.price).push(o);
    lemma_sum_push(level_seq(own, o.price), o);
    assert forall|i: int| 0 <= i < s2.len() implies (#[trigger] s2[i]).price == o.price
        && s2[i].side == o.side by {}
    assert forall|i: int, j: int| 0 <= i < j < s2.len() implies (#[trigger] s2[i]).id != (
    #[trigger] s2[j]).id by {
        if j == s2.len() - 1 {
            assert(m.index.dom().contains(s2[i].id));
        }
    }
    assert(side_level_ok(o.side, o.price, s2));
    assert(side_map_ok(Side::Ask, m2.asks) && side_map_ok(Side::Bid, m2.bids)) by {
        assert forall|side: Side, p: u32| #[trigger]
            m2.side_map(side).dom().contains(p) implies side_level_ok(
            side,
            p,
            m2.side_map(side)[p],
        ) by {
            if side != o.side || p != o.price {
                assert(m2.side_map(side)[p] == m.side_map(side)[p]);
                assert(m.side_map(side).dom().contains(p));
            }
        }
        assert(m2.asks.dom().finite() && m2.bids.dom().finite());
    }
    assert(m2.index_to_book()) by {
        assert forall|id: u32| #[trigger] m2.index.dom().contains(id) implies m2.index[id].id == id
            && m2.resident(m2.index[id]) by {
            if id == o.id {
                assert(m2.side_map(o.side)[o.price][s2.len() - 1] == o);
            } else {
                let r = m.index[id];
                assert(m.resident(r));
                let j = choose|j: int|
                    0 <= j < m.side_map(r.side)[r.price].len() && m.side_map(r.side)[r.price][j]
                        == r;
                if r.side == o.side && r.price == o.price {
                    assert(m2.side_map(r.side)[r.price][j] == r);
                } else {
                    assert(m2.side_map(r.side)[r.price] == m.side_map(r.side)[r.price]);
                }
                assert(m2.side_map(r.side)[r.price].contains(r));
            }
        }
    }
    assert(m2.book_to_index()) by {
        assert forall|side: Side, p: u32, i: int|
            #![trigger m2.side_map(side)[p][i]]
            m2.side_map(side).dom().contains(p) && 0 <= i < m2.side_map(side)[p].len() implies {
            let e = m2.side_map(side)[p][i];
            m2.index.dom().contains(e.id) && m2.index[e.id] == e
        } by {
            let e = m2.side_map(side)[p][i];
            if side == o.side && p == o.price {
                if i == s2.len() - 1 {
                    assert(e == o);
                } else {
                    assert(e == level_seq(own, o.price)[i]);
                    assert(own.dom().contains(p) && 0 <= i < m.side_map(side)[p].len());
                    assert(m.side_map(side)[p][i] == e);
                    assert(m.index.dom().contains(e.id) && m.index[e.id] == e);
                    assert(e.id != o.id);
                }
            } else {
                assert(m.side_map(side).dom().contains(p));
                assert(m.side_map(side)[p][i] == e);
                assert(m.index.dom().contains(e.id) && m.index[e.id] == e);
                assert(e.id != o.id);
            }
        }
    }
}

/// Removing a resting order preserves well-formedness, and cannot cross an
/// uncrossed book.
pub proof fn lemma_remove_at_model_wf(m: BookModel, side: Side, p: u32, i: int)
    requires
        m.wf(),
        m.side_map(side).dom().contains(p),
        0 <= i < m.side_map(side)[p].len(),
    ensures
        remove_at_model(m, side, p, i).wf(),
        m.uncrossed() ==> remove_at_model(m, side, p, i).uncrossed(),
{
    let m2 = remove_at_model(m, side, p, i);
    let s = m.side_map(side)[p];
    let gone = s[i];
    let s2 = s.remove(i);
    assert(gone.id == m.index[gone.id].id && m.index[gone.id] == gone) by {
        assert(m.side_map(side)[p][i] == gone);
    }
    assert(gone.price == p && gone.side == side);
    lemma_sum_remove(s, i);
    lemma_sum_nonneg(s2);
    assert forall|sd: Side, q: u32| #[trigger]
        m2.side_map(sd).dom().contains(q) implies side_level_ok(sd, q, m2.side_map(sd)[q]) by {
        if sd == side && q == p {
            assert(s.len() > 1);
            assert(m2.side_map(sd)[q] == s2);
            assert forall|a: int, b: int| 0 <= a < b < s2.len() implies (#[trigger] s2[a]).id != (
            #[trigger] s2[b]).id by {
                let a0 = if a < i {
                    a
                } else {
                    a + 1
                };
                let b0 = if b < i {
                    b
                } else {
                    b + 1
                };
                assert(s2[a] == s[a0] && s2[b] == s[b0]);
            }
            assert(side_level_ok(sd, q, s2));
        } else {
            assert(m2.side_map(sd)[q] == m.side_map(sd)[q]);
            assert(m.side_map(sd).dom().contains(q));
        }
    }
    assert(side_map_ok(Side::Ask, m2.asks) && side_map_ok(Side::Bid, m2.bids)) by {
        assert(m2.asks.dom().finite() && m2.bids.dom().finite());
    }
    assert(m2.index_to_book()) by {
        assert forall|id: u32| #[trigger] m2.index.dom().contains(id) implies m2.index[id].id == id
            && m2.resident(m2.index[id]) by {
            let r = m.index[id];
            assert(m.index.dom().contains(id));
            assert(m.resident(r));
            let j = choose|j: int|
                0 <= j < m.side_map(r.side)[r.price].len() && m.side_map(r.side)[r.price][j] == r;
            if r.side == side && r.price == p {
                assert(r != gone) by {
                    assert(m.side_map(side)[p][j] == r);
                    if r == gone {
                        assert(m.index[gone.id] == gone);
                        assert(id == gone.id);
                    }
                }
                assert(j != i);
                assert(s.len() > 1) by {
                    if s.len() == 1 {
                        assert(j == 0 && i == 0);
                    }
                }
                let j2 = if j < i {
                    j
                } else {
                    j - 1
                };
                assert(s2[j2] == s[j] && s[j] == r);
                assert(m2.side_map(r.side)[r.price] == s2);
                assert(m2.side_map(r.side)[r.price].contains(r));
                assert(m2.side_map(r.side).dom().contains(r.price));
            } else {
                assert(m2.side_map(r.side)[r.price] == m.side_map(r.side)[r.price]);
                assert(m2.side_map(r.side).dom().contains(r.price)) by {
                    if r.side == side && s.len() == 1 {
                        assert(r.price != p);
                    }
                }
                assert(m2.side_map(r.side)[r.price][j] == r);
                assert(m2.side_map(r.side)[r.price].contains(r));
            }
        }
    }
    assert(m2.book_to_index()) by {
        assert forall|sd: Side, q: u32, k: int|
            #![trigger m2.side_map(sd)[q][k]]
            m2.side_map(sd).dom().contains(q) && 0 <= k < m2.side_map(sd)[q].len() implies {
            let e = m2.side_map(sd)[q][k];
            m2.index.dom().contains(e.id) && m2.index[e.id] == e
        } by {
            let e = m2.side_map(sd)[q][k];
            if sd == side && q == p {
                let k0 = if k < i {
                    k
                } else {
                    k + 1
                };
                assert(e == s[k0]);
                assert(m.side_map(sd)[q][k0] == e);
                assert(m.index.dom().contains(e.id) && m.index[e.id] == e);
                assert(e.id != gone.id) by {
                    assert(k0 != i);
                    assert(m.side_map(side)[p][i] == gone);
                }
            } else {
                assert(m.side_map(sd).dom().contains(q));
                assert(m.side_map(sd)[q][k] == e);
                assert(m.index.dom().contains(e.id) && m.index[e.id] == e);
                assert(e.id != gone.id) by {
                    assert(e.side == sd && e.price == q);
                    assert(e != gone);
                    if e.id == gone.id {
                        assert(m.index[e.id] == e && m.index[gone.id] == gone);
                    }
                }
            }
        }
    }
    if m.uncrossed() {
        assert forall|pa: u32, pb: u32|
            #[trigger] m2.asks.dom().contains(pa) && #[trigger] m2.bids.dom().contains(
                pb,
            ) implies pb < pa by {
            assert(m.asks.dom().contains(pa));
            assert(m.bids.dom().contains(pb));
        }
    }
}

/// Possible outcomes of an instruction; an outcome holds everything the
/// driver needs to report what happened.
#[derive(Debug, PartialEq)]
pub enum OrderOutcome {
    /// The order would cross the book without an exact-quantity match.
    Rejected { user_id: u32, order_id: u32 },
    /// The instruction was carried out without moving the visible top of
    /// the book.
    Created { user_id: u32, order_id: u32 },
    /// The instruction moved the top of one side; the new top price and its
    /// volume are absent when the side emptied.
    TopOfBook { user_id: u32, order_id: u32, side: Side, top_price: Option<u32>, volume: Option<
        u32,
    > },
    /// An exact-quantity trade executed; both parties are named, and the
    /// optional fields report the opposite side's new top when the trade
    /// consumed the old one.
    Traded {
        user_id: u32,
        order_id: u32,
        user_id_buy: u32,
        order_id_buy: u32,
        user_id_sell: u32,
        order_id_sell: u32,
        price: u32,
        quantity: u32,
        side: Option<Side>,
        top_price: Option<u32>,
        volume: Option<u32>,
    },
}

/// The book and outcome produced by one submission.
///
/// First a trade is attempted on the opposite side at exactly the incoming
/// price and quantity; if an exact-quantity maker rests there, it leaves the
/// book and both parties are reported, together with the opposite side's new
/// top when the trade consumed the old one.  Otherwise an order whose price
/// reaches the opposite side's best is rejected rather than rested crossing.
/// Otherwise the order rests: it starts or joins the queue at its price, and
/// the outcome reports the new top of its own side when it is at least as
/// good as the old one (or the side was empty), else only an acknowledgment.
pub open spec fn submit_model(
    m: BookModel,
    side: Side,
    price: u32,
    quantity: u32,
    user_id: u32,
    order_id: u32,
) -> (BookModel, OrderOutcome) {
    let opp = side.spec_opposite();
    let om = m.side_map(opp);
    if can_trade(om, price, quantity) {
        let i = first_match_index(om[price], quantity);
        let maker = om[price][i];
        let m2 = remove_at_model(m, opp, price, i);
        let tops: (Option<Side>, Option<u32>, Option<u32>) = if best_price(opp, om) == price {
            let nm = m2.side_map(opp);
            if nm.dom().is_empty() {
                (Some(opp), None, None)
            } else {
                let nt = best_price(opp, nm);
                (Some(opp), Some(nt), Some(sum_quantities(nm[nt]) as u32))
            }
        } else {
            (None, None, None)
        };
        let ids: (u32, u32, u32, u32) = if maker.side is Ask {
            (user_id, order_id, maker.user_id, maker.id)
        } else {
            (maker.user_id, maker.id, user_id, order_id)
        };
        (
            m2,
            OrderOutcome::Traded {
                user_id,
                order_id,
                user_id_buy: ids.0,
                order_id_buy: ids.1,
                user_id_sell: ids.2,
                order_id_sell: ids.3,
                price,
                quantity,
                side: tops.0,
                top_price: tops.1,
                volume: tops.2,
            },
        )
    } else if !om.dom().is_empty() && better_or_equal(side, price, best_price(opp, om)) {
        (m, OrderOutcome::Rejected { user_id, order_id })
    } else {
        let o = Order { id: order_id, user_id, side, price, quantity };
        let own = m.side_map(side);
        let m2 = append_model(m, o);
        let nm = m2.side_map(side);
        if own.dom().is_empty() || better_or_equal(side, price, best_price(side, own)) {
            let nt = best_price(side, nm);
            (
                m2,
                OrderOutcome::TopOfBook {
                    user_id,
                    order_id,
                    side,
                    top_price: Some(nt),
                    volume: Some(sum_quantities(nm[nt]) as u32),
                },
            )
        } else {
            (m2, OrderOutcome::Created { user_id, order_id })
        }
    }
}

/// The book and outcome produced by one cancellation: the indexed order
/// leaves the book; the outcome reports the side's new top when the order
/// rested at the old best price, else only an acknowledgment.
pub open spec fn cancel_model(m: BookModel, order_id: u32) -> (BookModel, OrderOutcome) {
    let o = m.index[order_id];
    let own = m.side_map(o.side);
    let i = first_eq_index(own[o.price], o);
    let m2 = remove_at_model(m, o.side, o.price, i);
    if best_price(o.side, own) != o.price {
        (m2, OrderOutcome::Created { user_id: o.user_id, order_id })
    } else {
        let nm = m2.side_map(o.side);
        if nm.dom().is_empty() {
            (
                m2,
                OrderOutcome::TopOfBook {
                    user_id: o.user_id,
                    order_id,
                    side: o.side,
                    top_price: None,
                    volume: None,
                },
            )
        } else {
            let nt = best_price(o.side, nm);
            (
                m2,
                OrderOutcome::TopOfBook {
                    user_id: o.user_id,
                    order_id,
                    side: o.side,
                    top_price: Some(nt),
                    volume: Some(sum_quantities(nm[nt]) as u32),
                },
            )
        }
    }
}

/// Index/book consistency: in a well-formed book an order id is indexed
/// exactly when a structurally identical order rests in the matching side's
/// queue, and the indexed copy is that resting order.
pub proof fn lemma_index_book_consistency(m: BookModel, id: u32)
    requires
        m.wf(),
    ensures
        m.index.dom().contains(id) <==> exists|o: Order| o.id == id && #[trigger] m.resident(o),
        m.index.dom().contains(id) ==> m.index[id].id == id && m.resident(m.index[id]),
{
    if m.index.dom().contains(id) {
        assert(m.index[id].id == id && m.resident(m.index[id]));
    }
    if exists|o: Order| o.id == id && #[trigger] m.resident(o) {
        let o = choose|o: Order| o.id == id && #[trigger] m.resident(o);
        let s = m.side_map(o.side)[o.price];
        let j = choose|j: int| 0 <= j < s.len() && s[j] == o;
        assert(m.side_map(o.side)[o.price][j] == o);
        assert(m.index.dom().contains(id));
    }
}

/// No silent crossing: submitting any order to a well-formed, uncrossed
/// book leaves it uncrossed — no resting crossing order survives admission.
pub proof fn lemma_submit_preserves_uncrossed(
    m: BookModel,
    side: Side,
    price: u32,
    quantity: u32,
    user_id: u32,
    order_id: u32,
)
    requires
        m.wf(),
        m.uncrossed(),
    ensures
        submit_model(m, side, price, quantity, user_id, order_id).0.uncrossed(),
{
    let opp = side.spec_opposite();
    let om = m.side_map(opp);
    let m2 = submit_model(m, side, price, quantity, user_id, order_id).0;
    if can_trade(om, price, quantity) {
        lemma_first_match_index(om[price], quantity);
        lemma_remove_at_model_wf(m, opp, price, first_match_index(om[price], quantity));
    } else if !om.dom().is_empty() && better_or_equal(side, price, best_price(opp, om)) {
    } else {
        if !om.dom().is_empty() {
            lemma_best_exists(opp, om);
        }
        assert forall|pa: u32, pb: u32|
            #[trigger] m2.asks.dom().contains(pa) && #[trigger] m2.bids.dom().contains(
                pb,
            ) implies pb < pa by {
            if side is Ask {
                assert(m2.bids == m.bids);
                if pa != price {
                    assert(m.asks.dom().contains(pa));
                } else {
                    assert(better_or_equal(opp, best_price(opp, om), pb));
                }
            } else {
                assert(m2.asks == m.asks);
                if pb != price {
                    assert(m.bids.dom().contains(pb));
                } else {
                    assert(better_or_equal(opp, best_price(opp, om), pa));
                }
            }
        }
    }
}

/// No silent crossing, as a caller observes it: whenever both sides of an
/// uncrossed book rest orders, the best bid price is strictly below the
/// best ask price.
pub proof fn lemma_no_crossing(m: BookModel, a: u32, b: u32)
    requires
        m.uncrossed(),
        is_best_price(Side::Ask, m.asks, a),
        is_best_price(Side::Bid, m.bids, b),
    ensures
        b < a,
{
}

/// The executable side comparator, deciding whether `a` is at least as good
/// as `b` on the given side.
fn price_better_or_equal(side: Side, a: u32, b: u32) -> (r: bool)
    ensures
        r == better_or_equal(side, a, b),
{
    if side == Side::Ask {
        a <= b
    } else {
        a >= b
    }
}

/// The order book: the two sides, plus a flat index from order id to order
/// so that a cancellation finds its order without a search.
pub struct OrderBook {
    orders: HashMap<u32, Order>,
    asks: BookSide,
    bids: BookSide,
}

impl View for OrderBook {
    type V = BookModel;

    closed spec fn view(&self) -> BookModel {
        BookModel { asks: self.asks@, bids: self.bids@, index: self.orders@ }
    }
}

impl OrderBook {
    /// Well-formedness: both sides' level structures are sound and the
    /// book's mathematical state is well-formed.
    pub closed spec fn wf(self) -> bool {
        &&& self.asks.wf()
        &&& self.bids.wf()
        &&& self@.wf()
    }

    #[must_use]
    pub fn new() -> (r: Self)
        ensures
            r.wf(),
            r@.asks.dom() == Set::<u32>::empty(),
            r@.bids.dom() == Set::<u32>::empty(),
            r@.index.dom() == Set::<u32>::empty(),
            r@.uncrossed(),
    {
        let r = Self { orders: HashMap::new(), asks: BookSide::new(), bids: BookSide::new() };
        proof {
            assert(r@.index.dom() =~= Set::<u32>::empty());
        }
        r
    }

    /// The best (lowest) resting ask price, or `None` when the ask side is
    /// empty.
    #[must_use]
    pub fn best_ask_price(&self) -> (r: Option<u32>)
        requires
            self.wf(),
        ensures
            r == best_opt(Side::Ask, self@.asks),
            r matches Some(p) ==> is_best_price(Side::Ask, self@.asks, p),
            r is None ==> self@.asks.dom().is_empty(),
    {
        match self.asks.min() {
            Some(level) => {
                proof {
                    assert(is_best_price(Side::Ask, self@.asks, level.price));
                    lemma_best_price_unique(Side::Ask, self@.asks, level.price);
                }
                Some(level.price)
            }
            None => None,
        }
    }

    /// The best (highest) resting bid price, or `None` when the bid side is
    /// empty.
    #[must_use]
    pub fn best_bid_price(&self) -> (r: Option<u32>)
        requires
            self.wf(),
        ensures
            r == best_opt(Side::Bid, self@.bids),
            r matches Some(p) ==> is_best_price(Side::Bid, self@.bids, p),
            r is None ==> self@.bids.dom().is_empty(),
    {
        match self.bids.max() {
            Some(level) => {
                proof {
                    assert(is_best_price(Side::Bid, self@.bids, level.price));
                    lemma_best_price_unique(Side::Bid, self@.bids, level.price);
                }
                Some(level.price)
            }
            None => None,
        }
    }

    /// The best resting price of the given side.
    fn get_best_for_side(&self, side: Side) -> (r: Option<u32>)
        requires
            self.wf(),
        ensures
            r == best_opt(side, self@.side_map(side)),
            r matches Some(p) ==> is_best_price(side, self@.side_map(side), p),
            r is None ==> self@.side_map(side).dom().is_empty(),
    {
        if side == Side::Ask {
            self.best_ask_price()
        } else {
            self.best_bid_price()
        }
    }

    /// The aggregate volume resting at `price` on `side`, or `None` when no
    /// level is indexed there.  A driver can use this to check that a new
    /// order's quantity still fits the level's volume counter.
    #[must_use]
    pub fn get_price_volume(&self, side: Side, price: u32) -> (r: Option<u32>)
        requires
            self.wf(),
        ensures
            self@.side_map(side).dom().contains(price) ==> r == Some(
                sum_quantities(self@.side_map(side)[price]) as u32,
            ),
            !self@.side_map(side).dom().contains(price) ==> r is None,
    {
        match side {
            Side::Ask => self.asks.get_price_volume(price),
            Side::Bid => self.bids.get_price_volume(price),
        }
    }

    /// The resting order indexed under `order_id`, if any.
    #[must_use]
    pub fn get_order(&self, order_id: u32) -> (r: Option<&Order>)
        requires
            self.wf(),
        ensures
            self@.index.dom().contains(order_id) ==> (r matches Some(o) && *o
                == self@.index[order_id]),
            !self@.index.dom().contains(order_id) ==> r is None,
    {
        self.orders.get(&order_id)
    }

    /// Appends an order to its side and indexes it, then returns the side's
    /// new top price and the volume resting there.
    pub fn append(&mut self, order: Order) -> (r: (Option<u32>, Option<u32>))
        requires
            old(self).wf(),
            !old(self)@.index.dom().contains(order.id),
            sum_quantities(level_seq(old(self)@.side_map(order.side), order.price))
                + order.quantity <= u32::MAX,
        ensures
            final(self).wf(),
            final(self)@ == append_model(old(self)@, order),
            r.0 == best_opt(order.side, final(self)@.side_map(order.side)),
            r.0 is Some,
            r.0 matches Some(t) ==> r.1 == Some(
                sum_quantities(final(self)@.side_map(order.side)[t]) as u32,
            ),
    {
        self.orders.insert(order.id, order);
        match order.side {
            Side::Ask => {
                self.asks.append(order);
            }
            Side::Bid => {
                self.bids.append(order);
            }
        }
        proof {
            assert(self@ =~~= append_model(old(self)@, order));
            lemma_append_model_wf(old(self)@, order);
        }
        let top = self.get_best_for_side(order.side);
        let volume = match top {
            Some(t) => {
                match order.side {
                    Side::Ask => self.asks.get_price_volume(t),
                    Side::Bid => self.bids.get_price_volume(t),
                }
            }
            None => None,
        };
        proof {
            assert(self@.side_map(order.side).dom().contains(order.price));
        }
        (top, volume)
    }

    /// Removes a resting order from its side and from the index, and
    /// returns it.  Callers must name an order held in the index.
    pub fn remove(&mut self, order: Order) -> (r: Option<Order>)
        requires
            old(self).wf(),
            old(self)@.index.dom().contains(order.id),
            old(self)@.index[order.id] == order,
        ensures
            final(self).wf(),
            final(self)@ == remove_at_model(
                old(self)@,
                order.side,
                order.price,
                first_eq_index(old(self)@.side_map(order.side)[order.price], order),
            ),
            r == Some(order),
            old(self)@.uncrossed() ==> final(self)@.uncrossed(),
    {
        proof {
            assert(old(self)@.resident(order));
            lemma_first_eq_index(old(self)@.side_map(order.side)[order.price], order);
        }
        self.orders.remove(&order.id);
        let removed = match order.side {
            Side::Ask => self.asks.remove(order),
            Side::Bid => self.bids.remove(order),
        };
        proof {
            let i = first_eq_index(old(self)@.side_map(order.side)[order.price], order);
            assert(old(self)@.side_map(order.side)[order.price][i].id == order.id);
            assert(self@ =~~= remove_at_model(old(self)@, order.side, order.price, i));
            lemma_remove_at_model_wf(old(self)@, order.side, order.price, i);
        }
        removed
    }

    /// Attempts to trade the incoming order against the opposite side at
    /// exactly its price and quantity; returns `None`, changing nothing,
    /// when no exact-quantity maker rests there.
    fn try_trade(
        &mut self,
        side: Side,
        price: u32,
        quantity: u32,
        user_id: u32,
        order_id: u32,
    ) -> (r: Option<OrderOutcome>)
        requires
            old(self).wf(),
        ensures
            final(self).wf(),
            !can_trade(old(self)@.side_map(side.spec_opposite()), price, quantity) ==> r is None
                && final(self)@ == old(self)@,
            can_trade(old(self)@.side_map(side.spec_opposite()), price, quantity) ==> {
                &&& final(self)@ == submit_model(
                    old(self)@,
                    side,
                    price,
                    quantity,
                    user_id,
                    order_id,
                ).0
                &&& r == Some(submit_model(old(self)@, side, price, quantity, user_id, order_id).1)
            },
            old(self)@.uncrossed() ==> final(self)@.uncrossed(),
    {
        let ghost m = old(self)@;
        let ghost om = m.side_map(side.spec_opposite());
        let opp = side.opposite();
        let top_price = self.get_best_for_side(opp);
        let traded = match opp {
            Side::Ask => self.asks.trade(price, quantity),
            Side::Bid => self.bids.trade(price, quantity),
        };
        match traded {
            None => {
                proof {
                    assert(self@ =~~= m);
                }
                None
            }
            Some(maker) => {
                proof {
                    assert(can_trade(om, price, quantity));
                    lemma_first_match_index(om[price], quantity);
                }
                self.orders.remove(&maker.id);
                proof {
                    let i = first_match_index(om[price], quantity);
                    assert(maker == om[price][i]);
                    assert(self@ =~~= remove_at_model(m, side.spec_opposite(), price, i));
                    lemma_remove_at_model_wf(m, side.spec_opposite(), price, i);
                    assert(self.wf());
                    if m.uncrossed() {
                        lemma_submit_preserves_uncrossed(m, side, price, quantity, user_id, order_id);
                    }
                }
                let ids: (u32, u32, u32, u32) = if maker.side == Side::Ask {
                    (user_id, order_id, maker.user_id, maker.id)
                } else {
                    (maker.user_id, maker.id, user_id, order_id)
                };
                let prior = top_price.unwrap();
                let tops: (Option<Side>, Option<u32>, Option<u32>) = if prior == price {
                    let new_top = self.get_best_for_side(opp);
                    let vol = match new_top {
                        Some(t) => {
                            match opp {
                                Side::Ask => self.asks.get_price_volume(t),
                                Side::Bid => self.bids.get_price_volume(t),
                            }
                        }
                        None => None,
                    };
                    (Some(opp), new_top, vol)
                } else {
                    (None, None, None)
                };
                Some(
                    OrderOutcome::Traded {
                        user_id,
                        order_id,
                        user_id_buy: ids.0,
                        order_id_buy: ids.1,
                        user_id_sell: ids.2,
                        order_id_sell: ids.3,
                        price,
                        quantity,
                        side: tops.0,
                        top_price: tops.1,
                        volume: tops.2,
                    },
                )
            }
        }
    }

    /// Submits an order: trades it against an exact-quantity resting maker
    /// on the opposite side, rejects it when its price reaches the opposite
    /// side's best without such a match, and rests it otherwise, reporting
    /// the new top of its side when it becomes (or starts) the best level.
    pub fn submit_order(
        &mut self,
        side: Side,
        price: u32,
        quantity: u32,
        user_id: u32,
        order_id: u32,
    ) -> (r: OrderOutcome)
        requires
            old(self).wf(),
            !old(self)@.index.dom().contains(order_id),
            sum_quantities(level_seq(old(self)@.side_map(side), price)) + quantity <= u32::MAX,
        ensures
            final(self).wf(),
            final(self)@ == submit_model(old(self)@, side, price, quantity, user_id, order_id).0,
            r == submit_model(old(self)@, side, price, quantity, user_id, order_id).1,
            old(self)@.uncrossed() ==> final(self)@.uncrossed(),
    {
        let ghost m = old(self)@;
        proof {
            if m.uncrossed() {
                lemma_submit_preserves_uncrossed(m, side, price, quantity, user_id, order_id);
            }
        }
        match self.try_trade(side, price, quantity, user_id, order_id) {
            Some(outcome) => {
                return outcome;
            }
            None => {}
        }
        let own_best = self.get_best_for_side(side);
        let opp_best = self.get_best_for_side(side.opposite());
        if let Some(best) = opp_best {
            if price_better_or_equal(side, price, best) {
                return OrderOutcome::Rejected { user_id, order_id };
            }
        }
        let order = Order::new(order_id, user_id, side, price, quantity);
        match own_best {
            Some(best) => {
                if price_better_or_equal(side, price, best) {
                    let (top_price, volume) = self.append(order);
                    return OrderOutcome::TopOfBook { user_id, order_id, top_price, volume, side };
                }
            }
            None => {
                let (top_price, volume) = self.append(order);
                return OrderOutcome::TopOfBook { user_id, order_id, top_price, volume, side };
            }
        }
        self.append(order);
        OrderOutcome::Created { user_id, order_id }
    }

    /// Cancels the resting order indexed under `order_id`: it leaves the
    /// book, and the outcome reports its side's new top when the order
    /// rested at the old best price.  Callers must name an indexed id.
    pub fn cancel_order(&mut self, order_id: u32) -> (r: OrderOutcome)
        requires
            old(self).wf(),
            old(self)@.index.dom().contains(order_id),
        ensures
            final(self).wf(),
            final(self)@ == cancel_model(old(self)@, order_id).0,
            r == cancel_model(old(self)@, order_id).1,
            old(self)@.uncrossed() ==> final(self)@.uncrossed(),
    {
        let ghost m = old(self)@;
        proof {
            if m.uncrossed() {
                lemma_cancel_preserves_uncrossed(m, order_id);
            }
        }
        let order = *self.orders.get(&order_id).unwrap();
        let side = order.side;
        proof {
            assert(m.resident(order));
        }
        let top = self.get_best_for_side(side).unwrap();
        self.remove(order);
        if top != order.price {
            return OrderOutcome::Created { user_id: order.user_id, order_id };
        }
        let top_price = self.get_best_for_side(side);
        let volume = match top_price {
            Some(t) => {
                match side {
                    Side::Ask => self.asks.get_price_volume(t),
                    Side::Bid => self.bids.get_price_volume(t),
                }
            }
            None => None,
        };
        OrderOutcome::TopOfBook { user_id: order.user_id, order_id, side, top_price, volume }
    }
}

/// Cancelling an indexed order of a well-formed, uncrossed book leaves the
/// book uncrossed.
pub proof fn lemma_cancel_preserves_uncrossed(m: BookModel, order_id: u32)
    requires
        m.wf(),
        m.uncrossed(),
        m.index.dom().contains(order_id),
    ensures
        cancel_model(m, order_id).0.uncrossed(),
{
    let o = m.index[order_id];
    lemma_first_eq_index(m.side_map(o.side)[o.price], o);
    lemma_remove_at_model_wf(
        m,
        o.side,
        o.price,
        first_eq_index(m.side_map(o.side)[o.price], o),
    );
}

} // verus!
