use vstd::prelude::*;

verus! {

/// The two sides of an order book: an `Ask` offers to sell, a `Bid` offers
/// to buy.
#[derive(Clone, Copy, Debug, PartialEq, Eq, Structural)]
pub enum Side {
    Bid,
    Ask,
}

impl Side {
    /// The side an incoming order trades against.
    pub open spec fn spec_opposite(self) -> Side {
        if self is Ask {
            Side::Bid
        } else {
            Side::Ask
        }
    }

    /// Returns the opposite side value, used whenever an operation has to
    /// look at the other side of the book.
    #[verifier::when_used_as_spec(spec_opposite)]
    pub fn opposite(self) -> (r: Side)
        ensures
            r == self.spec_opposite(),
    {
        if self == Side::Ask {
            Side::Bid
        } else {
            Side::Ask
        }
    }
}

/// The smallest part of the engine: an immutable order record, constructed
/// by the order book when it accepts a new instruction.
#[derive(Clone, Copy, Debug, PartialEq, Eq, Structural)]
pub struct Order {
    pub id: u32,
    pub user_id: u32,
    pub side: Side,
    pub price: u32,
    pub quantity: u32,
}

impl Order {
    /// The constructor is the only explicitly implemented method for the
    /// `Order` type.
    #[must_use]
    pub fn new(id: u32, user_id: u32, side: Side, price: u32, quantity: u32) -> (r: Self)
        ensures
            r == (Order { id, user_id, side, price, quantity }),
    {
        Self { id, user_id, side, price, quantity }
    }
}

} // verus!
