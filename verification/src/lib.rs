//! A single-instrument limit order matching engine.
//!
//! The book keeps the resting buy and sell interest of one market: every
//! accepted order waits in a FIFO queue at its price, each side indexes its
//! price levels in an ordered map, and a flat index mirrors every resting
//! order by its id.  Submitting an order either trades it against an
//! exact-quantity resting order on the opposite side, rejects it when it would
//! cross the book without such a match, or rests it; cancelling removes a
//! resting order.  Every operation reports whether the visible top of the
//! book moved.

pub mod book_side;
pub mod order;
pub mod order_book;
pub mod price_level;
mod price_map;
pub mod side_codec;

pub use order::Order;
pub use order::Side;
pub use order_book::OrderBook;
pub use order_book::OrderOutcome;
