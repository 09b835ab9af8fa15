//! The matching engine of a limit order book for a two-asset spot market.
//!
//! Each side of the book is a [`state::Slab`]: a bounded, price-ordered
//! store of resting orders. [`matching::match_orders_at`] fills an incoming
//! order against the opposite side and records every fill in the bounded
//! [`state::EventQueue`]. [`market::place_order_at`] and
//! [`market::cancel_order`] wrap matching with admission, resting and the
//! trader's balance accounting in [`state::OpenOrders`].
//!
//! Every function carries a contract over the mathematical content of these
//! structures, and every failing operation leaves its arguments unchanged
//! unless its contract says otherwise.

mod clock;
pub mod error;
pub mod event_queue;
pub mod market;
pub mod matching;
pub mod open_orders;
pub mod pubkey;
pub mod slab;
pub mod state;
