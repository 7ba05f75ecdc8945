//! A single-instrument limit order book with price-time priority matching.
//!
//! The book keeps one ladder of price levels per side; each level owns a
//! time-ordered queue of resting orders together with aggregate statistics.
//! Placing an order matches it against the opposite ladder, best price first
//! and oldest order first within a price, and rests any remainder on its own
//! side. Cancellation works by order id through an index of stable handles.

mod arena;
pub mod linked_list;
pub mod order;
pub mod book;
pub mod price_tree;
pub mod req;
pub mod resp;
pub mod wire;
