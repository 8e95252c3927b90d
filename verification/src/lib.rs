//! A single-instrument limit-order matching engine.
//!
//! Orders are matched by price-time priority against a two-sided book of
//! resting orders. [`model`] says what the book is and what a submission does,
//! as mathematics; [`book`] is the executable book, proved to do exactly that;
//! [`laws`] proves what holds of every submission. [`ingress`] and [`engine`]
//! are the two ends of the queue in [`queue`], which carries orders from the
//! threads that accept them to the one thread that matches them.
//!
//! Everything here is verified, except what the three calls into `rtrb` in
//! [`queue`] do: their contracts are taken from that crate.

pub mod book;
pub mod engine;
pub mod ingress;
pub mod laws;
pub mod lemmas;
pub mod model;
pub mod order;
pub mod queue;

pub use book::{BookSnapshot, OrderBook, PriceLevel};
pub use order::{Order, OrderSide, Packet, TradeExecution};
