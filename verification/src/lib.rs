//! A limit order book with price-time priority matching.
//!
//! Each side of the book is a sequence of price levels, best price first,
//! and each level is a FIFO queue of resting orders.  Incoming orders are
//! matched against the opposite side level by level; the unfilled part of a
//! limit order rests on its own side at its limit price.
use vstd::prelude::*;

pub mod data;
pub mod matching;
pub mod orderbook;
pub mod snapshot;
pub mod commands;
pub mod text;
pub mod session;
pub mod accounting;
pub mod priority;
pub mod ids;
pub mod reports;

verus! {

} // verus!
