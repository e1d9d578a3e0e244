use vstd::prelude::*;
use crate::data::orders::Order;

verus! {

/// A request to the book server.
#[derive(Debug, Clone, Copy, PartialEq, Eq, Structural)]
pub enum Cmd {
    /// Execute an order.
    Order(Order),
    /// Send a snapshot of the given depth.
    Snapshot(usize),
}

} // verus!
