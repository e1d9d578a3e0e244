//! The values that flow through the book: sides, orders and fills.
pub mod side;
pub mod orders;
pub mod fill;
