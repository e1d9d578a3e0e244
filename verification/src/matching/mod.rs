//! Matching an incoming order against one side of the book.
pub mod engine;
pub mod fill;
pub mod limit;
pub mod market;
