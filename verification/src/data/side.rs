use vstd::prelude::*;

verus! {

/// The side of an order: buyers bid, sellers ask.
#[derive(Debug, Clone, Copy, PartialEq, Eq, Structural)]
pub enum Side {
    Buy,
    Sell,
}

impl Side {
    /// The other side.
    pub open spec fn flipped(self) -> Side {
        match self {
            Side::Buy => Side::Sell,
            Side::Sell => Side::Buy,
        }
    }

    /// Returns the other side.
    pub fn opposite(self) -> (r: Side)
        ensures
            r == self.flipped(),
    {
        match self {
            Side::Buy => Side::Sell,
            Side::Sell => Side::Buy,
        }
    }
}

} // verus!
