//! A single board square, wrapped so that its index is known to be in range.

use vstd::prelude::*;

verus! {

/// One square of the board, indexed 0..64 rank-major (0 = a1, 63 = h8).
#[derive(Debug, Copy, Clone, PartialEq, Eq, Structural)]
pub struct Square(u8);

impl Square {
    /// The square's index.
    pub closed spec fn view(self) -> u8 {
        self.0
    }

    pub fn new(value: u8) -> (s: Square)
        requires
            value < 64,
        ensures
            s@ == value,
    {
        Square(value)
    }

    pub fn value(&self) -> (r: u8)
        ensures
            r == self@,
    {
        self.0
    }

    pub fn as_u8(&self) -> (r: u8)
        ensures
            r == self@,
    {
        self.value()
    }

    pub fn as_u64(&self) -> (r: u64)
        ensures
            r == self@,
    {
        self.value() as u64
    }
}

} // verus!
