//! The two sides of the game.

use vstd::prelude::*;

verus! {

/// The colour of a piece or of the side to move.
#[derive(Debug, Copy, Clone, PartialEq, Eq, Structural)]
pub enum Color {
    White,
    Black,
}

} // verus!
