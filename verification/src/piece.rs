//! The closed set of piece kinds.

use vstd::prelude::*;

verus! {

/// A piece kind. The board keeps one square set per kind.
#[derive(Debug, Copy, Clone, PartialEq, Eq, Structural)]
pub enum Piece {
    Pawn,
    Knight,
    Bishop,
    Rook,
    Queen,
    King,
}

} // verus!
