//! Move records: an origin square paired with a destination square.

use vstd::prelude::*;
use crate::bitboard::bit64;
use crate::bitboard::BitBoard;

verus! {

/// One candidate move: from `initial_square` to `target_square`, both 0..64.
#[derive(Debug, Copy, Clone, PartialEq, Eq, Structural)]
pub struct Move {
    pub initial_square: u8,
    pub target_square: u8,
}

impl Move {
    pub fn new(initial_square: u8, target_square: u8) -> (m: Self)
        ensures
            m.initial_square == initial_square,
            m.target_square == target_square,
    {
        Move { initial_square, target_square }
    }

    /// Expand a destination set into one move per set square, all sharing the
    /// origin `square`, destinations in increasing order.
    pub fn from_square_bitboard(square: u8, bitboard: BitBoard) -> (r: Vec<Move>)
        ensures
            forall|i: int|
                0 <= i < r@.len() ==> (#[trigger] r@[i]).initial_square == square && bit64(
                    bitboard@,
                    r@[i].target_square as int,
                ),
            forall|i: int, j: int|
                0 <= i < j < r@.len() ==> r@[i].target_square < r@[j].target_square,
            forall|t: int|
                bit64(bitboard@, t) ==> exists|i: int|
                    0 <= i < r@.len() && (#[trigger] r@[i].target_square) as int == t,
    {
        let indices: Vec<u8> = bitboard.find_set_bits();
        let mut moves: Vec<Move> = Vec::new();
        let mut k: usize = 0;
        while k < indices.len()
            invariant
                k <= indices@.len(),
                moves@.len() == k,
                forall|i: int|
                    0 <= i < indices@.len() ==> bit64(bitboard@, #[trigger] (indices@[i] as int)),
                forall|i: int, j: int|
                    0 <= i < j < indices@.len() ==> indices@[i] < indices@[j],
                forall|t: int| bit64(bitboard@, t) ==> indices@.contains(t as u8),
                forall|i: int|
                    0 <= i < k ==> (#[trigger] moves@[i]).initial_square == square
                        && moves@[i].target_square == indices@[i],
            decreases indices@.len() - k,
        {
            let ghost prev = moves@;
            moves.push(Move::new(square, indices[k]));
            k = k + 1;
            proof {
                assert(forall|i: int| 0 <= i < prev.len() ==> moves@[i] == prev[i]);
                assert(moves@[k - 1].target_square == indices@[k - 1]);
            }
        }
        proof {
            assert forall|t: int| bit64(bitboard@, t) implies exists|i: int|
                0 <= i < moves@.len() && (#[trigger] moves@[i].target_square) as int == t by {
                assert(indices@.contains(t as u8));
                let i = choose|i: int| 0 <= i < indices@.len() && indices@[i] == t as u8;
                assert(moves@[i].target_square as int == t);
            }
        }
        moves
    }
}

impl Default for Move {
    /// A move from square 0 to square 0.
    fn default() -> (m: Self)
        ensures
            m.initial_square == 0,
            m.target_square == 0,
    {
        Move { initial_square: 0, target_square: 0 }
    }
}

} // verus!
