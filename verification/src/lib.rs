//! Pseudo-legal chess move generation over 64-bit board masks.
//!
//! A board square is indexed 0..64, rank-major: square `i` sits on rank
//! `i / 8` and file `i % 8` (bit 0 = a1, bit 63 = h8). A [`bitboard::BitBoard`]
//! is a set of squares; attack masks, piece placement and occupancy all share
//! this representation and compose by bitwise algebra.
//!
//! The moves generated here are pseudo-legal, a known limitation kept on
//! purpose: a double pawn push does not check that the jumped-over square is
//! empty, and no move is filtered for leaving the mover's own king attacked.
//! Full legality belongs to a layer consuming this one.

pub mod bitboard;
pub mod board;
pub mod move_gen;
pub mod color;
pub mod moves;
pub mod piece;
pub mod square;
