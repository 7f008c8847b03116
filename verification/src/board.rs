//! The board state: one square set per piece kind, one per colour, the
//! combined occupancy, and the side to move, with pseudo-legal move
//! enumeration over all 64 squares.

use vstd::prelude::*;
use crate::bitboard::{bit64, lemma_bit_and_not, lemma_bit_disjoint, lemma_bit_or, BitBoard};
use crate::color::Color;
use crate::move_gen::{bishop_reach, black_pawn_reach, king_reach, knight_reach, on_board,
    rook_reach, white_pawn_reach};
use crate::move_gen::{generate_bishop_mask, generate_black_pawn_mask, generate_king_mask,
    generate_knight_mask, generate_queen_mask, generate_rook_mask, generate_white_pawn_mask};
use crate::moves::Move;
use crate::piece::Piece;

verus! {

/// A chess position: per-kind and per-colour square sets, the derived
/// combined occupancy, and whose turn it is.
pub struct Board {
    pawns: BitBoard,
    knights: BitBoard,
    bishops: BitBoard,
    rooks: BitBoard,
    queens: BitBoard,
    kings: BitBoard,
    white: BitBoard,
    black: BitBoard,
    combined: BitBoard,
    turn: Color,
}

impl Board {
    pub closed spec fn spec_pawns(self) -> u64 {
        self.pawns@
    }

    pub closed spec fn spec_knights(self) -> u64 {
        self.knights@
    }

    pub closed spec fn spec_bishops(self) -> u64 {
        self.bishops@
    }

    pub closed spec fn spec_rooks(self) -> u64 {
        self.rooks@
    }

    pub closed spec fn spec_queens(self) -> u64 {
        self.queens@
    }

    pub closed spec fn spec_kings(self) -> u64 {
        self.kings@
    }

    pub closed spec fn spec_white(self) -> u64 {
        self.white@
    }

    pub closed spec fn spec_black(self) -> u64 {
        self.black@
    }

    pub closed spec fn spec_combined(self) -> u64 {
        self.combined@
    }

    pub closed spec fn spec_turn(self) -> Color {
        self.turn
    }

    /// The board invariants: the combined set is the union of the colour
    /// sets, the colour sets are disjoint, the kind sets are pairwise
    /// disjoint, and together the kind sets cover exactly the occupied
    /// squares — so every occupied square has exactly one kind and one owner.
    pub open spec fn wf(self) -> bool {
        &&& self.spec_combined() == self.spec_white() | self.spec_black()
        &&& self.spec_white() & self.spec_black() == 0
        &&& self.spec_pawns() & self.spec_knights() == 0
        &&& self.spec_pawns() & self.spec_bishops() == 0
        &&& self.spec_pawns() & self.spec_rooks() == 0
        &&& self.spec_pawns() & self.spec_queens() == 0
        &&& self.spec_pawns() & self.spec_kings() == 0
        &&& self.spec_knights() & self.spec_bishops() == 0
        &&& self.spec_knights() & self.spec_rooks() == 0
        &&& self.spec_knights() & self.spec_queens() == 0
        &&& self.spec_knights() & self.spec_kings() == 0
        &&& self.spec_bishops() & self.spec_rooks() == 0
        &&& self.spec_bishops() & self.spec_queens() == 0
        &&& self.spec_bishops() & self.spec_kings() == 0
        &&& self.spec_rooks() & self.spec_queens() == 0
        &&& self.spec_rooks() & self.spec_kings() == 0
        &&& self.spec_queens() & self.spec_kings() == 0
        &&& (self.spec_pawns() | self.spec_knights() | self.spec_bishops() | self.spec_rooks()
            | self.spec_queens() | self.spec_kings()) == self.spec_combined()
    }

    /// The piece kind on `sq`: the first kind set holding that square, which
    /// under [`Board::wf`] is also the only one.
    pub open spec fn spec_piece_at(self, sq: int) -> Option<Piece> {
        if bit64(self.spec_pawns(), sq) {
            Some(Piece::Pawn)
        } else if bit64(self.spec_knights(), sq) {
            Some(Piece::Knight)
        } else if bit64(self.spec_bishops(), sq) {
            Some(Piece::Bishop)
        } else if bit64(self.spec_rooks(), sq) {
            Some(Piece::Rook)
        } else if bit64(self.spec_queens(), sq) {
            Some(Piece::Queen)
        } else if bit64(self.spec_kings(), sq) {
            Some(Piece::King)
        } else {
            None
        }
    }

    /// The owner of `sq`: white first, which under [`Board::wf`] is also
    /// the only candidate.
    pub open spec fn spec_color_at(self, sq: int) -> Option<Color> {
        if bit64(self.spec_white(), sq) {
            Some(Color::White)
        } else if bit64(self.spec_black(), sq) {
            Some(Color::Black)
        } else {
            None
        }
    }

    /// The occupancy of the side to move.
    pub open spec fn spec_friendly(self) -> u64 {
        if self.spec_turn() == Color::White {
            self.spec_white()
        } else {
            self.spec_black()
        }
    }

    /// `f -> t` is a pseudo-legal move of the side to move: `f` holds one of
    /// its pieces, `t` is in that piece's attack mask (combined occupancy for
    /// sliding pieces, the opposing colour set for pawn captures), and `t` is
    /// not already held by the side to move.
    pub open spec fn move_allowed(self, f: int, t: int) -> bool {
        &&& on_board(f)
        &&& on_board(t)
        &&& self.spec_color_at(f) == Some(self.spec_turn())
        &&& match self.spec_piece_at(f) {
            Some(Piece::Knight) => knight_reach(f, t),
            Some(Piece::King) => king_reach(f, t),
            Some(Piece::Rook) => rook_reach(self.spec_combined(), f, t),
            Some(Piece::Bishop) => bishop_reach(self.spec_combined(), f, t),
            Some(Piece::Queen) => rook_reach(self.spec_combined(), f, t) || bishop_reach(
                self.spec_combined(),
                f,
                t,
            ),
            Some(Piece::Pawn) => if self.spec_turn() == Color::White {
                white_pawn_reach(self.spec_black(), f, t)
            } else {
                black_pawn_reach(self.spec_white(), f, t)
            },
            None => false,
        }
        &&& !bit64(self.spec_friendly(), t)
    }

    pub fn white(&self) -> (r: BitBoard)
        ensures
            r@ == self.spec_white(),
    {
        self.white
    }

    pub fn black(&self) -> (r: BitBoard)
        ensures
            r@ == self.spec_black(),
    {
        self.black
    }

    pub fn pawns(&self) -> (r: BitBoard)
        ensures
            r@ == self.spec_pawns(),
    {
        self.pawns
    }

    pub fn knights(&self) -> (r: BitBoard)
        ensures
            r@ == self.spec_knights(),
    {
        self.knights
    }

    pub fn bishops(&self) -> (r: BitBoard)
        ensures
            r@ == self.spec_bishops(),
    {
        self.bishops
    }

    pub fn rooks(&self) -> (r: BitBoard)
        ensures
            r@ == self.spec_rooks(),
    {
        self.rooks
    }

    pub fn queens(&self) -> (r: BitBoard)
        ensures
            r@ == self.spec_queens(),
    {
        self.queens
    }

    pub fn kings(&self) -> (r: BitBoard)
        ensures
            r@ == self.spec_kings(),
    {
        self.kings
    }

    pub fn combined(&self) -> (r: BitBoard)
        ensures
            r@ == self.spec_combined(),
    {
        self.combined
    }

    pub fn turn(&self) -> (r: Color)
        ensures
            r == self.spec_turn(),
    {
        self.turn
    }

    /// The piece kind on `square`, or `None` if it is empty.
    pub fn piece_at(&self, square: u8) -> (r: Option<Piece>)
        requires
            square < 64,
        ensures
            r == self.spec_piece_at(square as int),
    {
        if self.pawns.get(square) == 1 {
            return Some(Piece::Pawn);
        }
        if self.knights.get(square) == 1 {
            return Some(Piece::Knight);
        }
        if self.bishops.get(square) == 1 {
            return Some(Piece::Bishop);
        }
        if self.rooks.get(square) == 1 {
            return Some(Piece::Rook);
        }
        if self.queens.get(square) == 1 {
            return Some(Piece::Queen);
        }
        if self.kings.get(square) == 1 {
            return Some(Piece::King);
        }
        None
    }

    /// All pseudo-legal moves of the side to move: for each occupied square
    /// of that side, the piece's attack mask less the squares the side
    /// already holds, expanded into move records. Origin squares come in
    /// increasing order and destinations in increasing order within each
    /// origin, so the output is determined by the position.
    pub fn generate_moves(&self) -> (r: Vec<Move>)
        ensures
            forall|i: int|
                0 <= i < r@.len() ==> self.move_allowed(
                    (#[trigger] r@[i]).initial_square as int,
                    r@[i].target_square as int,
                ),
            forall|f: int, t: int| #![trigger self.move_allowed(f, t)]
                self.move_allowed(f, t) ==> exists|i: int|
                    0 <= i < r@.len() && (#[trigger] r@[i]).initial_square == f
                        && r@[i].target_square == t,
            forall|i: int, j: int|
                0 <= i < j < r@.len() ==> ((#[trigger] r@[i]).initial_square
                    < (#[trigger] r@[j]).initial_square || (r@[i].initial_square
                    == r@[j].initial_square && r@[i].target_square < r@[j].target_square)),
    {
        let mut output_moves: Vec<Move> = Vec::new();
        let friendlies: BitBoard = match self.turn {
            Color::White => self.white,
            Color::Black => self.black,
        };
        let mut square: u8 = 0;
        while square < 64
            invariant
                square <= 64,
                friendlies@ == self.spec_friendly(),
                forall|i: int|
                    0 <= i < output_moves@.len() ==> self.move_allowed(
                        (#[trigger] output_moves@[i]).initial_square as int,
                        output_moves@[i].target_square as int,
                    ) && output_moves@[i].initial_square < square,
                forall|f: int, t: int| #![trigger self.move_allowed(f, t)]
                    0 <= f < square && self.move_allowed(f, t) ==> exists|i: int|
                        0 <= i < output_moves@.len() && (#[trigger] output_moves@[i]).initial_square
                            == f && output_moves@[i].target_square == t,
                forall|i: int, j: int|
                    0 <= i < j < output_moves@.len() ==> ((
                    #[trigger] output_moves@[i]).initial_square
                        < (#[trigger] output_moves@[j]).initial_square || (
                    output_moves@[i].initial_square == output_moves@[j].initial_square
                        && output_moves@[i].target_square < output_moves@[j].target_square)),
            decreases 64 - square,
        {
            let ghost pre = output_moves@;
            let maybe_piece: Option<Piece> = self.piece_at(square);
            let matches_turn: bool = match self.color_at(square) {
                Some(c) => c == self.turn,
                None => false,
            };
            if matches_turn && maybe_piece.is_some() {
                if let Some(piece) = maybe_piece {
                    let movement_mask: BitBoard = match piece {
                        Piece::Knight => generate_knight_mask(square),
                        Piece::Bishop => generate_bishop_mask(square, self.combined),
                        Piece::Rook => generate_rook_mask(square, self.combined),
                        Piece::Queen => generate_queen_mask(square, self.combined),
                        Piece::King => generate_king_mask(square),
                        Piece::Pawn => match self.turn {
                            Color::White => generate_white_pawn_mask(square, self.black),
                            Color::Black => generate_black_pawn_mask(square, self.white),
                        },
                    };
                    let movement_bitboard: BitBoard = movement_mask.bitand(friendlies.invert());
                    proof {
                        assert forall|t: int|
                            bit64(movement_bitboard@, t) <==> self.move_allowed(
                                square as int,
                                t,
                            ) by {
                            lemma_bit_and_not(movement_mask@, friendlies@, t);
                        }
                    }
                    let mut batch: Vec<Move> = Move::from_square_bitboard(square, movement_bitboard);
                    let ghost batch_snap = batch@;
                    output_moves.append(&mut batch);
                    proof {
                        assert(output_moves@ == pre + batch_snap);
                        assert(forall|i: int| 0 <= i < pre.len() ==> output_moves@[i] == pre[i]);
                        assert(forall|i: int|
                            pre.len() <= i < output_moves@.len() ==> output_moves@[i] == batch_snap[
                            i - pre.len()]);
                        assert forall|f: int, t: int|
                            0 <= f < square + 1 && self.move_allowed(f, t) implies exists|i: int|
                            0 <= i < output_moves@.len()
                                && (#[trigger] output_moves@[i]).initial_square == f
                                && output_moves@[i].target_square == t by {
                            if f == square as int {
                                assert(bit64(movement_bitboard@, t));
                                let j = choose|j: int|
                                    0 <= j < batch_snap.len() && (
                                    #[trigger] batch_snap[j].target_square) as int == t;
                                assert(output_moves@[pre.len() + j].initial_square == f);
                                assert(output_moves@[pre.len() + j].target_square == t);
                            } else {
                                let i = choose|i: int|
                                    0 <= i < pre.len() && (#[trigger] pre[i]).initial_square == f
                                        && pre[i].target_square == t;
                                assert(output_moves@[i].initial_square == f);
                            }
                        }
                    }
                }
            } else {
                proof {
                    assert forall|t: int| !self.move_allowed(square as int, t) by {}
                }
            }
            square = square + 1;
        }
        output_moves
    }

    /// The colour owning `square`, or `None` if it is empty.
    pub fn color_at(&self, square: u8) -> (r: Option<Color>)
        requires
            square < 64,
        ensures
            r == self.spec_color_at(square as int),
    {
        if self.white.get(square) == 1 {
            return Some(Color::White);
        }
        if self.black.get(square) == 1 {
            return Some(Color::Black);
        }
        None
    }
}

/// On a well-formed board every square holds at most one piece of one
/// colour, and every occupied square has both a kind and an owner: the
/// first-match lookups of [`Board::spec_piece_at`] and
/// [`Board::spec_color_at`] find the only match.
pub proof fn lemma_lookups_determined(b: Board, sq: int)
    requires
        b.wf(),
        on_board(sq),
    ensures
        bit64(b.spec_pawns(), sq) ==> b.spec_piece_at(sq) == Some(Piece::Pawn),
        bit64(b.spec_knights(), sq) ==> b.spec_piece_at(sq) == Some(Piece::Knight),
        bit64(b.spec_bishops(), sq) ==> b.spec_piece_at(sq) == Some(Piece::Bishop),
        bit64(b.spec_rooks(), sq) ==> b.spec_piece_at(sq) == Some(Piece::Rook),
        bit64(b.spec_queens(), sq) ==> b.spec_piece_at(sq) == Some(Piece::Queen),
        bit64(b.spec_kings(), sq) ==> b.spec_piece_at(sq) == Some(Piece::King),
        bit64(b.spec_white(), sq) ==> b.spec_color_at(sq) == Some(Color::White),
        bit64(b.spec_black(), sq) ==> b.spec_color_at(sq) == Some(Color::Black),
        bit64(b.spec_combined(), sq) <==> (b.spec_piece_at(sq).is_some()
            && b.spec_color_at(sq).is_some()),
{
    let p = b.spec_pawns();
    let n = b.spec_knights();
    let bi = b.spec_bishops();
    let r = b.spec_rooks();
    let q = b.spec_queens();
    let k = b.spec_kings();
    lemma_bit_disjoint(p, n, sq);
    lemma_bit_disjoint(p, bi, sq);
    lemma_bit_disjoint(p, r, sq);
    lemma_bit_disjoint(p, q, sq);
    lemma_bit_disjoint(p, k, sq);
    lemma_bit_disjoint(n, bi, sq);
    lemma_bit_disjoint(n, r, sq);
    lemma_bit_disjoint(n, q, sq);
    lemma_bit_disjoint(n, k, sq);
    lemma_bit_disjoint(bi, r, sq);
    lemma_bit_disjoint(bi, q, sq);
    lemma_bit_disjoint(bi, k, sq);
    lemma_bit_disjoint(r, q, sq);
    lemma_bit_disjoint(r, k, sq);
    lemma_bit_disjoint(q, k, sq);
    lemma_bit_disjoint(b.spec_white(), b.spec_black(), sq);
    lemma_bit_or(b.spec_white(), b.spec_black(), sq);
    lemma_bit_or(p | n | bi | r | q, k, sq);
    lemma_bit_or(p | n | bi | r, q, sq);
    lemma_bit_or(p | n | bi, r, sq);
    lemma_bit_or(p | n, bi, sq);
    lemma_bit_or(p, n, sq);
}

/// No move of a sequence of allowed moves — in particular no move that
/// [`Board::generate_moves`] returns — lands on a square the side to move
/// already holds.
pub proof fn lemma_moves_no_friendly_destination(b: Board, ms: Seq<Move>)
    requires
        forall|i: int|
            0 <= i < ms.len() ==> b.move_allowed(
                (#[trigger] ms[i]).initial_square as int,
                ms[i].target_square as int,
            ),
    ensures
        forall|i: int|
            0 <= i < ms.len() ==> !bit64(b.spec_friendly(), (#[trigger] ms[i]).target_square as int),
{
}

impl Default for Board {
    /// The standard starting position: pawns on ranks 2 and 7, the mirrored
    /// back ranks behind them, white to move.
    fn default() -> (r: Self)
        ensures
            r.spec_pawns() == 0xff00000000ff00u64,
            r.spec_knights() == 0x4200000000000042u64,
            r.spec_bishops() == 0x2400000000000024u64,
            r.spec_rooks() == 0x8100000000000081u64,
            r.spec_queens() == 0x800000000000008u64,
            r.spec_kings() == 0x1000000000000010u64,
            r.spec_white() == 0xffffu64,
            r.spec_black() == 0xffff000000000000u64,
            r.spec_combined() == 0xffff00000000ffffu64,
            r.spec_turn() == Color::White,
            r.wf(),
    {
        let r = Board {
            pawns: BitBoard::new(0xff00000000ff00),
            knights: BitBoard::new(0x4200000000000042),
            bishops: BitBoard::new(0x2400000000000024),
            rooks: BitBoard::new(0x8100000000000081),
            queens: BitBoard::new(0x800000000000008),
            kings: BitBoard::new(0x1000000000000010),
            white: BitBoard::new(0xffff),
            black: BitBoard::new(0xffff000000000000),
            combined: BitBoard::new(0xffff00000000ffff),
            turn: Color::White,
        };
        proof {
            assert(0xffff00000000ffffu64 == 0xffffu64 | 0xffff000000000000u64
                && 0xffffu64 & 0xffff000000000000u64 == 0
                && 0xff00000000ff00u64 & 0x4200000000000042u64 == 0
                && 0xff00000000ff00u64 & 0x2400000000000024u64 == 0
                && 0xff00000000ff00u64 & 0x8100000000000081u64 == 0
                && 0xff00000000ff00u64 & 0x800000000000008u64 == 0
                && 0xff00000000ff00u64 & 0x1000000000000010u64 == 0
                && 0x4200000000000042u64 & 0x2400000000000024u64 == 0
                && 0x4200000000000042u64 & 0x8100000000000081u64 == 0
                && 0x4200000000000042u64 & 0x800000000000008u64 == 0
                && 0x4200000000000042u64 & 0x1000000000000010u64 == 0
                && 0x2400000000000024u64 & 0x8100000000000081u64 == 0
                && 0x2400000000000024u64 & 0x800000000000008u64 == 0
                && 0x2400000000000024u64 & 0x1000000000000010u64 == 0
                && 0x8100000000000081u64 & 0x800000000000008u64 == 0
                && 0x8100000000000081u64 & 0x1000000000000010u64 == 0
                && 0x800000000000008u64 & 0x1000000000000010u64 == 0
                && (0xff00000000ff00u64 | 0x4200000000000042u64 | 0x2400000000000024u64
                    | 0x8100000000000081u64 | 0x800000000000008u64 | 0x1000000000000010u64)
                    == 0xffff00000000ffffu64) by (bit_vector);
        }
        r
    }
}

} // verus!
