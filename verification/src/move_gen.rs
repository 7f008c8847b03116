//! Attack-mask generation: for each piece kind, the set of squares a piece on
//! a given origin square can reach, with wraparound past the board edges
//! suppressed and, for sliding pieces, rays stopped at the first occupied
//! square (that square included).

use vstd::prelude::*;
use crate::bitboard::{bit64, popcount64, lemma_bit_or, lemma_bit_onehot, lemma_bit_zero,
    lemma_bit_ext, BitBoard};
use crate::bitboard::{A_FILE, B_FILE, G_FILE, H_FILE, RANK_1, RANK_2, RANK_4, RANK_5, RANK_7, RANK_8};
use vstd::arithmetic::div_mod::{lemma_fundamental_div_mod, lemma_fundamental_div_mod_converse,
    lemma_mod_bound};
use vstd::math::min;

verus! {

/// The rank (row, 0..8) of square `s`.
pub open spec fn rank_of(s: int) -> int {
    s / 8
}

/// The file (column, 0..8) of square `s`.
pub open spec fn file_of(s: int) -> int {
    s % 8
}

/// Is `s` a square index?
pub open spec fn on_board(s: int) -> bool {
    0 <= s < 64
}

/// `t` is a king move away from `s`: a distinct square at Chebyshev
/// distance one.
pub open spec fn king_reach(s: int, t: int) -> bool {
    on_board(s) && on_board(t) && t != s && -1 <= rank_of(t) - rank_of(s) <= 1 && -1 <= file_of(t)
        - file_of(s) <= 1
}

/// `t` is a knight leap away from `s`: rank and file distances (1,2) or (2,1).
pub open spec fn knight_reach(s: int, t: int) -> bool {
    on_board(s) && on_board(t) && {
        let dr = vstd::math::abs(rank_of(t) - rank_of(s)) as int;
        let df = vstd::math::abs(file_of(t) - file_of(s)) as int;
        (dr == 1 && df == 2) || (dr == 2 && df == 1)
    }
}

/// `t` is a white-pawn move from `s`, given the opposing occupancy `opp`:
/// single push up, double push landing on rank 4 (index 3), or a diagonal
/// capture onto an opposing piece. Pseudo-legal: pushes do not test occupancy.
pub open spec fn white_pawn_reach(opp: u64, s: int, t: int) -> bool {
    on_board(s) && on_board(t) && ((t == s + 8) || (t == s + 16 && rank_of(t) == 3) || ((t == s + 7
        && file_of(t) == file_of(s) - 1 || t == s + 9 && file_of(t) == file_of(s) + 1) && bit64(
        opp,
        t,
    )))
}

/// `t` is a black-pawn move from `s`: the mirror of [`white_pawn_reach`],
/// moving down the board with the double push landing on rank 5 (index 4).
pub open spec fn black_pawn_reach(opp: u64, s: int, t: int) -> bool {
    on_board(s) && on_board(t) && ((t == s - 8) || (t == s - 16 && rank_of(t) == 4) || ((t == s - 7
        && file_of(t) == file_of(s) + 1 || t == s - 9 && file_of(t) == file_of(s) - 1) && bit64(
        opp,
        t,
    )))
}

/// The king mask as the original shift-and-exclude formula.
pub open spec fn king_mask_val(s: u64) -> u64 {
    ((1u64 << s) << 7) & !H_FILE & !RANK_1 | ((1u64 << s) << 8) & !RANK_1 | ((1u64 << s) << 9)
        & !A_FILE & !RANK_1 | ((1u64 << s) << 1) & !A_FILE | ((1u64 << s) >> 7) & !A_FILE & !RANK_8
        | ((1u64 << s) >> 8) & !RANK_8 | ((1u64 << s) >> 9) & !H_FILE & !RANK_8 | ((1u64 << s) >> 1)
        & !H_FILE
}

/// Bit `t` of the king formula is exactly king reachability.
proof fn lemma_king_mask_bits(s: u64, t: u64)
    requires
        s < 64,
        t < 64,
    ensures
        bit64(king_mask_val(s), t as int) <==> king_reach(s as int, t as int),
{
    let m = king_mask_val(s);
    assert((m & (1u64 << t) != 0) <==> (t != s && t / 8 <= s / 8 + 1 && s / 8 <= t / 8 + 1 && t % 8
        <= s % 8 + 1 && s % 8 <= t % 8 + 1)) by (bit_vector)
        requires
            s < 64,
            t < 64,
            m == king_mask_val(s),
    ;
}

/// A king has between 3 (corner) and 8 (interior) destination squares.
pub proof fn lemma_king_mask_count(s: u64)
    requires
        s < 64,
    ensures
        3 <= popcount64(king_mask_val(s)) <= 8,
{
    let m = king_mask_val(s);
    assert(3 <= popcount64(m) && popcount64(m) <= 8) by (bit_vector)
        requires
            s < 64,
            m == king_mask_val(s),
    ;
}

/// The eight squares adjacent to `square`, wraparound suppressed.
pub fn generate_king_mask(square: u8) -> (r: BitBoard)
    requires
        square < 64,
    ensures
        r@ == king_mask_val(square as u64),
        forall|t: int| #![trigger bit64(r@, t)] bit64(r@, t) <==> king_reach(square as int, t),
{
    let s: u64 = square as u64;
    let p: u64 = 1u64 << s;
    let mut attacks: u64 = (p << 7) & !H_FILE & !RANK_1;  // up left
    attacks = attacks | (p << 8) & !RANK_1;  // up
    attacks = attacks | (p << 9) & !A_FILE & !RANK_1;  // up right
    attacks = attacks | (p << 1) & !A_FILE;  // right
    attacks = attacks | (p >> 7) & !A_FILE & !RANK_8;  // down right
    attacks = attacks | (p >> 8) & !RANK_8;  // down
    attacks = attacks | (p >> 9) & !H_FILE & !RANK_8;  // down left
    attacks = attacks | (p >> 1) & !H_FILE;  // left
    proof {
        assert(attacks == king_mask_val(s));
        assert forall|t: int| bit64(attacks, t) <==> king_reach(s as int, t) by {
            if 0 <= t < 64 {
                lemma_king_mask_bits(s, t as u64);
            }
        }
    }
    BitBoard::new(attacks)
}

/// The knight mask as the original shift-and-exclude formula.
pub open spec fn knight_mask_val(s: u64) -> u64 {
    ((1u64 << s) << 6) & !RANK_1 & !G_FILE & !H_FILE | ((1u64 << s) << 15) & !RANK_1 & !RANK_2
        & !H_FILE | ((1u64 << s) << 17) & !RANK_1 & !RANK_2 & !A_FILE | ((1u64 << s) << 10)
        & !RANK_1 & !A_FILE & !B_FILE | ((1u64 << s) >> 6) & !RANK_8 & !A_FILE & !B_FILE | ((1u64
        << s) >> 15) & !RANK_7 & !RANK_8 & !A_FILE | ((1u64 << s) >> 17) & !RANK_7 & !RANK_8
        & !H_FILE | ((1u64 << s) >> 10) & !RANK_8 & !G_FILE & !H_FILE
}

/// Bit `t` of the knight formula is exactly knight reachability.
proof fn lemma_knight_mask_bits(s: u64, t: u64)
    requires
        s < 64,
        t < 64,
    ensures
        bit64(knight_mask_val(s), t as int) <==> knight_reach(s as int, t as int),
{
    let m = knight_mask_val(s);
    assert((m & (1u64 << t) != 0) <==> (((t / 8 == s / 8 + 1 || s / 8 == t / 8 + 1) && (t % 8 == s
        % 8 + 2 || s % 8 == t % 8 + 2)) || ((t / 8 == s / 8 + 2 || s / 8 == t / 8 + 2) && (t % 8
        == s % 8 + 1 || s % 8 == t % 8 + 1)))) by (bit_vector)
        requires
            s < 64,
            t < 64,
            m == knight_mask_val(s),
    ;
}

/// A knight has between 2 (corner) and 8 (interior) destination squares.
pub proof fn lemma_knight_mask_count(s: u64)
    requires
        s < 64,
    ensures
        2 <= popcount64(knight_mask_val(s)) <= 8,
{
    let m = knight_mask_val(s);
    assert(2 <= popcount64(m) && popcount64(m) <= 8) by (bit_vector)
        requires
            s < 64,
            m == knight_mask_val(s),
    ;
}

/// The up-to-eight knight-leap squares from `square`, wraparound suppressed.
pub fn generate_knight_mask(square: u8) -> (r: BitBoard)
    requires
        square < 64,
    ensures
        r@ == knight_mask_val(square as u64),
        forall|t: int| #![trigger bit64(r@, t)] bit64(r@, t) <==> knight_reach(square as int, t),
{
    let s: u64 = square as u64;
    let p: u64 = 1u64 << s;
    let mut attacks: u64 = (p << 6) & !RANK_1 & !G_FILE & !H_FILE;  // up1 left2
    attacks = attacks | (p << 15) & !RANK_1 & !RANK_2 & !H_FILE;  // up2 left1
    attacks = attacks | (p << 17) & !RANK_1 & !RANK_2 & !A_FILE;  // up2 right1
    attacks = attacks | (p << 10) & !RANK_1 & !A_FILE & !B_FILE;  // up1 right2
    attacks = attacks | (p >> 6) & !RANK_8 & !A_FILE & !B_FILE;  // down1 right2
    attacks = attacks | (p >> 15) & !RANK_7 & !RANK_8 & !A_FILE;  // down2 right1
    attacks = attacks | (p >> 17) & !RANK_7 & !RANK_8 & !H_FILE;  // down2 left1
    attacks = attacks | (p >> 10) & !RANK_8 & !G_FILE & !H_FILE;  // down1 left2
    proof {
        assert(attacks == knight_mask_val(s));
        assert forall|t: int| bit64(attacks, t) <==> knight_reach(s as int, t) by {
            if 0 <= t < 64 {
                lemma_knight_mask_bits(s, t as u64);
            }
        }
    }
    BitBoard::new(attacks)
}

/// The white-pawn mask as the original shift formula.
pub open spec fn white_pawn_mask_val(s: u64, opp: u64) -> u64 {
    ((1u64 << s) << 8) | ((1u64 << s) << 16) & RANK_4 | ((1u64 << s) << 7) & !H_FILE & opp | ((1u64
        << s) << 9) & !A_FILE & opp
}

/// Bit `t` of the white-pawn formula is exactly white-pawn reachability.
proof fn lemma_white_pawn_mask_bits(s: u64, opp: u64, t: u64)
    requires
        s < 64,
        t < 64,
    ensures
        bit64(white_pawn_mask_val(s, opp), t as int) <==> white_pawn_reach(opp, s as int, t as int),
{
    let m = white_pawn_mask_val(s, opp);
    assert((m & (1u64 << t) != 0) <==> ((t == s + 8) || (t == s + 16 && t / 8 == 3) || (t == s + 7
        && t % 8 + 1 == s % 8 && opp & (1u64 << t) != 0) || (t == s + 9 && t % 8 == s % 8 + 1 && opp
        & (1u64 << t) != 0))) by (bit_vector)
        requires
            s < 64,
            t < 64,
            m == white_pawn_mask_val(s, opp),
    ;
}

/// White pawn moves from `square`: push, double push onto rank 4, and
/// captures onto squares of `opposites`.
pub fn generate_white_pawn_mask(square: u8, opposites: BitBoard) -> (r: BitBoard)
    requires
        square < 64,
    ensures
        r@ == white_pawn_mask_val(square as u64, opposites@),
        forall|t: int| #![trigger bit64(r@, t)]
            bit64(r@, t) <==> white_pawn_reach(opposites@, square as int, t),
{
    let s: u64 = square as u64;
    let opp: u64 = opposites.value();
    let p: u64 = 1u64 << s;
    let mut attacks: u64 = p << 8;  // up1
    attacks = attacks | (p << 16) & RANK_4;  // up2 (land on rank 4)
    attacks = attacks | (p << 7) & !H_FILE & opp;
    attacks = attacks | (p << 9) & !A_FILE & opp;
    proof {
        assert(attacks == white_pawn_mask_val(s, opp));
        assert forall|t: int| bit64(attacks, t) <==> white_pawn_reach(opp, s as int, t) by {
            if 0 <= t < 64 {
                lemma_white_pawn_mask_bits(s, opp, t as u64);
            }
        }
    }
    BitBoard::new(attacks)
}

/// The black-pawn mask as the original shift formula.
pub open spec fn black_pawn_mask_val(s: u64, opp: u64) -> u64 {
    ((1u64 << s) >> 8) | ((1u64 << s) >> 16) & RANK_5 | ((1u64 << s) >> 7) & !A_FILE & opp | ((1u64
        << s) >> 9) & !H_FILE & opp
}

/// Bit `t` of the black-pawn formula is exactly black-pawn reachability.
proof fn lemma_black_pawn_mask_bits(s: u64, opp: u64, t: u64)
    requires
        s < 64,
        t < 64,
    ensures
        bit64(black_pawn_mask_val(s, opp), t as int) <==> black_pawn_reach(opp, s as int, t as int),
{
    let m = black_pawn_mask_val(s, opp);
    assert((m & (1u64 << t) != 0) <==> ((t + 8 == s) || (t + 16 == s && t / 8 == 4) || (t + 7 == s
        && t % 8 == s % 8 + 1 && opp & (1u64 << t) != 0) || (t + 9 == s && t % 8 + 1 == s % 8 && opp
        & (1u64 << t) != 0))) by (bit_vector)
        requires
            s < 64,
            t < 64,
            m == black_pawn_mask_val(s, opp),
    ;
}

/// Black pawn moves from `square`: push, double push onto rank 5, and
/// captures onto squares of `opposites`.
pub fn generate_black_pawn_mask(square: u8, opposites: BitBoard) -> (r: BitBoard)
    requires
        square < 64,
    ensures
        r@ == black_pawn_mask_val(square as u64, opposites@),
        forall|t: int| #![trigger bit64(r@, t)]
            bit64(r@, t) <==> black_pawn_reach(opposites@, square as int, t),
{
    let s: u64 = square as u64;
    let opp: u64 = opposites.value();
    let p: u64 = 1u64 << s;
    let mut attacks: u64 = p >> 8;  // down1
    attacks = attacks | (p >> 16) & RANK_5;  // down2 (land on rank 5)
    attacks = attacks | (p >> 7) & !A_FILE & opp;
    attacks = attacks | (p >> 9) & !H_FILE & opp;
    proof {
        assert(attacks == black_pawn_mask_val(s, opp));
        assert forall|t: int| bit64(attacks, t) <==> black_pawn_reach(opp, s as int, t) by {
            if 0 <= t < 64 {
                lemma_black_pawn_mask_bits(s, opp, t as u64);
            }
        }
    }
    BitBoard::new(attacks)
}

/// A pawn double push is in the mask only when it lands on the fourth rank
/// from the pawn's own side: rank 4 (index 3) for white, rank 5 (index 4)
/// for black.
pub proof fn lemma_pawn_double_push_rank(opp: u64, s: int, t: int)
    ensures
        white_pawn_reach(opp, s, t) && t == s + 16 ==> rank_of(t) == 3,
        black_pawn_reach(opp, s, t) && t == s - 16 ==> rank_of(t) == 4,
{
}

/// A white pawn's diagonal capture square is in the mask iff the opposing
/// side occupies it.
pub proof fn lemma_white_pawn_capture_iff(opp: u64, s: int, t: int)
    requires
        on_board(s),
        on_board(t),
        (t == s + 7 && file_of(t) == file_of(s) - 1) || (t == s + 9 && file_of(t) == file_of(s)
            + 1),
    ensures
        white_pawn_reach(opp, s, t) <==> bit64(opp, t),
{
}

/// A black pawn's diagonal capture square is in the mask iff the opposing
/// side occupies it.
pub proof fn lemma_black_pawn_capture_iff(opp: u64, s: int, t: int)
    requires
        on_board(s),
        on_board(t),
        (t == s - 7 && file_of(t) == file_of(s) + 1) || (t == s - 9 && file_of(t) == file_of(s)
            - 1),
    ensures
        black_pawn_reach(opp, s, t) <==> bit64(opp, t),
{
}

/// The square `k` steps from `s` along a ray of per-step offset `d`.
pub open spec fn ray_sq(s: int, d: int, k: int) -> int {
    s + k * d
}

/// The first `k - 1` steps of the ray from `s` land on empty squares of `occ`.
pub open spec fn ray_clear(occ: u64, s: int, d: int, k: int) -> bool {
    forall|j: int| 1 <= j < k ==> !bit64(occ, #[trigger] ray_sq(s, d, j))
}

/// `t` lies on the ray from `s` (offset `d`, at most `maxk` steps) with every
/// strictly earlier ray square empty in `occ`: the ray walks up to the first
/// occupied square and includes it.
pub open spec fn ray_reach(occ: u64, s: int, d: int, maxk: int, t: int) -> bool {
    exists|k: int| 1 <= k <= maxk && t == #[trigger] ray_sq(s, d, k) && ray_clear(occ, s, d, k)
}

/// `t` is rook-reachable from `s` under occupancy `occ`: along one of the
/// four rank/file rays, stopped inclusively at the first occupied square.
pub open spec fn rook_reach(occ: u64, s: int, t: int) -> bool {
    ray_reach(occ, s, 8, 7 - rank_of(s), t) || ray_reach(occ, s, -8, rank_of(s), t) || ray_reach(
        occ,
        s,
        1,
        7 - file_of(s),
        t,
    ) || ray_reach(occ, s, -1, file_of(s), t)
}

/// `t` is bishop-reachable from `s` under occupancy `occ`: along one of the
/// four diagonal rays, stopped inclusively at the first occupied square.
pub open spec fn bishop_reach(occ: u64, s: int, t: int) -> bool {
    ray_reach(occ, s, 9, min(7 - rank_of(s), 7 - file_of(s)), t) || ray_reach(
        occ,
        s,
        -7,
        min(rank_of(s), 7 - file_of(s)),
        t,
    ) || ray_reach(occ, s, -9, min(rank_of(s), file_of(s)), t) || ray_reach(
        occ,
        s,
        7,
        min(7 - rank_of(s), file_of(s)),
        t,
    )
}

/// A square splits into its rank and file.
proof fn lemma_sq_parts(s: int)
    requires
        on_board(s),
    ensures
        s == 8 * rank_of(s) + file_of(s),
        0 <= rank_of(s) <= 7,
        0 <= file_of(s) <= 7,
{
    lemma_fundamental_div_mod(s, 8);
    lemma_mod_bound(s, 8);
}

/// A rank and a file compose into a square.
proof fn lemma_sq_make(r: int, f: int)
    requires
        0 <= r < 8,
        0 <= f < 8,
    ensures
        on_board(8 * r + f),
        rank_of(8 * r + f) == r,
        file_of(8 * r + f) == f,
{
    lemma_fundamental_div_mod_converse(8 * r + f, 8, r, f);
}

/// Walk a single ray from `s`: `maxk` steps of offset `delta` upward (`up`)
/// or downward, accumulating squares, stopping at (and keeping) the first
/// square occupied in `occ`.
fn ray_mask(s: u64, delta: u64, up: bool, maxk: u64, occ: u64) -> (r: u64)
    requires
        s < 64,
        1 <= delta <= 9,
        maxk <= 7,
        up ==> s + delta * maxk < 64,
        !up ==> delta * maxk <= s,
    ensures
        forall|t: int| #![trigger bit64(r, t)]
            bit64(r, t) <==> ray_reach(
                occ,
                s as int,
                if up {
                    delta as int
                } else {
                    -(delta as int)
                },
                maxk as int,
                t,
            ),
{
    let ghost d: int = if up {
        delta as int
    } else {
        -(delta as int)
    };
    let ghost si: int = s as int;
    let mut r: u64 = 0;
    let mut cur: u64 = s;
    let mut k: u64 = 0;
    let mut blocked: bool = false;
    proof {
        assert forall|t: int| !bit64(0u64, t) by {
            lemma_bit_zero(t);
        }
    }
    while k < maxk && !blocked
        invariant
            s < 64,
            1 <= delta <= 9,
            maxk <= 7,
            k <= maxk,
            si == s as int,
            d == (if up {
                delta as int
            } else {
                -(delta as int)
            }),
            up ==> s + delta * maxk < 64,
            !up ==> delta * maxk <= s,
            cur < 64,
            cur as int == ray_sq(si, d, k as int),
            forall|t: int| #![trigger bit64(r, t)]
                bit64(r, t) <==> (exists|j: int|
                    1 <= j <= k && t == #[trigger] ray_sq(si, d, j) && ray_clear(occ, si, d, j)),
            !blocked ==> ray_clear(occ, si, d, k + 1),
            blocked ==> 1 <= k && bit64(occ, ray_sq(si, d, k as int)) && ray_clear(
                occ,
                si,
                d,
                k as int,
            ),
        decreases maxk - k,
    {
        proof {
            let kk = k as int;
            assert((kk + 1) * delta == kk * delta + delta) by (nonlinear_arith);
            assert((kk + 1) * delta <= maxk as int * delta) by (nonlinear_arith)
                requires
                    kk + 1 <= maxk as int,
                    0 <= delta as int,
            ;
            assert(maxk as int * delta == delta as int * maxk as int) by (nonlinear_arith);
            assert((kk + 1) * d == kk * d + d) by (nonlinear_arith);
            if !up {
                assert(kk * d == -(kk * (delta as int))) by (nonlinear_arith)
                    requires
                        d == -(delta as int),
                ;
                assert((kk + 1) * d == -((kk + 1) * (delta as int))) by (nonlinear_arith)
                    requires
                        d == -(delta as int),
                ;
            }
        }
        let next: u64 = if up {
            cur + delta
        } else {
            cur - delta
        };
        proof {
            assert(next as int == ray_sq(si, d, k as int + 1));
            assert(next < 64);
        }
        let ghost r0 = r;
        r = r | (1u64 << next);
        let hit: bool = (occ & (1u64 << next)) != 0;
        proof {
            let kk = k as int;
            assert(bit64(occ, next as int) == hit);
            assert forall|t: int|
                bit64(r, t) <==> (exists|j: int|
                    1 <= j <= kk + 1 && t == #[trigger] ray_sq(si, d, j) && ray_clear(
                        occ,
                        si,
                        d,
                        j,
                    )) by {
                lemma_bit_or(r0, 1u64 << next, t);
                lemma_bit_onehot(next as int, t);
                if bit64(r, t) {
                    if bit64(r0, t) {
                        let j = choose|j: int|
                            1 <= j <= kk && t == ray_sq(si, d, j) && ray_clear(occ, si, d, j);
                        assert(1 <= j <= kk + 1 && t == ray_sq(si, d, j) && ray_clear(occ, si, d, j));
                    } else {
                        assert(t == next as int);
                        assert(t == ray_sq(si, d, kk + 1));
                        assert(ray_clear(occ, si, d, kk + 1));
                    }
                }
                if exists|j: int|
                    1 <= j <= kk + 1 && t == #[trigger] ray_sq(si, d, j) && ray_clear(
                        occ,
                        si,
                        d,
                        j,
                    ) {
                    let j = choose|j: int|
                        1 <= j <= kk + 1 && t == ray_sq(si, d, j) && ray_clear(occ, si, d, j);
                    if j <= kk {
                        assert(bit64(r0, t));
                    } else {
                        assert(t == ray_sq(si, d, kk + 1));
                        assert(t == next as int);
                    }
                }
            }
            if !hit {
                assert forall|j: int| 1 <= j < kk + 2 implies !bit64(
                    occ,
                    #[trigger] ray_sq(si, d, j),
                ) by {
                    if j == kk + 1 {
                        assert(ray_sq(si, d, j) == next as int);
                    }
                }
                assert(ray_clear(occ, si, d, kk + 2));
            }
        }
        cur = next;
        k = k + 1;
        if hit {
            blocked = true;
        }
    }
    proof {
        assert forall|t: int|
            bit64(r, t) <==> ray_reach(occ, si, d, maxk as int, t) by {
            if bit64(r, t) {
                let j = choose|j: int|
                    1 <= j <= k && t == ray_sq(si, d, j) && ray_clear(occ, si, d, j);
                assert(1 <= j <= maxk as int && t == ray_sq(si, d, j) && ray_clear(occ, si, d, j));
            }
            if ray_reach(occ, si, d, maxk as int, t) {
                let j = choose|j: int|
                    1 <= j <= maxk as int && t == #[trigger] ray_sq(si, d, j) && ray_clear(
                        occ,
                        si,
                        d,
                        j,
                    );
                if j > k {
                    assert(blocked);
                    assert(!bit64(occ, ray_sq(si, d, k as int)));
                }
                assert(bit64(r, t));
            }
        }
    }
    r
}

/// Squares a rook on `square` can reach given the combined occupancy: each
/// rank/file ray runs outward and stops at the first occupied square,
/// which is included.
pub fn generate_rook_mask(square: u8, combined: BitBoard) -> (r: BitBoard)
    requires
        square < 64,
    ensures
        forall|t: int| #![trigger bit64(r@, t)]
            bit64(r@, t) <==> rook_reach(combined@, square as int, t),
{
    let s: u64 = square as u64;
    let occ: u64 = combined.value();
    let rank: u64 = s / 8;
    let file: u64 = s % 8;
    proof {
        lemma_sq_parts(s as int);
    }
    let north: u64 = ray_mask(s, 8, true, 7 - rank, occ);
    let south: u64 = ray_mask(s, 8, false, rank, occ);
    let east: u64 = ray_mask(s, 1, true, 7 - file, occ);
    let west: u64 = ray_mask(s, 1, false, file, occ);
    let attacks: u64 = north | south | east | west;
    proof {
        assert forall|t: int| bit64(attacks, t) <==> rook_reach(occ, s as int, t) by {
            lemma_bit_or(north | south | east, west, t);
            lemma_bit_or(north | south, east, t);
            lemma_bit_or(north, south, t);
        }
    }
    BitBoard::new(attacks)
}

/// Squares a bishop on `square` can reach given the combined occupancy: each
/// diagonal ray runs outward, bounded by the board edge, and stops at the
/// first occupied square, which is included.
pub fn generate_bishop_mask(square: u8, combined: BitBoard) -> (r: BitBoard)
    requires
        square < 64,
    ensures
        forall|t: int| #![trigger bit64(r@, t)]
            bit64(r@, t) <==> bishop_reach(combined@, square as int, t),
{
    let s: u64 = square as u64;
    let occ: u64 = combined.value();
    let rank: u64 = s / 8;
    let file: u64 = s % 8;
    proof {
        lemma_sq_parts(s as int);
    }
    let ne_k: u64 = if 7 - rank < 7 - file {
        7 - rank
    } else {
        7 - file
    };
    let se_k: u64 = if rank < 7 - file {
        rank
    } else {
        7 - file
    };
    let sw_k: u64 = if rank < file {
        rank
    } else {
        file
    };
    let nw_k: u64 = if 7 - rank < file {
        7 - rank
    } else {
        file
    };
    let ne: u64 = ray_mask(s, 9, true, ne_k, occ);
    let se: u64 = ray_mask(s, 7, false, se_k, occ);
    let sw: u64 = ray_mask(s, 9, false, sw_k, occ);
    let nw: u64 = ray_mask(s, 7, true, nw_k, occ);
    let attacks: u64 = ne | se | sw | nw;
    proof {
        assert(ne_k as int == min(7 - rank_of(s as int), 7 - file_of(s as int)));
        assert(se_k as int == min(rank_of(s as int), 7 - file_of(s as int)));
        assert(sw_k as int == min(rank_of(s as int), file_of(s as int)));
        assert(nw_k as int == min(7 - rank_of(s as int), file_of(s as int)));
        assert forall|t: int| bit64(attacks, t) <==> bishop_reach(occ, s as int, t) by {
            lemma_bit_or(ne | se | sw, nw, t);
            lemma_bit_or(ne | se, sw, t);
            lemma_bit_or(ne, se, t);
        }
    }
    BitBoard::new(attacks)
}

/// Squares a queen on `square` can reach: the union of the rook and bishop
/// masks from the same square and occupancy.
pub fn generate_queen_mask(square: u8, combined: BitBoard) -> (r: BitBoard)
    requires
        square < 64,
    ensures
        forall|t: int| #![trigger bit64(r@, t)]
            bit64(r@, t) <==> (rook_reach(combined@, square as int, t) || bishop_reach(
                combined@,
                square as int,
                t,
            )),
{
    let rm: BitBoard = generate_rook_mask(square, combined);
    let bm: BitBoard = generate_bishop_mask(square, combined);
    let attacks: u64 = rm.value() | bm.value();
    proof {
        assert forall|t: int|
            bit64(attacks, t) <==> (rook_reach(combined@, square as int, t) || bishop_reach(
                combined@,
                square as int,
                t,
            )) by {
            lemma_bit_or(rm@, bm@, t);
        }
    }
    BitBoard::new(attacks)
}

/// The queen mask is, as a value, the union of the rook and bishop masks:
/// any three masks with the reachability contracts of
/// [`generate_queen_mask`], [`generate_rook_mask`] and
/// [`generate_bishop_mask`] for the same square and occupancy satisfy
/// `qm == rm | bm`.
pub proof fn lemma_queen_is_rook_or_bishop(occ: u64, s: int, qm: u64, rm: u64, bm: u64)
    requires
        forall|t: int| #![trigger bit64(qm, t)]
            bit64(qm, t) <==> (rook_reach(occ, s, t) || bishop_reach(occ, s, t)),
        forall|t: int| #![trigger bit64(rm, t)] bit64(rm, t) <==> rook_reach(occ, s, t),
        forall|t: int| #![trigger bit64(bm, t)] bit64(bm, t) <==> bishop_reach(occ, s, t),
    ensures
        qm == rm | bm,
{
    assert forall|t: int| bit64(qm, t) <==> bit64((rm | bm) as u64, t) by {
        lemma_bit_or(rm, bm, t);
    }
    lemma_bit_ext(qm, rm | bm);
}

/// A ray reaches the square it is stopped on: with the first `k - 1` steps
/// clear, the `k`-th ray square is reachable whether or not it is occupied.
pub proof fn lemma_ray_reaches_first_blocker(occ: u64, s: int, d: int, maxk: int, k: int)
    requires
        1 <= k <= maxk,
        ray_clear(occ, s, d, k),
    ensures
        ray_reach(occ, s, d, maxk, ray_sq(s, d, k)),
{
}

/// No square strictly beyond an occupied ray square is reachable: the ray
/// stops there.
pub proof fn lemma_ray_stops_at_blocker(occ: u64, s: int, d: int, maxk: int, kb: int, k: int)
    requires
        d != 0,
        1 <= kb < k,
        bit64(occ, ray_sq(s, d, kb)),
    ensures
        !ray_reach(occ, s, d, maxk, ray_sq(s, d, k)),
{
    if ray_reach(occ, s, d, maxk, ray_sq(s, d, k)) {
        let j = choose|j: int|
            1 <= j <= maxk && ray_sq(s, d, k) == #[trigger] ray_sq(s, d, j) && ray_clear(
                occ,
                s,
                d,
                j,
            );
        assert(j * d == k * d);
        assert(j == k) by (nonlinear_arith)
            requires
                j * d == k * d,
                d != 0,
        ;
        assert(!bit64(occ, ray_sq(s, d, kb)));
    }
}

/// On an empty board a rook reaches exactly the other squares of its own
/// rank and file.
pub proof fn lemma_rook_empty_board(s: int, t: int)
    requires
        on_board(s),
        on_board(t),
    ensures
        rook_reach(0, s, t) <==> (t != s && (rank_of(t) == rank_of(s) || file_of(t) == file_of(
            s,
        ))),
{
    lemma_sq_parts(s);
    lemma_sq_parts(t);
    let rs = rank_of(s);
    let fs = file_of(s);
    let rt = rank_of(t);
    let ft = file_of(t);
    assert forall|u: int| !bit64(0u64, u) by {
        lemma_bit_zero(u);
    }
    if t != s && rt == rs {
        if t > s {
            let k = ft - fs;
            assert(t == ray_sq(s, 1, k));
            assert(ray_reach(0, s, 1, 7 - fs, t));
        } else {
            let k = fs - ft;
            assert(t == ray_sq(s, -1, k));
            assert(ray_reach(0, s, -1, fs, t));
        }
    }
    if t != s && ft == fs && rt != rs {
        if t > s {
            let k = rt - rs;
            assert(t == ray_sq(s, 8, k));
            assert(ray_reach(0, s, 8, 7 - rs, t));
        } else {
            let k = rs - rt;
            assert(t == ray_sq(s, -8, k));
            assert(ray_reach(0, s, -8, rs, t));
        }
    }
    if rook_reach(0, s, t) {
        if ray_reach(0, s, 8, 7 - rs, t) {
            let k = choose|k: int|
                1 <= k <= 7 - rs && t == #[trigger] ray_sq(s, 8, k) && ray_clear(0, s, 8, k);
            lemma_sq_make(rs + k, fs);
        }
        if ray_reach(0, s, -8, rs, t) {
            let k = choose|k: int|
                1 <= k <= rs && t == #[trigger] ray_sq(s, -8, k) && ray_clear(0, s, -8, k);
            lemma_sq_make(rs - k, fs);
        }
        if ray_reach(0, s, 1, 7 - fs, t) {
            let k = choose|k: int|
                1 <= k <= 7 - fs && t == #[trigger] ray_sq(s, 1, k) && ray_clear(0, s, 1, k);
            lemma_sq_make(rs, fs + k);
        }
        if ray_reach(0, s, -1, fs, t) {
            let k = choose|k: int|
                1 <= k <= fs && t == #[trigger] ray_sq(s, -1, k) && ray_clear(0, s, -1, k);
            lemma_sq_make(rs, fs - k);
        }
    }
}

/// The empty-board rook mask in closed form: the whole rank and file of `s`,
/// less `s` itself.
pub open spec fn rook_empty_val(s: u64) -> u64 {
    ((RANK_1 << (8 * (s / 8))) | (A_FILE << (s % 8))) & !(1u64 << s)
}

/// Bit `t` of the closed form is exactly "same rank or file, other square".
proof fn lemma_rook_empty_val_bits(s: u64, t: u64)
    requires
        s < 64,
        t < 64,
    ensures
        bit64(rook_empty_val(s), t as int) <==> (t != s && (t / 8 == s / 8 || t % 8 == s % 8)),
{
    let m = rook_empty_val(s);
    assert((m & (1u64 << t) != 0) <==> (t != s && (t / 8 == s / 8 || t % 8 == s % 8)))
        by (bit_vector)
        requires
            s < 64,
            t < 64,
            m == rook_empty_val(s),
    ;
}

/// On an empty board a rook reaches exactly 14 squares, from every square:
/// the 7 other squares of its rank and the 7 of its file.
pub proof fn lemma_rook_empty_board_count(s: u64, m: u64)
    requires
        s < 64,
        forall|t: int| #![trigger bit64(m, t)] bit64(m, t) <==> rook_reach(0, s as int, t),
    ensures
        m == rook_empty_val(s),
        popcount64(m) == 14,
{
    assert forall|t: int| bit64(m, t) <==> bit64(rook_empty_val(s), t) by {
        if 0 <= t < 64 {
            lemma_rook_empty_board(s as int, t);
            lemma_rook_empty_val_bits(s, t as u64);
        } else {
            assert(!bit64(m, t) && !bit64(rook_empty_val(s), t));
        }
    }
    lemma_bit_ext(m, rook_empty_val(s));
    let v = rook_empty_val(s);
    assert(popcount64(v) == 14) by (bit_vector)
        requires
            s < 64,
            v == rook_empty_val(s),
    ;
}

/// On an empty board a bishop reaches exactly the other squares of the two
/// diagonals through its square.
pub proof fn lemma_bishop_empty_board(s: int, t: int)
    requires
        on_board(s),
        on_board(t),
    ensures
        bishop_reach(0, s, t) <==> (t != s && (rank_of(t) - rank_of(s) == file_of(t) - file_of(s)
            || rank_of(t) - rank_of(s) == file_of(s) - file_of(t))),
{
    lemma_sq_parts(s);
    lemma_sq_parts(t);
    let rs = rank_of(s);
    let fs = file_of(s);
    let rt = rank_of(t);
    let ft = file_of(t);
    assert forall|u: int| !bit64(0u64, u) by {
        lemma_bit_zero(u);
    }
    if t != s && (rt - rs == ft - fs || rt - rs == fs - ft) {
        if rt > rs && ft > fs {
            let k = rt - rs;
            assert(t == ray_sq(s, 9, k));
            assert(ray_reach(0, s, 9, min(7 - rs, 7 - fs), t));
        } else if rt < rs && ft > fs {
            let k = rs - rt;
            assert(t == ray_sq(s, -7, k));
            assert(ray_reach(0, s, -7, min(rs, 7 - fs), t));
        } else if rt < rs && ft < fs {
            let k = rs - rt;
            assert(t == ray_sq(s, -9, k));
            assert(ray_reach(0, s, -9, min(rs, fs), t));
        } else {
            assert(rt > rs && ft < fs);
            let k = rt - rs;
            assert(t == ray_sq(s, 7, k));
            assert(ray_reach(0, s, 7, min(7 - rs, fs), t));
        }
    }
    if bishop_reach(0, s, t) {
        if ray_reach(0, s, 9, min(7 - rs, 7 - fs), t) {
            let k = choose|k: int|
                1 <= k <= min(7 - rs, 7 - fs) && t == #[trigger] ray_sq(s, 9, k) && ray_clear(
                    0,
                    s,
                    9,
                    k,
                );
            lemma_sq_make(rs + k, fs + k);
        }
        if ray_reach(0, s, -7, min(rs, 7 - fs), t) {
            let k = choose|k: int|
                1 <= k <= min(rs, 7 - fs) && t == #[trigger] ray_sq(s, -7, k) && ray_clear(
                    0,
                    s,
                    -7,
                    k,
                );
            lemma_sq_make(rs - k, fs + k);
        }
        if ray_reach(0, s, -9, min(rs, fs), t) {
            let k = choose|k: int|
                1 <= k <= min(rs, fs) && t == #[trigger] ray_sq(s, -9, k) && ray_clear(0, s, -9, k);
            lemma_sq_make(rs - k, fs - k);
        }
        if ray_reach(0, s, 7, min(7 - rs, fs), t) {
            let k = choose|k: int|
                1 <= k <= min(7 - rs, fs) && t == #[trigger] ray_sq(s, 7, k) && ray_clear(
                    0,
                    s,
                    7,
                    k,
                );
            lemma_sq_make(rs + k, fs - k);
        }
    }
}

} // verus!
