//! The 64-bit board mask: one bit per square, with the bit-level lemmas the
//! rest of the crate reasons with.

use vstd::prelude::*;

verus! {

/// Bit `i` of `b`, as a set-membership test: does square `i` belong to the
/// mask `b`? False off the board (i < 0 or i >= 64).
pub open spec fn bit64(b: u64, i: int) -> bool {
    0 <= i < 64 && b & (1u64 << (i as u64)) != 0
}

/// How many of the 64 bits of `b` are set.
pub open spec fn popcount64(b: u64) -> int {
    ((b >> 0) & 1) + ((b >> 1) & 1) + ((b >> 2) & 1) + ((b >> 3) & 1)
        + ((b >> 4) & 1) + ((b >> 5) & 1) + ((b >> 6) & 1) + ((b >> 7) & 1)
        + ((b >> 8) & 1) + ((b >> 9) & 1) + ((b >> 10) & 1) + ((b >> 11) & 1)
        + ((b >> 12) & 1) + ((b >> 13) & 1) + ((b >> 14) & 1) + ((b >> 15) & 1)
        + ((b >> 16) & 1) + ((b >> 17) & 1) + ((b >> 18) & 1) + ((b >> 19) & 1)
        + ((b >> 20) & 1) + ((b >> 21) & 1) + ((b >> 22) & 1) + ((b >> 23) & 1)
        + ((b >> 24) & 1) + ((b >> 25) & 1) + ((b >> 26) & 1) + ((b >> 27) & 1)
        + ((b >> 28) & 1) + ((b >> 29) & 1) + ((b >> 30) & 1) + ((b >> 31) & 1)
        + ((b >> 32) & 1) + ((b >> 33) & 1) + ((b >> 34) & 1) + ((b >> 35) & 1)
        + ((b >> 36) & 1) + ((b >> 37) & 1) + ((b >> 38) & 1) + ((b >> 39) & 1)
        + ((b >> 40) & 1) + ((b >> 41) & 1) + ((b >> 42) & 1) + ((b >> 43) & 1)
        + ((b >> 44) & 1) + ((b >> 45) & 1) + ((b >> 46) & 1) + ((b >> 47) & 1)
        + ((b >> 48) & 1) + ((b >> 49) & 1) + ((b >> 50) & 1) + ((b >> 51) & 1)
        + ((b >> 52) & 1) + ((b >> 53) & 1) + ((b >> 54) & 1) + ((b >> 55) & 1)
        + ((b >> 56) & 1) + ((b >> 57) & 1) + ((b >> 58) & 1) + ((b >> 59) & 1)
        + ((b >> 60) & 1) + ((b >> 61) & 1) + ((b >> 62) & 1) + ((b >> 63) & 1)
}

/// Squares of the a-file (file 0).
pub const A_FILE: u64 = 0x0101_0101_0101_0101;
/// Squares of the b-file (file 1).
pub const B_FILE: u64 = 0x0202_0202_0202_0202;
/// Squares of the c-file (file 2).
pub const C_FILE: u64 = 0x0404_0404_0404_0404;
/// Squares of the d-file (file 3).
pub const D_FILE: u64 = 0x0808_0808_0808_0808;
/// Squares of the e-file (file 4).
pub const E_FILE: u64 = 0x1010_1010_1010_1010;
/// Squares of the f-file (file 5).
pub const F_FILE: u64 = 0x2020_2020_2020_2020;
/// Squares of the g-file (file 6).
pub const G_FILE: u64 = 0x4040_4040_4040_4040;
/// Squares of the h-file (file 7).
pub const H_FILE: u64 = 0x8080_8080_8080_8080;

/// Squares of rank 1 (rank index 0).
pub const RANK_1: u64 = 0x0000_0000_0000_00ff;
/// Squares of rank 2 (rank index 1).
pub const RANK_2: u64 = 0x0000_0000_0000_ff00;
/// Squares of rank 3 (rank index 2).
pub const RANK_3: u64 = 0x0000_0000_00ff_0000;
/// Squares of rank 4 (rank index 3).
pub const RANK_4: u64 = 0x0000_0000_ff00_0000;
/// Squares of rank 5 (rank index 4).
pub const RANK_5: u64 = 0x0000_00ff_0000_0000;
/// Squares of rank 6 (rank index 5).
pub const RANK_6: u64 = 0x0000_ff00_0000_0000;
/// Squares of rank 7 (rank index 6).
pub const RANK_7: u64 = 0x00ff_0000_0000_0000;
/// Squares of rank 8 (rank index 7).
pub const RANK_8: u64 = 0xff00_0000_0000_0000;

/// Every square.
pub const FULL_BB: u64 = 0xffff_ffff_ffff_ffff;
/// No square.
pub const EMPTY_BB: u64 = 0;

/// A bit of a union: a square is in `a | b` iff it is in `a` or in `b`.
pub proof fn lemma_bit_or(a: u64, b: u64, t: int)
    ensures
        bit64(a | b, t) <==> bit64(a, t) || bit64(b, t),
{
    if 0 <= t < 64 {
        let tt = t as u64;
        assert(((a | b) & (1u64 << tt) != 0) <==> (a & (1u64 << tt) != 0) || (b & (1u64 << tt)
            != 0)) by (bit_vector);
    }
}

/// A bit of a difference: a square is in `a & !b` iff it is in `a` and not in `b`.
pub proof fn lemma_bit_and_not(a: u64, b: u64, t: int)
    ensures
        bit64(a & !b, t) <==> bit64(a, t) && !bit64(b, t),
{
    if 0 <= t < 64 {
        let tt = t as u64;
        assert(((a & !b) & (1u64 << tt) != 0) <==> (a & (1u64 << tt) != 0) && !(b & (1u64 << tt)
            != 0)) by (bit_vector);
    }
}

/// The mask `1 << i` holds the single square `i`.
pub proof fn lemma_bit_onehot(i: int, t: int)
    requires
        0 <= i < 64,
    ensures
        bit64(1u64 << (i as u64), t) <==> t == i,
{
    if 0 <= t < 64 {
        let ii = i as u64;
        let tt = t as u64;
        assert(((1u64 << ii) & (1u64 << tt) != 0) <==> ii == tt) by (bit_vector)
            requires
                ii < 64,
                tt < 64,
        ;
    } else {
        let ii = i as u64;
        assert(!bit64(1u64 << ii, t));
    }
}

/// Toggling square `i` by xor changes that bit and no other.
pub proof fn lemma_bit_xor_onehot(a: u64, i: int, t: int)
    requires
        0 <= i < 64,
    ensures
        bit64(a ^ (1u64 << (i as u64)), t) <==> (if t == i {
            !bit64(a, t)
        } else {
            bit64(a, t)
        }),
{
    if 0 <= t < 64 {
        let ii = i as u64;
        let tt = t as u64;
        assert(((a ^ (1u64 << ii)) & (1u64 << tt) != 0) <==> (if tt == ii {
            !(a & (1u64 << tt) != 0)
        } else {
            (a & (1u64 << tt) != 0)
        })) by (bit_vector)
            requires
                ii < 64,
                tt < 64,
        ;
    }
}

/// Masks that intersect to zero share no square.
pub proof fn lemma_bit_disjoint(a: u64, b: u64, t: int)
    requires
        a & b == 0,
    ensures
        !(bit64(a, t) && bit64(b, t)),
{
    if 0 <= t < 64 {
        let tt = t as u64;
        assert(!(a & (1u64 << tt) != 0 && b & (1u64 << tt) != 0)) by (bit_vector)
            requires
                a & b == 0,
        ;
    }
}

/// The empty mask has no square.
pub proof fn lemma_bit_zero(t: int)
    ensures
        !bit64(0u64, t),
{
    if 0 <= t < 64 {
        let tt = t as u64;
        assert(0u64 & (1u64 << tt) == 0) by (bit_vector);
    }
}

/// Reading one bit by shift-and-mask agrees with `bit64`.
pub proof fn lemma_bit_read(b: u64, i: int)
    requires
        0 <= i < 64,
    ensures
        (b >> (i as u64)) & 1 == (if bit64(b, i) {
            1u64
        } else {
            0u64
        }),
{
    let ii = i as u64;
    assert(((b >> ii) & 1 == 1 <==> b & (1u64 << ii) != 0) && ((b >> ii) & 1 == 0 || (b >> ii) & 1
        == 1)) by (bit_vector)
        requires
            ii < 64,
    ;
}

/// Shifting one more step to the right drops the lowest remaining bit.
pub proof fn lemma_shr_step(b: u64, i: int)
    requires
        0 <= i < 64,
    ensures
        (b >> (i as u64)) >> 1u64 == (if i == 63 {
            0u64
        } else {
            b >> ((i + 1) as u64)
        }),
{
    let ii = i as u64;
    if i == 63 {
        assert((b >> 63u64) >> 1u64 == 0u64) by (bit_vector);
    } else {
        assert((b >> ii) >> 1u64 == b >> ((ii + 1) as u64)) by (bit_vector)
            requires
                ii < 63,
        ;
    }
}

/// Once the remaining shifted value is zero, no higher bit is set.
pub proof fn lemma_shr_zero(b: u64, i: int)
    requires
        0 <= i < 64,
        b >> (i as u64) == 0,
    ensures
        forall|t: int| i <= t ==> !bit64(b, t),
{
    let ii = i as u64;
    assert forall|t: int| i <= t implies !bit64(b, t) by {
        if t < 64 {
            let tt = t as u64;
            assert(b & (1u64 << tt) == 0) by (bit_vector)
                requires
                    b >> ii == 0,
                    ii <= tt,
                    tt < 64,
            ;
        }
    }
}

/// Below bit `i`, masks that agree square by square agree as values.
proof fn lemma_bits_agree_below(a: u64, b: u64, i: u64)
    requires
        i <= 63,
        forall|t: int| 0 <= t < i ==> (bit64(a, t) <==> bit64(b, t)),
    ensures
        a & (((1u64 << i) - 1) as u64) == b & (((1u64 << i) - 1) as u64),
    decreases i,
{
    if i == 0 {
        assert(a & (((1u64 << 0u64) - 1) as u64) == b & (((1u64 << 0u64) - 1) as u64)) by (bit_vector);
    } else {
        lemma_bits_agree_below(a, b, (i - 1) as u64);
        assert(bit64(a, i - 1) <==> bit64(b, i - 1));
        let j = (i - 1) as u64;
        assert(a & (((1u64 << i) - 1) as u64) == b & (((1u64 << i) - 1) as u64)) by (bit_vector)
            requires
                1 <= i <= 63,
                j == i - 1,
                a & (((1u64 << j) - 1) as u64) == b & (((1u64 << j) - 1) as u64),
                (a & (1u64 << j) != 0) == (b & (1u64 << j) != 0),
        ;
    }
}

/// Two masks with the same squares are the same value.
pub proof fn lemma_bit_ext(a: u64, b: u64)
    requires
        forall|t: int| bit64(a, t) <==> bit64(b, t),
    ensures
        a == b,
{
    lemma_bits_agree_below(a, b, 63);
    assert(bit64(a, 63) <==> bit64(b, 63));
    assert(a == b) by (bit_vector)
        requires
            a & (((1u64 << 63u64) - 1) as u64) == b & (((1u64 << 63u64) - 1) as u64),
            (a & (1u64 << 63u64) != 0) == (b & (1u64 << 63u64) != 0),
    ;
}

/// A set of board squares packed into a 64-bit value (square `i` = bit `i`).
#[derive(Debug, Copy, Clone, PartialEq, Eq, Structural)]
pub struct BitBoard(u64);

impl BitBoard {
    /// The raw 64-bit value, for contracts.
    pub closed spec fn view(self) -> u64 {
        self.0
    }

    pub fn new(value: u64) -> (r: Self)
        ensures
            r@ == value,
    {
        BitBoard(value)
    }

    pub fn value(&self) -> (r: u64)
        ensures
            r == self@,
    {
        self.0
    }

    /// Read the bit at `index`: 1 if the square is in the set, 0 if not.
    pub fn get(&self, index: u8) -> (r: u8)
        requires
            index < 64,
        ensures
            r == (if bit64(self@, index as int) {
                1u8
            } else {
                0u8
            }),
    {
        proof {
            lemma_bit_read(self.0, index as int);
        }
        ((self.0 >> (index as u64)) & 1) as u8
    }

    /// Put the square `index` into the set (idempotent).
    pub fn set(&mut self, index: u8)
        requires
            index < 64,
        ensures
            final(self)@ == old(self)@ | (1u64 << (index as u64)),
            forall|t: int| bit64(final(self)@, t) <==> (bit64(old(self)@, t) || t == index as int),
    {
        proof {
            assert forall|t: int|
                bit64(old(self).0 | (1u64 << (index as u64)), t) <==> (bit64(old(self).0, t) || t
                    == index as int) by {
                lemma_bit_or(old(self).0, 1u64 << (index as u64), t);
                lemma_bit_onehot(index as int, t);
            }
        }
        self.0 = self.0 | (1u64 << (index as u64));
    }

    /// Toggle the square `index`.
    pub fn flip(&mut self, index: u8)
        requires
            index < 64,
        ensures
            final(self)@ == old(self)@ ^ (1u64 << (index as u64)),
            forall|t: int|
                bit64(final(self)@, t) <==> (if t == index as int {
                    !bit64(old(self)@, t)
                } else {
                    bit64(old(self)@, t)
                }),
    {
        proof {
            assert forall|t: int|
                bit64(old(self).0 ^ (1u64 << (index as u64)), t) <==> (if t == index as int {
                    !bit64(old(self).0, t)
                } else {
                    bit64(old(self).0, t)
                }) by {
                lemma_bit_xor_onehot(old(self).0, index as int, t);
            }
        }
        self.0 = self.0 ^ (1u64 << (index as u64));
    }

    /// The indices of the set bits, in increasing order.
    pub fn find_set_bits(&self) -> (r: Vec<u8>)
        ensures
            forall|i: int| 0 <= i < r@.len() ==> bit64(self@, #[trigger] (r@[i] as int)),
            forall|i: int, j: int| 0 <= i < j < r@.len() ==> r@[i] < r@[j],
            forall|t: int| bit64(self@, t) ==> r@.contains(t as u8),
    {
        let b: u64 = self.0;
        let mut binding: u64 = b;
        let mut indices: Vec<u8> = Vec::new();
        let mut index: u64 = 0;
        proof {
            assert(b >> 0u64 == b) by (bit_vector);
        }
        while binding > 0
            invariant
                index <= 64,
                index < 64 ==> binding == b >> index,
                index >= 64 ==> binding == 0,
                forall|i: int|
                    0 <= i < indices@.len() ==> bit64(b, #[trigger] (indices@[i] as int))
                        && indices@[i] < index,
                forall|i: int, j: int| 0 <= i < j < indices@.len() ==> indices@[i] < indices@[j],
                forall|t: int| 0 <= t < index && bit64(b, t) ==> indices@.contains(t as u8),
            decreases binding,
        {
            proof {
                lemma_bit_read(b, index as int);
                lemma_shr_step(b, index as int);
                assert(binding >> 1u64 < binding) by (bit_vector)
                    requires
                        binding > 0,
                ;
            }
            let ghost prev = indices@;
            if binding & 1 == 1 {
                indices.push(index as u8);
                proof {
                    assert(indices@ == prev.push(index as u8));
                    assert(forall|i: int| 0 <= i < prev.len() ==> indices@[i] == prev[i]);
                    assert(indices@[prev.len() as int] == index as u8);
                }
            }
            binding = binding >> 1u64;
            index = index + 1;
            proof {
                assert forall|t: int| 0 <= t < index && bit64(b, t) implies indices@.contains(
                    t as u8,
                ) by {
                    if t == index - 1 {
                        assert(indices@[indices@.len() - 1] == t as u8);
                        assert(indices@.contains(t as u8));
                    } else {
                        assert(prev.contains(t as u8));
                        let i = choose|i: int| 0 <= i < prev.len() && prev[i] == t as u8;
                        assert(indices@[i] == t as u8);
                    }
                }
            }
        }
        proof {
            if index < 64 {
                lemma_shr_zero(b, index as int);
            }
        }
        indices
    }

    /// Intersection of two square sets.
    pub fn bitand(self, rhs: Self) -> (r: Self)
        ensures
            r@ == self@ & rhs@,
    {
        BitBoard(self.0 & rhs.0)
    }

    /// Union of two square sets.
    pub fn bitor(self, rhs: Self) -> (r: Self)
        ensures
            r@ == self@ | rhs@,
    {
        BitBoard(self.0 | rhs.0)
    }

    /// Symmetric difference of two square sets.
    pub fn bitxor(self, rhs: Self) -> (r: Self)
        ensures
            r@ == self@ ^ rhs@,
    {
        BitBoard(self.0 ^ rhs.0)
    }

    /// Complement: every square not in the set.
    pub fn invert(self) -> (r: Self)
        ensures
            r@ == !self@,
    {
        BitBoard(!self.0)
    }

    /// Shift every square up by `rhs` bit positions; bits pushed past
    /// square 63 are dropped. The distance must stay below 64.
    pub fn shl(self, rhs: u64) -> (r: Self)
        requires
            rhs < 64,
        ensures
            r@ == self@ << rhs,
            forall|t: int| bit64(r@, t) <==> (rhs <= t < 64 && bit64(self@, t - rhs)),
    {
        proof {
            assert forall|t: int|
                bit64(self.0 << rhs, t) <==> (rhs <= t < 64 && bit64(self.0, t - rhs)) by {
                lemma_bit_shl(self.0, rhs, t);
            }
        }
        BitBoard(self.0 << rhs)
    }

    /// Shift every square down by `rhs` bit positions; bits pushed below
    /// square 0 are dropped. The distance must stay below 64.
    pub fn shr(self, rhs: u64) -> (r: Self)
        requires
            rhs < 64,
        ensures
            r@ == self@ >> rhs,
            forall|t: int| bit64(r@, t) <==> (0 <= t && bit64(self@, t + rhs)),
    {
        proof {
            assert forall|t: int| bit64(self.0 >> rhs, t) <==> (0 <= t && bit64(self.0, t + rhs)) by {
                lemma_bit_shr(self.0, rhs, t);
            }
        }
        BitBoard(self.0 >> rhs)
    }

    /// Relies on `rand::random`: a fresh pseudo-random value, mainly for
    /// exercising the bit algebra. Nothing is promised of the result.
    #[verifier::external_body]
    pub fn random() -> Self {
        BitBoard(rand::random::<u64>())
    }
}

/// Where each square of `b` lands under a left shift by `d`.
pub proof fn lemma_bit_shl(b: u64, d: u64, t: int)
    requires
        d < 64,
    ensures
        bit64(b << d, t) <==> (d <= t < 64 && bit64(b, t - d)),
{
    if 0 <= t < 64 {
        let tt = t as u64;
        if d <= t {
            let ss = (t - d) as u64;
            assert(((b << d) & (1u64 << tt) != 0) <==> (b & (1u64 << ss) != 0)) by (bit_vector)
                requires
                    d < 64,
                    tt < 64,
                    d <= tt,
                    ss == tt - d,
            ;
        } else {
            assert((b << d) & (1u64 << tt) == 0) by (bit_vector)
                requires
                    d < 64,
                    tt < d,
            ;
        }
    }
}

/// Where each square of `b` lands under a right shift by `d`.
pub proof fn lemma_bit_shr(b: u64, d: u64, t: int)
    requires
        d < 64,
    ensures
        bit64(b >> d, t) <==> (0 <= t && bit64(b, t + d)),
{
    if 0 <= t < 64 {
        let tt = t as u64;
        if t + d < 64 {
            let ss = (t + d) as u64;
            assert(((b >> d) & (1u64 << tt) != 0) <==> (b & (1u64 << ss) != 0)) by (bit_vector)
                requires
                    d < 64,
                    tt < 64,
                    ss == tt + d,
                    ss < 64,
            ;
        } else {
            assert((b >> d) & (1u64 << tt) == 0) by (bit_vector)
                requires
                    d < 64,
                    tt < 64,
                    tt + d >= 64,
            ;
        }
    }
}

impl Default for BitBoard {
    /// The empty square set.
    fn default() -> (r: Self)
        ensures
            r@ == 0u64,
    {
        BitBoard(0)
    }
}

} // verus!
