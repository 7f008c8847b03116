use chess_core::bitboard::BitBoard;
use chess_core::bitboard::{A_FILE, EMPTY_BB, FULL_BB, H_FILE, RANK_1, RANK_8};

#[test]
fn new_and_value_round_trip() {
    let b = BitBoard::new(0xdead_beef_0123_4567);
    assert_eq!(b.value(), 0xdead_beef_0123_4567);
    assert_eq!(BitBoard::new(0).value(), 0);
    assert_eq!(BitBoard::new(u64::MAX).value(), u64::MAX);
}

#[test]
fn get_reads_single_bits() {
    let b = BitBoard::new(0b1010);
    assert_eq!(b.get(0), 0);
    assert_eq!(b.get(1), 1);
    assert_eq!(b.get(2), 0);
    assert_eq!(b.get(3), 1);
    assert_eq!(b.get(63), 0);
    let top = BitBoard::new(1u64 << 63);
    assert_eq!(top.get(63), 1);
    assert_eq!(top.get(0), 0);
}

#[test]
fn set_is_idempotent_or() {
    let mut b = BitBoard::new(0);
    b.set(5);
    assert_eq!(b.value(), 1 << 5);
    b.set(5);
    assert_eq!(b.value(), 1 << 5);
    b.set(63);
    assert_eq!(b.value(), (1 << 5) | (1 << 63));
}

#[test]
fn flip_toggles() {
    let mut b = BitBoard::new(0);
    b.flip(7);
    assert_eq!(b.value(), 1 << 7);
    b.flip(7);
    assert_eq!(b.value(), 0);
    b.flip(0);
    b.flip(63);
    assert_eq!(b.value(), 1 | (1 << 63));
}

#[test]
fn find_set_bits_lists_indices_in_order() {
    assert_eq!(BitBoard::new(0).find_set_bits(), Vec::<u8>::new());
    assert_eq!(BitBoard::new(0b1).find_set_bits(), vec![0]);
    assert_eq!(BitBoard::new(0b1010_0110).find_set_bits(), vec![1, 2, 5, 7]);
    assert_eq!(BitBoard::new(1u64 << 63).find_set_bits(), vec![63]);
    let all = BitBoard::new(u64::MAX).find_set_bits();
    assert_eq!(all.len(), 64);
    for (i, idx) in all.iter().enumerate() {
        assert_eq!(*idx as usize, i);
    }
}

#[test]
fn bitwise_operators() {
    let a = BitBoard::new(0b1100);
    let b = BitBoard::new(0b1010);
    assert_eq!(a.bitand(b).value(), 0b1000);
    assert_eq!(a.bitor(b).value(), 0b1110);
    assert_eq!(a.bitxor(b).value(), 0b0110);
    assert_eq!(a.invert().value(), !0b1100u64);
    assert_eq!(a.shl(4).value(), 0b1100_0000);
    assert_eq!(a.shr(2).value(), 0b11);
    assert_eq!(BitBoard::new(1u64 << 60).shl(10).value(), 0);
    assert_eq!(BitBoard::new(1).shr(1).value(), 0);
}

#[test]
fn default_is_empty() {
    assert_eq!(BitBoard::default().value(), 0);
}

#[test]
fn geometry_constants() {
    assert_eq!(A_FILE, 0x0101_0101_0101_0101);
    assert_eq!(H_FILE, 0x8080_8080_8080_8080);
    assert_eq!(RANK_1, 0xff);
    assert_eq!(RANK_8, 0xff00_0000_0000_0000);
    assert_eq!(EMPTY_BB, 0);
    assert_eq!(FULL_BB, u64::MAX);
    // the eight files tile the board, as do the eight ranks
    let mut files = 0u64;
    let mut ranks = 0u64;
    for i in 0..8 {
        files |= A_FILE << i;
        ranks |= RANK_1 << (8 * i);
    }
    assert_eq!(files, FULL_BB);
    assert_eq!(ranks, FULL_BB);
}

#[test]
fn random_produces_a_usable_mask() {
    let r = BitBoard::random();
    let bits = r.find_set_bits();
    assert!(bits.len() <= 64);
    for idx in bits {
        assert!(idx < 64);
        assert_eq!(r.get(idx), 1);
    }
}
