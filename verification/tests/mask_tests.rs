use chess_core::bitboard::BitBoard;
use chess_core::move_gen::{generate_bishop_mask, generate_black_pawn_mask, generate_king_mask,
    generate_knight_mask, generate_queen_mask, generate_rook_mask, generate_white_pawn_mask};

fn rank(s: u8) -> i32 {
    (s / 8) as i32
}

fn file(s: u8) -> i32 {
    (s % 8) as i32
}

fn bits_of(b: BitBoard) -> Vec<u8> {
    b.find_set_bits()
}

fn mask_from(squares: &[u8]) -> u64 {
    let mut m = 0u64;
    for s in squares {
        m |= 1u64 << s;
    }
    m
}

#[test]
fn king_corner_and_center() {
    // a1: b1, a2, b2
    assert_eq!(generate_king_mask(0).value(), mask_from(&[1, 8, 9]));
    // h8: g8, h7, g7
    assert_eq!(generate_king_mask(63).value(), mask_from(&[62, 55, 54]));
    // e4 (28): all eight neighbours
    assert_eq!(
        generate_king_mask(28).value(),
        mask_from(&[19, 20, 21, 27, 29, 35, 36, 37])
    );
}

#[test]
fn king_counts_and_distance_everywhere() {
    for s in 0..64u8 {
        let bits = bits_of(generate_king_mask(s));
        assert!(bits.len() >= 3 && bits.len() <= 8);
        for t in bits {
            let dr = (rank(t) - rank(s)).abs();
            let df = (file(t) - file(s)).abs();
            assert!(dr <= 1 && df <= 1 && (dr, df) != (0, 0));
        }
    }
}

#[test]
fn knight_corner_and_center() {
    // a1: c2, b3
    assert_eq!(generate_knight_mask(0).value(), mask_from(&[10, 17]));
    // e4 (28)
    assert_eq!(
        generate_knight_mask(28).value(),
        mask_from(&[11, 13, 18, 22, 34, 38, 43, 45])
    );
}

#[test]
fn knight_counts_and_distance_everywhere() {
    for s in 0..64u8 {
        let bits = bits_of(generate_knight_mask(s));
        assert!(bits.len() >= 2 && bits.len() <= 8);
        for t in bits {
            let dr = (rank(t) - rank(s)).abs();
            let df = (file(t) - file(s)).abs();
            assert!((dr, df) == (1, 2) || (dr, df) == (2, 1));
        }
    }
}

#[test]
fn white_pawn_pushes() {
    let empty = BitBoard::new(0);
    // e2 (12): single to e3 (20) and double to e4 (28)
    assert_eq!(generate_white_pawn_mask(12, empty).value(), mask_from(&[20, 28]));
    // e3 (20): the double would land on rank 5, so only the single push stays
    assert_eq!(generate_white_pawn_mask(20, empty).value(), mask_from(&[28]));
}

#[test]
fn white_pawn_captures_iff_opponent_there() {
    // e2 (12) with opponents on d3 (19) and f3 (21)
    let opp = BitBoard::new(mask_from(&[19, 21]));
    assert_eq!(
        generate_white_pawn_mask(12, opp).value(),
        mask_from(&[19, 20, 21, 28])
    );
    // opponents elsewhere do not appear
    let far = BitBoard::new(mask_from(&[35, 44]));
    assert_eq!(generate_white_pawn_mask(12, far).value(), mask_from(&[20, 28]));
    // a2 (8): a capture toward the h file would wrap; only b3 (17) counts
    let wrap = BitBoard::new(mask_from(&[15, 17]));
    assert_eq!(generate_white_pawn_mask(8, wrap).value(), mask_from(&[16, 24, 17]));
}

#[test]
fn black_pawn_pushes_and_captures() {
    let empty = BitBoard::new(0);
    // e7 (52): single to e6 (44) and double to e5 (36)
    assert_eq!(generate_black_pawn_mask(52, empty).value(), mask_from(&[44, 36]));
    // e6 (44): no double push
    assert_eq!(generate_black_pawn_mask(44, empty).value(), mask_from(&[36]));
    // e7 with opponents on d6 (43) and f6 (45)
    let opp = BitBoard::new(mask_from(&[43, 45]));
    assert_eq!(
        generate_black_pawn_mask(52, opp).value(),
        mask_from(&[36, 43, 44, 45])
    );
    // h7 (55): a capture toward the a file would wrap; only g6 (46) counts
    let wrap = BitBoard::new(mask_from(&[40, 46]));
    assert_eq!(generate_black_pawn_mask(55, wrap).value(), mask_from(&[47, 39, 46]));
}

#[test]
fn rook_empty_board_covers_rank_and_file() {
    // d4 (27)
    let expected = mask_from(&[24, 25, 26, 28, 29, 30, 31, 3, 11, 19, 35, 43, 51, 59]);
    assert_eq!(generate_rook_mask(27, BitBoard::new(0)).value(), expected);
    assert_eq!(bits_of(generate_rook_mask(27, BitBoard::new(0))).len(), 14);
    // every square: 14 squares on an empty board
    for s in 0..64u8 {
        assert_eq!(bits_of(generate_rook_mask(s, BitBoard::new(0))).len(), 14);
    }
}

#[test]
fn rook_ray_stops_at_first_blocker_inclusive() {
    // rook on a1, blocker on a4 (24): north ray is a2, a3, a4 and nothing beyond
    let occ = BitBoard::new(mask_from(&[24]));
    assert_eq!(
        generate_rook_mask(0, occ).value(),
        mask_from(&[8, 16, 24, 1, 2, 3, 4, 5, 6, 7])
    );
    // blockers on both sides of d4 (27): c4 (26) and f4 (29)
    let occ2 = BitBoard::new(mask_from(&[26, 29]));
    assert_eq!(
        generate_rook_mask(27, occ2).value(),
        mask_from(&[26, 28, 29, 3, 11, 19, 35, 43, 51, 59])
    );
}

#[test]
fn bishop_empty_board_covers_diagonals() {
    // a1 (0): the long diagonal
    assert_eq!(
        generate_bishop_mask(0, BitBoard::new(0)).value(),
        mask_from(&[9, 18, 27, 36, 45, 54, 63])
    );
    // d4 (27): both diagonals, 13 squares
    let expected = mask_from(&[36, 45, 54, 63, 20, 13, 6, 18, 9, 0, 34, 41, 48]);
    assert_eq!(generate_bishop_mask(27, BitBoard::new(0)).value(), expected);
}

#[test]
fn bishop_ray_stops_at_first_blocker_inclusive() {
    // bishop on a1, blocker on c3 (18): reaches b2 and c3 only
    let occ = BitBoard::new(mask_from(&[18]));
    assert_eq!(generate_bishop_mask(0, occ).value(), mask_from(&[9, 18]));
}

#[test]
fn queen_is_rook_or_bishop_union() {
    let occupancies = [
        0u64,
        mask_from(&[18, 24, 29]),
        0xffff_00000000_ffff,
        0x5a5a_5a5a_5a5a_5a5a,
    ];
    for s in 0..64u8 {
        for occ in occupancies {
            let c = BitBoard::new(occ);
            let q = generate_queen_mask(s, c).value();
            let r = generate_rook_mask(s, c).value();
            let b = generate_bishop_mask(s, c).value();
            assert_eq!(q, r | b);
        }
    }
    // and with a random occupancy
    let c = BitBoard::random();
    for s in 0..64u8 {
        let q = generate_queen_mask(s, c).value();
        let r = generate_rook_mask(s, c).value();
        let b = generate_bishop_mask(s, c).value();
        assert_eq!(q, r | b);
    }
}
