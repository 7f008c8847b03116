use chess_core::bitboard::BitBoard;
use chess_core::moves::Move;
use chess_core::square::Square;

#[test]
fn move_new_keeps_both_squares() {
    let m = Move::new(12, 28);
    assert_eq!(m.initial_square, 12);
    assert_eq!(m.target_square, 28);
}

#[test]
fn move_default_is_the_null_move() {
    let m = Move::default();
    assert_eq!(m.initial_square, 0);
    assert_eq!(m.target_square, 0);
}

#[test]
fn from_square_bitboard_expands_in_order() {
    let destinations = BitBoard::new((1u64 << 1) | (1u64 << 5) | (1u64 << 9));
    let moves = Move::from_square_bitboard(3, destinations);
    assert_eq!(moves.len(), 3);
    let targets: Vec<u8> = moves.iter().map(|m| m.target_square).collect();
    assert_eq!(targets, vec![1, 5, 9]);
    for m in &moves {
        assert_eq!(m.initial_square, 3);
    }
    assert_eq!(Move::from_square_bitboard(0, BitBoard::new(0)).len(), 0);
}

#[test]
fn square_accessors_agree() {
    let s = Square::new(42);
    assert_eq!(s.value(), 42);
    assert_eq!(s.as_u8(), 42);
    assert_eq!(s.as_u64(), 42u64);
    assert_eq!(Square::new(0).value(), 0);
    assert_eq!(Square::new(63).as_u64(), 63);
}
