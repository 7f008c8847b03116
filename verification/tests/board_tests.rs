use chess_core::board::Board;
use chess_core::color::Color;
use chess_core::piece::Piece;

#[test]
fn default_bitboards_hold_the_starting_layout() {
    let board = Board::default();
    assert_eq!(board.pawns().value(), 0xff00000000ff00);
    assert_eq!(board.knights().value(), 0x4200000000000042);
    assert_eq!(board.bishops().value(), 0x2400000000000024);
    assert_eq!(board.rooks().value(), 0x8100000000000081);
    assert_eq!(board.queens().value(), 0x800000000000008);
    assert_eq!(board.kings().value(), 0x1000000000000010);
    assert_eq!(board.white().value(), 0xffff);
    assert_eq!(board.black().value(), 0xffff000000000000);
    assert_eq!(board.combined().value(), 0xffff00000000ffff);
    assert_eq!(board.turn(), Color::White);
}

#[test]
fn piece_and_color_round_trip_on_the_default_board() {
    let board = Board::default();
    let back_rank = [
        Piece::Rook,
        Piece::Knight,
        Piece::Bishop,
        Piece::Queen,
        Piece::King,
        Piece::Bishop,
        Piece::Knight,
        Piece::Rook,
    ];
    for f in 0..8u8 {
        assert_eq!(board.piece_at(f), Some(back_rank[f as usize]));
        assert_eq!(board.color_at(f), Some(Color::White));
        assert_eq!(board.piece_at(8 + f), Some(Piece::Pawn));
        assert_eq!(board.color_at(8 + f), Some(Color::White));
        assert_eq!(board.piece_at(48 + f), Some(Piece::Pawn));
        assert_eq!(board.color_at(48 + f), Some(Color::Black));
        assert_eq!(board.piece_at(56 + f), Some(back_rank[f as usize]));
        assert_eq!(board.color_at(56 + f), Some(Color::Black));
    }
    for s in 16..48u8 {
        assert_eq!(board.piece_at(s), None);
        assert_eq!(board.color_at(s), None);
    }
    // spot checks from the corners
    assert_eq!(board.piece_at(0), Some(Piece::Rook));
    assert_eq!(board.color_at(0), Some(Color::White));
    assert_eq!(board.piece_at(60), Some(Piece::King));
    assert_eq!(board.color_at(60), Some(Color::Black));
}

#[test]
fn starting_position_has_twenty_moves() {
    let board = Board::default();
    let moves = board.generate_moves();
    assert_eq!(moves.len(), 20);
    let expected: [(u8, u8); 20] = [
        (1, 16),
        (1, 18),
        (6, 21),
        (6, 23),
        (8, 16),
        (8, 24),
        (9, 17),
        (9, 25),
        (10, 18),
        (10, 26),
        (11, 19),
        (11, 27),
        (12, 20),
        (12, 28),
        (13, 21),
        (13, 29),
        (14, 22),
        (14, 30),
        (15, 23),
        (15, 31),
    ];
    for (m, (f, t)) in moves.iter().zip(expected.iter()) {
        assert_eq!(m.initial_square, *f);
        assert_eq!(m.target_square, *t);
    }
}

#[test]
fn moves_never_target_the_side_to_move() {
    let board = Board::default();
    let own = board.white().value();
    for m in board.generate_moves() {
        assert!(m.target_square < 64);
        assert_eq!(own >> m.target_square & 1, 0);
        // and every move starts on one of the mover's squares
        assert_eq!(own >> m.initial_square & 1, 1);
    }
}
