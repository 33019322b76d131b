use chess_core::errors::ChessError;
use chess_core::helpers::{cell_of_square, square_in_cell, Move, Position};
use chess_core::pieces::{Color, Piece, PieceKind};
use chess_core::utils::{chess_coord_to_array_coord, get_en_passant, was_en_passant_played};

#[test]
fn test_chess_coord_to_array_coord() {
    assert_eq!(
        Position::get_valid_position(6, 2),
        chess_coord_to_array_coord(String::from("b3"))
    );
}

#[test]
fn test_get_en_passant() {
    let output = get_en_passant(&PieceKind::P, &Position::new(2, 1), &Position::new(2, 3));
    assert_eq!(Some(Position::new(2, 2)), output);

    // The target is the square between the two ranks.
    let output = get_en_passant(&PieceKind::P, &Position::new(2, 7), &Position::new(2, 5));
    assert_eq!(Some(Position::new(2, 6)), output);

    let output = get_en_passant(&PieceKind::P, &Position::new(2, 7), &Position::new(2, 6));
    assert_eq!(None, output);

    let output = get_en_passant(&PieceKind::R, &Position::new(2, 7), &Position::new(2, 5));
    assert_eq!(None, output);
}

#[test]
fn en_passant_after_black_double_step() {
    let output = get_en_passant(&PieceKind::P, &Position::new(4, 6), &Position::new(4, 4));
    assert_eq!(Some(Position::new(4, 5)), output);
}

#[test]
fn en_passant_played_only_by_pawns_on_the_target() {
    let target = Some(Position::new(4, 5));
    assert!(was_en_passant_played(&PieceKind::P, &Position::new(4, 5), &target));
    assert!(!was_en_passant_played(&PieceKind::Q, &Position::new(4, 5), &target));
    assert!(!was_en_passant_played(&PieceKind::P, &Position::new(3, 5), &target));
    assert!(!was_en_passant_played(&PieceKind::P, &Position::new(4, 5), &None));
}

#[test]
fn square_text_corners() {
    assert_eq!(chess_coord_to_array_coord(String::from("a1")), Some(Position::new(7, 0)));
    assert_eq!(chess_coord_to_array_coord(String::from("h1")), Some(Position::new(0, 0)));
    assert_eq!(chess_coord_to_array_coord(String::from("e8")), Some(Position::new(3, 7)));
    assert_eq!(Position::new(7, 0).get_as_chess_string(), "a1");
    assert_eq!(Position::new(0, 7).get_as_chess_string(), "h8");
    assert_eq!(Position::new(3, 3).get_as_chess_string(), "e4");
}

#[test]
fn square_text_round_trip() {
    for x in 0..8 {
        for y in 0..8 {
            let p = Position::new(x, y);
            assert_eq!(chess_coord_to_array_coord(p.get_as_chess_string()), Some(p));
        }
    }
}

#[test]
fn square_text_rejects_malformed_input() {
    assert_eq!(chess_coord_to_array_coord(String::from("")), None);
    assert_eq!(chess_coord_to_array_coord(String::from("e")), None);
    assert_eq!(chess_coord_to_array_coord(String::from("e44")), None);
    assert_eq!(chess_coord_to_array_coord(String::from("i1")), None);
    assert_eq!(chess_coord_to_array_coord(String::from("a9")), None);
    assert_eq!(chess_coord_to_array_coord(String::from("a0")), None);
    assert_eq!(chess_coord_to_array_coord(String::from("E4")), None);
    assert_eq!(chess_coord_to_array_coord(String::from("4e")), None);
}

#[test]
fn valid_position_bounds() {
    assert_eq!(Position::get_valid_position(0, 0), Some(Position::new(0, 0)));
    assert_eq!(Position::get_valid_position(7, 7), Some(Position::new(7, 7)));
    assert_eq!(Position::get_valid_position(-1, 0), None);
    assert_eq!(Position::get_valid_position(0, 8), None);
    assert_eq!(Position::get_valid_position(8, -1), None);
    assert_eq!(Position::new(5, 2).get_x_y_as_int(), (5, 2));
}

#[test]
fn checked_position_reports_out_of_range() {
    assert_eq!(Position::checked(2, 3), Ok(Position::new(2, 3)));
    assert_eq!(Position::checked(8, 3), Err(ChessError::OutOfRange));
    assert_eq!(Position::checked(2, -1), Err(ChessError::OutOfRange));
    assert_eq!(ChessError::OutOfRange.message(), "coordinate out of range");
}

#[test]
fn piece_letters() {
    let square = Position::new(0, 0);
    let kinds = [
        (PieceKind::R, 'R', 'r'),
        (PieceKind::N, 'N', 'n'),
        (PieceKind::B, 'B', 'b'),
        (PieceKind::Q, 'Q', 'q'),
        (PieceKind::K, 'K', 'k'),
        (PieceKind::P, 'P', 'p'),
    ];
    for (kind, upper, lower) in kinds {
        assert_eq!(Piece::new(Color::White, kind, square).get_piece_kind_as_char(), upper);
        assert_eq!(Piece::new(Color::Black, kind, square).get_piece_kind_as_char(), lower);
        assert_eq!(Piece::get_piece_kind_and_color(&upper), (kind, Color::White));
        assert_eq!(Piece::get_piece_kind_and_color(&lower), (kind, Color::Black));
    }
    assert_eq!(Piece::parse_piece_letter('x'), None);
    assert_eq!(Piece::parse_piece_letter('1'), None);
}

#[test]
fn piece_values() {
    assert_eq!(PieceKind::P.points(), 1);
    assert_eq!(PieceKind::N.points(), 3);
    assert_eq!(PieceKind::B.points(), 3);
    assert_eq!(PieceKind::R.points(), 5);
    assert_eq!(PieceKind::Q.points(), 9);
    assert_eq!(PieceKind::K.points(), 0);
    assert_eq!(Piece::new(Color::Black, PieceKind::Q, Position::new(4, 7)).points(), 9);
}

#[test]
fn new_piece_has_not_moved() {
    let mut piece = Piece::new(Color::White, PieceKind::N, Position::new(1, 0));
    assert!(!piece.has_moved);
    piece.move_piece(Position::new(2, 2));
    assert!(piece.has_moved);
    assert_eq!(piece.position, Position::new(2, 2));
    assert_ne!(piece, Piece::new(Color::White, PieceKind::N, Position::new(2, 2)));
}

#[test]
fn colors_and_moves() {
    assert_eq!(Color::White.opponent(), Color::Black);
    assert_eq!(Color::Black.opponent(), Color::White);
    let m = Move::new(Position::new(1, 1), Position::new(1, 3));
    assert_eq!(m.from, Position::new(1, 1));
    assert_eq!(m.to, Position::new(1, 3));
    assert_eq!(m.promotion, None);
    let p = Move::with_promotion(Position::new(1, 6), Position::new(1, 7), PieceKind::N);
    assert_eq!(p.promotion, Some(PieceKind::N));
}

#[test]
fn cells_of_the_window() {
    assert_eq!(square_in_cell(0, 0, Color::White), Some(Position::new(7, 7)));
    assert_eq!(square_in_cell(7, 7, Color::White), Some(Position::new(0, 0)));
    assert_eq!(square_in_cell(4, 7, Color::White), Some(Position::new(3, 0)));
    assert_eq!(square_in_cell(0, 0, Color::Black), Some(Position::new(0, 0)));
    assert_eq!(square_in_cell(2, 5, Color::Black), Some(Position::new(2, 5)));
    assert_eq!(square_in_cell(8, 0, Color::White), None);
    assert_eq!(square_in_cell(0, -1, Color::Black), None);
    assert_eq!(square_in_cell(i32::MIN, 0, Color::White), None);
    for x in 0..8 {
        for y in 0..8 {
            for color in [Color::White, Color::Black] {
                let (col, row) = cell_of_square(&Position::new(x, y), color);
                assert_eq!(square_in_cell(col as i32, row as i32, color), Some(Position::new(x, y)));
            }
        }
    }
    assert_eq!(cell_of_square(&Position::new(3, 0), Color::White), (4, 7));
}
