use chess_core::board::Board;
use chess_core::helpers::Position;
use chess_core::pieces::{Color, Piece, PieceKind};

#[test]
fn test_move_piece() {
    let mut board = Board::new();

    board.move_piece(&Position::new(0, 1), &Position::new(0, 7));

    let target_piece: Piece = board.board[0][7].unwrap();

    assert_eq!(target_piece.kind, PieceKind::P);
    assert_eq!(target_piece.color, Color::White);

    match board.board[0][1] {
        Some(_) => assert!(false),
        None => assert!(true),
    }
}

#[test]
fn test_from_fen_new_game() {
    let fen = "rnbqkbnr/pppppppp/8/8/8/8/PPPPPPPP/RNBQKBNR w KQkq - 0 1";
    let board = Board::from_fen(fen);

    assert_eq!(board.unwrap(), Board::new())
}

#[test]
fn test_to_fen_new_game() {
    let new_board_fen = Board::new().to_fen();
    let expected_fen = "rnbqkbnr/pppppppp/8/8/8/8/PPPPPPPP/RNBQKBNR w KQkq - 0 1".to_owned();

    assert_eq!(new_board_fen, expected_fen)
}

#[test]
fn moved_piece_records_its_square() {
    let mut board = Board::new();
    board.move_piece(&Position::new(3, 1), &Position::new(3, 3));
    let piece = board.board[3][3].unwrap();
    assert_eq!(piece.position, Position::new(3, 3));
    assert!(piece.has_moved);
    assert_eq!(*board.get_piece_from_position(&Position::new(3, 1)), None);
}

#[test]
fn remove_piece_empties_the_square() {
    let mut board = Board::new();
    board.remove_piece(&Position::new(4, 0));
    assert_eq!(board.board[4][0], None);
    assert_eq!(board.board[3][0].unwrap().kind, PieceKind::K);
}

#[test]
fn start_position_layout() {
    let board = Board::new();
    assert_eq!(board.board[3][0], Some(Piece::new(Color::White, PieceKind::K, Position::new(3, 0))));
    assert_eq!(board.board[4][0], Some(Piece::new(Color::White, PieceKind::Q, Position::new(4, 0))));
    assert_eq!(board.board[0][7], Some(Piece::new(Color::Black, PieceKind::R, Position::new(0, 7))));
    assert_eq!(board.board[6][7], Some(Piece::new(Color::Black, PieceKind::N, Position::new(6, 7))));
    assert_eq!(board.board[5][6], Some(Piece::new(Color::Black, PieceKind::P, Position::new(5, 6))));
    assert_eq!(board.board[2][3], None);
    assert_eq!(board.turn, Color::White);
    assert_eq!(board.en_passant, None);
    assert_eq!(board.n_half_moves, 0);
    assert_eq!(board.n_full_moves, 1);
    assert_eq!(board.king_position(Color::White), Position::new(3, 0));
    assert_eq!(board.king_position(Color::Black), Position::new(3, 7));
    assert_eq!(board.castling_rights(Color::White), [true, true]);
    assert_eq!(board.castling_rights(Color::Black), [true, true]);
    assert_eq!(
        board.history,
        vec!["rnbqkbnr/pppppppp/8/8/8/8/PPPPPPPP/RNBQKBNR w KQkq - 0 1".to_owned()]
    );
}

#[test]
fn pieces_and_positions_by_color() {
    let board = Board::new();
    let pieces = board.get_pieces();
    assert_eq!(pieces[0].len(), 16);
    assert_eq!(pieces[1].len(), 16);
    assert_eq!(pieces[0][0], Piece::new(Color::White, PieceKind::R, Position::new(0, 0)));
    assert_eq!(pieces[0][1], Piece::new(Color::White, PieceKind::P, Position::new(0, 1)));
    assert_eq!(pieces[1][0], Piece::new(Color::Black, PieceKind::P, Position::new(0, 6)));
    let positions = board.get_all_positions();
    assert_eq!(positions[0][2], Position::new(1, 0));
    assert_eq!(positions[1][15], Position::new(7, 7));
    assert_eq!(
        board.get_color_positions(&pieces[1][..2]),
        vec![Position::new(0, 6), Position::new(0, 7)]
    );
}

#[test]
fn duplicate_is_equal_and_separate() {
    let board = Board::new();
    let mut copy = board.duplicate();
    assert_eq!(copy, board);
    copy.remove_piece(&Position::new(0, 0));
    assert_ne!(copy, board);
    assert!(board.board[0][0].is_some());
}

#[test]
fn rows_as_each_player_sees_them() {
    let board = Board::new();
    let white = board.rows_as_seen(&Color::White);
    assert_eq!(white.len(), 8);
    assert_eq!(white[0][0], board.board[7][7]);
    assert_eq!(white[0][4].unwrap().kind, PieceKind::K);
    assert_eq!(white[0][4].unwrap().color, Color::Black);
    assert_eq!(white[7][3].unwrap().kind, PieceKind::Q);
    assert_eq!(white[7][7], board.board[0][0]);
    assert_eq!(white[4][2], None);
    let black = board.rows_as_seen(&Color::Black);
    assert_eq!(black[0][0], board.board[0][0]);
    assert_eq!(black[0][3].unwrap().kind, PieceKind::K);
    assert_eq!(black[0][3].unwrap().color, Color::White);
    assert_eq!(black[7][7], board.board[7][7]);
    for row in 0..8 {
        assert_eq!(white[row].len(), 8);
        for col in 0..8 {
            assert_eq!(white[row][col], black[7 - row][7 - col]);
        }
    }
}

#[test]
fn well_formed_positions() {
    let mut board = Board::new();
    assert!(board.is_well_formed());
    board.board[0][0] = Some(Piece::new(Color::White, PieceKind::R, Position::new(1, 0)));
    assert!(!board.is_well_formed());
    let mut board = Board::new();
    board.en_passant = Some(Position::new(8, 2));
    assert!(!board.is_well_formed());
    let mut board = Board::new();
    board.n_full_moves = 0;
    assert!(!board.is_well_formed());
    let mut board = Board::new();
    board.history.clear();
    assert!(!board.is_well_formed());
    let mut board = Board::new();
    board.castling.clear();
    assert!(!board.is_well_formed());
    let mut board = Board::new();
    board.king_positions.remove(&1);
    assert!(!board.is_well_formed());
}
