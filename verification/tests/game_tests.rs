use chess_core::attack::is_field_in_check;
use chess_core::board::Board;
use chess_core::errors::ChessError;
use chess_core::helpers::{Move, Position};
use chess_core::legal::{get_castling_move, get_king_moves};
use chess_core::pieces::{Color, Piece, PieceKind};
use chess_core::status::GameStatus;
use chess_core::utils::chess_coord_to_array_coord;

const START: &str = "rnbqkbnr/pppppppp/8/8/8/8/PPPPPPPP/RNBQKBNR w KQkq - 0 1";

fn sq(text: &str) -> Position {
    chess_coord_to_array_coord(String::from(text)).unwrap()
}

fn mv(from: &str, to: &str) -> Move {
    Move::new(sq(from), sq(to))
}

fn targets(board: &Board, from: &str) -> Vec<Position> {
    board
        .legal_moves_from(sq(from))
        .into_iter()
        .map(|m| m.to)
        .collect()
}

#[test]
fn start_knight_has_two_moves() {
    let board = Board::from_fen(START).unwrap();
    let moves = board.legal_moves_from(sq("b1"));
    assert_eq!(moves.len(), 2);
    assert!(moves.contains(&mv("b1", "a3")));
    assert!(moves.contains(&mv("b1", "c3")));
}

#[test]
fn start_position_has_twenty_moves() {
    let board = Board::new();
    assert_eq!(board.get_all_moves_of_color(Color::White).len(), 20);
    assert_eq!(board.get_all_moves_of_color(Color::Black).len(), 20);
    assert!(!board.no_possible_moves());
    assert_eq!(board.status(), GameStatus::Ongoing);
}

#[test]
fn piece_moves_agree_with_moves_from() {
    let board = Board::new();
    let positions = board.get_all_positions();
    let knight = board.board[6][0].unwrap();
    let moves = knight.get_piece_moves(&positions[0], &positions[1], &board);
    assert_eq!(moves, vec![sq("c3"), sq("a3")]);
    assert_eq!(targets(&board, "b1"), moves);
}

#[test]
fn moves_from_empty_or_opponent_square_are_none() {
    let board = Board::new();
    assert!(board.legal_moves_from(sq("e4")).is_empty());
    assert!(board.legal_moves_from(sq("e7")).is_empty());
}

#[test]
fn en_passant_capture() {
    let mut board = Board::new();
    assert_eq!(board.apply_move(mv("e2", "e4")), Ok(()));
    assert_eq!(board.en_passant, Some(sq("e3")));
    assert_eq!(board.apply_move(mv("a7", "a6")), Ok(()));
    assert_eq!(board.en_passant, None);
    assert_eq!(board.apply_move(mv("e4", "e5")), Ok(()));
    assert_eq!(board.apply_move(mv("d7", "d5")), Ok(()));
    assert_eq!(board.en_passant, Some(sq("d6")));
    assert!(targets(&board, "e5").contains(&sq("d6")));
    assert!(board.to_fen().ends_with(" w KQkq d6 0 3"));

    assert_eq!(board.apply_move(mv("e5", "d6")), Ok(()));
    assert_eq!(*board.get_piece_from_position(&sq("d5")), None);
    assert_eq!(*board.get_piece_from_position(&sq("e5")), None);
    let pawn = board.get_piece_from_position(&sq("d6")).unwrap();
    assert_eq!((pawn.kind, pawn.color), (PieceKind::P, Color::White));
    assert_eq!(board.n_half_moves, 0);
    assert_eq!(board.en_passant, None);
    assert_eq!(board.to_fen(), "rnbqkbnr/1pp1pppp/p2P4/8/8/8/PPPP1PPP/RNBQKBNR b KQkq - 0 3");
}

#[test]
fn castling_is_offered_on_both_sides() {
    let board = Board::from_fen("r3k2r/pppppppp/8/8/8/8/PPPPPPPP/R3K2R w KQkq - 0 1").unwrap();
    let moves = board.get_all_moves_of_color(Color::White);
    assert!(moves.contains(&mv("e1", "g1")));
    assert!(moves.contains(&mv("e1", "c1")));
    assert_eq!(get_castling_move(&board, Color::White, true), Some(sq("g1")));
    assert_eq!(get_castling_move(&board, Color::White, false), Some(sq("c1")));
    assert_eq!(get_castling_move(&board, Color::Black, true), Some(sq("g8")));
    assert_eq!(get_castling_move(&board, Color::Black, false), Some(sq("c8")));
    let positions = board.get_all_positions();
    let king_moves = get_king_moves(&sq("e1"), &board, &positions[0]);
    assert_eq!(king_moves, vec![sq("g1"), sq("c1"), sq("d1"), sq("f1")]);
}

#[test]
fn rook_on_the_open_king_file_removes_castling() {
    let board = Board::from_fen("r3k2r/pppppppp/8/8/4r3/8/PPPP1PPP/R3K2R w KQkq - 0 1").unwrap();
    let moves = board.get_all_moves_of_color(Color::White);
    assert!(board.is_king_in_check(&Color::White));
    assert!(!moves.contains(&mv("e1", "g1")));
    assert!(!moves.contains(&mv("e1", "c1")));
}

#[test]
fn rook_behind_a_pawn_does_not_attack_the_king() {
    let board = Board::from_fen("r3k2r/pppppppp/8/8/4r3/8/PPPPPPPP/R3K2R w KQkq - 0 1").unwrap();
    assert!(!board.is_king_in_check(&Color::White));
    assert!(!is_field_in_check(sq("e1"), &board, Color::White));
    assert!(is_field_in_check(sq("e2"), &board, Color::White));
}

#[test]
fn castling_through_an_attacked_square_is_refused() {
    let board = Board::from_fen("4k3/8/8/8/5r2/8/8/R3K2R w KQ - 0 1").unwrap();
    let moves = board.get_all_moves_of_color(Color::White);
    assert!(!moves.contains(&mv("e1", "g1")));
    assert!(moves.contains(&mv("e1", "c1")));
}

#[test]
fn castling_needs_the_right_and_empty_squares() {
    let board = Board::from_fen("4k3/8/8/8/8/8/8/R3K2R w Q - 0 1").unwrap();
    assert_eq!(get_castling_move(&board, Color::White, true), None);
    assert_eq!(get_castling_move(&board, Color::White, false), Some(sq("c1")));
    let board = Board::from_fen("4k3/8/8/8/8/8/8/RN2K1NR w KQ - 0 1").unwrap();
    assert_eq!(get_castling_move(&board, Color::White, true), None);
    assert_eq!(get_castling_move(&board, Color::White, false), None);
    let board = Board::from_fen("4k3/8/8/8/8/8/8/4K3 w KQ - 0 1").unwrap();
    assert_eq!(get_castling_move(&board, Color::White, true), None);
    assert_eq!(get_castling_move(&board, Color::White, false), None);
}

#[test]
fn castling_moves_the_rook_and_clears_the_rights() {
    let mut board =
        Board::from_fen("r3k2r/pppppppp/8/8/8/8/PPPPPPPP/R3K2R w KQkq - 0 1").unwrap();
    assert_eq!(board.apply_move(mv("e1", "g1")), Ok(()));
    assert_eq!(board.to_fen(), "r3k2r/pppppppp/8/8/8/8/PPPPPPPP/R4RK1 b kq - 1 1");
    assert_eq!(board.king_position(Color::White), sq("g1"));
    assert_eq!(board.apply_move(mv("e8", "c8")), Ok(()));
    assert_eq!(board.to_fen(), "2kr3r/pppppppp/8/8/8/8/PPPPPPPP/R4RK1 w - - 2 2");
    assert_eq!(board.king_position(Color::Black), sq("c8"));
}

#[test]
fn rook_moves_and_captures_clear_single_rights() {
    let mut board = Board::from_fen("r6r/4k3/8/8/8/8/4K3/R6R w KQkq - 0 1").unwrap();
    assert_eq!(board.apply_move(mv("h1", "h8")), Ok(()));
    assert_eq!(board.castling_rights(Color::White), [false, true]);
    assert_eq!(board.castling_rights(Color::Black), [false, true]);
    assert_eq!(board.n_half_moves, 0);
    assert_eq!(board.apply_move(mv("a8", "a1")), Ok(()));
    assert_eq!(board.castling_rights(Color::White), [false, false]);
    assert_eq!(board.castling_rights(Color::Black), [false, false]);
    assert_eq!(board.to_fen(), "7R/4k3/8/8/8/8/4K3/r7 w - - 0 2");
}

#[test]
fn rook_that_leaves_its_corner_clears_one_right() {
    let mut board = Board::from_fen("r3k2r/8/8/8/8/8/8/R3K2R w KQkq - 0 1").unwrap();
    assert_eq!(board.apply_move(mv("a1", "a4")), Ok(()));
    assert_eq!(board.castling_rights(Color::White), [true, false]);
    assert_eq!(board.castling_rights(Color::Black), [true, true]);
    assert_eq!(board.apply_move(mv("h8", "h5")), Ok(()));
    assert_eq!(board.castling_rights(Color::Black), [false, true]);
    assert_eq!(board.to_fen(), "r3k3/8/8/7r/R7/8/8/4K2R w Kq - 2 2");
}

#[test]
fn fools_mate_is_checkmate() {
    let board =
        Board::from_fen("rnb1kbnr/pppp1ppp/8/4p3/6Pq/5P2/PPPPP2P/RNBQKBNR w KQkq - 1 3").unwrap();
    assert!(board.no_possible_moves());
    assert!(board.is_king_in_check(&Color::White));
    assert_eq!(board.status(), GameStatus::Checkmate(Color::Black));
    assert_eq!(board.count_points(), -1000);
}

#[test]
fn fools_mate_by_play() {
    let mut board = Board::new();
    for (from, to) in [("f2", "f3"), ("e7", "e5"), ("g2", "g4"), ("d8", "h4")] {
        assert_eq!(board.apply_move(mv(from, to)), Ok(()));
    }
    assert_eq!(
        board.to_fen(),
        "rnb1kbnr/pppp1ppp/8/4p3/6Pq/5P2/PPPPP2P/RNBQKBNR w KQkq - 1 3"
    );
    assert_eq!(board.status(), GameStatus::Checkmate(Color::Black));
    assert_eq!(board.history.len(), 5);
}

#[test]
fn mate_of_black_scores_for_white() {
    let board = Board::from_fen("R6k/6pp/8/8/8/8/8/4K3 b - - 0 1").unwrap();
    assert_eq!(board.status(), GameStatus::Checkmate(Color::White));
    assert_eq!(board.count_points(), 1000);
}

#[test]
fn stalemate() {
    let board = Board::from_fen("7k/5Q2/6K1/8/8/8/8/8 b - - 0 1").unwrap();
    assert!(board.no_possible_moves());
    assert!(!board.is_king_in_check(&Color::Black));
    assert_eq!(board.status(), GameStatus::Stalemate);
    assert_eq!(board.count_points(), 0);
}

#[test]
fn insufficient_material() {
    for fen in [
        "4k3/8/8/8/8/8/8/4KN2 w - - 0 1",
        "4k3/8/8/8/8/8/8/4KB2 w - - 0 1",
        "4kn2/8/8/8/8/8/8/4K3 w - - 0 1",
        "4kb2/8/8/8/8/8/8/4K3 b - - 0 1",
        "4kb2/8/8/8/8/8/8/4KN2 w - - 0 1",
        "4k3/8/8/8/8/8/8/4K3 w - - 0 1",
    ] {
        let board = Board::from_fen(fen).unwrap();
        assert!(board.is_material_draw());
        assert_eq!(board.status(), GameStatus::InsufficientMaterialDraw);
        assert_eq!(board.count_points(), 0);
    }
}

#[test]
fn sufficient_material() {
    for fen in [
        "4k3/8/8/8/8/8/8/4KR2 w - - 0 1",
        "4k3/8/8/8/8/8/4P3/4K3 w - - 0 1",
        "4k3/8/8/8/8/8/8/3NKN2 w - - 0 1",
        "4kq2/8/8/8/8/8/8/4K3 w - - 0 1",
    ] {
        let board = Board::from_fen(fen).unwrap();
        assert!(!board.is_material_draw());
        assert_eq!(board.status(), GameStatus::Ongoing);
    }
}

#[test]
fn fifty_move_rule() {
    let board = Board::from_fen("4k3/8/8/8/8/8/4P3/4K3 w - - 100 80").unwrap();
    assert_eq!(board.status(), GameStatus::FiftyMoveDraw);
    assert_eq!(board.count_points(), 0);
    let board = Board::from_fen("4k3/8/8/8/8/8/4P3/4K3 w - - 99 80").unwrap();
    assert_eq!(board.status(), GameStatus::Ongoing);
    assert_eq!(board.count_points(), 1);
    let board = Board::from_fen("4k3/8/8/8/8/8/8/4KN2 w - - 100 80").unwrap();
    assert_eq!(board.status(), GameStatus::FiftyMoveDraw);
}

#[test]
fn threefold_repetition() {
    let mut board = Board::from_fen("4k3/8/8/8/8/8/4P3/4K2R w - - 0 1").unwrap();
    let shuffle = [("h1", "g1"), ("e8", "d8"), ("g1", "h1"), ("d8", "e8")];
    for (from, to) in shuffle {
        assert_eq!(board.apply_move(mv(from, to)), Ok(()));
    }
    assert!(!board.is_repetition(board.n_half_moves));
    assert_eq!(board.status(), GameStatus::Ongoing);
    for (from, to) in shuffle {
        assert_eq!(board.apply_move(mv(from, to)), Ok(()));
    }
    assert_eq!(board.history.len(), 9);
    assert!(board.is_repetition(board.n_half_moves));
    assert!(board.repeats(board.history.len()));
    assert!(!board.is_repetition(3));
    assert_eq!(board.status(), GameStatus::RepetitionDraw);
    assert_eq!(board.count_points(), 0);
}

#[test]
fn material_balance() {
    let board = Board::new();
    assert_eq!(board.count_points(), 0);
    let board = Board::from_fen("4k3/pppp4/8/8/8/8/8/QR2K3 w - - 0 1").unwrap();
    assert_eq!(board.count_points(), 10);
    let board = Board::from_fen("rnbqk3/8/8/8/8/8/PPP5/4K3 b - - 0 1").unwrap();
    assert_eq!(board.count_points(), -17);
}

#[test]
fn pinned_piece_cannot_leave_the_line() {
    let board = Board::from_fen("4r2k/8/8/8/8/8/4N3/4K3 w - - 0 1").unwrap();
    assert!(targets(&board, "e2").is_empty());
    let board = Board::from_fen("4r2k/8/8/8/8/8/4R3/4K3 w - - 0 1").unwrap();
    assert_eq!(
        targets(&board, "e2"),
        vec![sq("e3"), sq("e4"), sq("e5"), sq("e6"), sq("e7"), sq("e8")]
    );
}

#[test]
fn en_passant_that_uncovers_the_king_is_refused() {
    let board = Board::from_fen("7k/8/8/K2pP2r/8/8/8/8 w - d6 0 1").unwrap();
    assert_eq!(targets(&board, "e5"), vec![sq("e6")]);
}

#[test]
fn king_cannot_step_next_to_the_other_king() {
    let board = Board::from_fen("8/8/8/3k4/8/3K4/8/8 w - - 0 1").unwrap();
    let moves = targets(&board, "d3");
    assert!(!moves.contains(&sq("d4")));
    assert!(!moves.contains(&sq("c4")));
    assert!(!moves.contains(&sq("e4")));
    assert_eq!(moves.len(), 5);
}

#[test]
fn pawn_attacks_point_at_the_attacked_side() {
    let board = Board::from_fen("4k3/8/8/8/3p4/8/8/4K3 w - - 0 1").unwrap();
    assert!(is_field_in_check(sq("c3"), &board, Color::White));
    assert!(is_field_in_check(sq("e3"), &board, Color::White));
    assert!(!is_field_in_check(sq("c5"), &board, Color::White));
    assert!(!is_field_in_check(sq("d3"), &board, Color::White));
    assert!(!is_field_in_check(sq("c3"), &board, Color::Black));
}

#[test]
fn promotion_defaults_to_queen() {
    let mut board = Board::from_fen("4k3/1P6/8/8/8/8/8/4K3 w - - 5 1").unwrap();
    assert_eq!(board.apply_move(mv("b7", "b8")), Ok(()));
    let queen = board.get_piece_from_position(&sq("b8")).unwrap();
    assert_eq!(
        queen,
        Piece { color: Color::White, kind: PieceKind::Q, position: sq("b8"), has_moved: true }
    );
    assert_eq!(board.to_fen(), "1Q2k3/8/8/8/8/8/8/4K3 b - - 0 1");
}

#[test]
fn promotion_to_a_chosen_kind() {
    let mut board = Board::from_fen("4k3/8/8/8/8/8/1p6/4K3 b - - 0 7").unwrap();
    let m = Move::with_promotion(sq("b2"), sq("b1"), PieceKind::N);
    assert_eq!(board.apply_move(m), Ok(()));
    assert_eq!(board.to_fen(), "4k3/8/8/8/8/8/8/1n2K3 w - - 0 8");
}

#[test]
fn illegal_moves_are_refused() {
    let mut board = Board::new();
    let before = board.duplicate();
    assert_eq!(board.apply_move(mv("e2", "e5")), Err(ChessError::IllegalMove));
    assert_eq!(board.apply_move(mv("e7", "e5")), Err(ChessError::IllegalMove));
    assert_eq!(board.apply_move(mv("e4", "e5")), Err(ChessError::IllegalMove));
    assert_eq!(
        board.apply_move(Move::with_promotion(sq("e2"), sq("e4"), PieceKind::Q)),
        Err(ChessError::IllegalMove)
    );
    assert_eq!(board, before);
    assert!(board.is_legal_move(mv("e2", "e4")));
    assert!(!board.is_legal_move(mv("e2", "e5")));
    let mut board = Board::from_fen("4k3/1P6/8/8/8/8/8/4K3 w - - 0 1").unwrap();
    assert_eq!(
        board.apply_move(Move::with_promotion(sq("b7"), sq("b8"), PieceKind::K)),
        Err(ChessError::IllegalMove)
    );
    assert_eq!(
        board.apply_move(Move::with_promotion(sq("b7"), sq("b8"), PieceKind::P)),
        Err(ChessError::IllegalMove)
    );
}

#[test]
fn check_move_names_the_fault() {
    let board = Board::new();
    assert_eq!(board.check_move(mv("e2", "e4")), Ok(()));
    assert_eq!(board.check_move(mv("e4", "e5")), Err(ChessError::NoPiece));
    assert_eq!(board.check_move(mv("e1", "e2")), Err(ChessError::OwnCapture));
    assert_eq!(
        board.check_move(Move::new(Position::new(8, 0), Position::new(0, 0))),
        Err(ChessError::OutOfRange)
    );
    assert_eq!(board.check_move(mv("e1", "g1")), Err(ChessError::OwnCapture));
    let board = Board::from_fen("4k3/8/8/8/8/8/8/4K3 w - - 0 1").unwrap();
    assert_eq!(board.check_move(mv("e1", "g1")), Err(ChessError::NoPiece));
}

#[test]
fn apply_move_passes_the_turn_and_records_the_text() {
    let mut board = Board::new();
    assert_eq!(board.apply_move(mv("g1", "f3")), Ok(()));
    assert_eq!(board.turn, Color::Black);
    assert_eq!(board.n_half_moves, 1);
    assert_eq!(board.n_full_moves, 1);
    assert_eq!(board.history.len(), 2);
    assert_eq!(*board.history.last().unwrap(), board.to_fen());
    assert_eq!(board.to_fen(), "rnbqkbnr/pppppppp/8/8/8/5N2/PPPPPPPP/RNBQKB1R b KQkq - 1 1");
    assert!(!board.is_king_in_check(&Color::White));
    assert_eq!(board.apply_move(mv("b8", "c6")), Ok(()));
    assert_eq!(board.turn, Color::White);
    assert_eq!(board.n_half_moves, 2);
    assert_eq!(board.n_full_moves, 2);
    assert_eq!(board.history.len(), 3);
    assert_eq!(*board.history.last().unwrap(), board.to_fen());
}

#[test]
fn try_move_leaves_the_receiver_and_the_record() {
    let board = Board::new();
    let after = board.try_move(mv("e2", "e4"));
    assert_eq!(board, Board::new());
    assert_eq!(after.history, board.history);
    assert_eq!(after.turn, Color::Black);
    assert_eq!(after.to_fen(), "rnbqkbnr/pppppppp/8/8/4P3/8/PPPP1PPP/RNBQKBNR b KQkq e3 0 1");
}

#[test]
fn bust_a_move_and_end_of_turn() {
    let mut board = Board::new();
    board.bust_a_move(mv("b1", "c3"));
    assert_eq!(board.turn, Color::White);
    assert_eq!(board.n_half_moves, 1);
    assert_eq!(board.history.len(), 1);
    board.set_values_at_the_end(true);
    assert_eq!(board.turn, Color::Black);
    assert_eq!(board.history.len(), 2);
    board.bust_a_move(mv("d7", "d5"));
    board.set_values_at_the_end(false);
    assert_eq!(board.n_full_moves, 2);
    assert_eq!(board.n_half_moves, 0);
    assert_eq!(board.history.len(), 2);
    board.increase_half_move();
    board.increase_full_move();
    assert_eq!((board.n_half_moves, board.n_full_moves), (1, 3));
    board.reset_half_move();
    assert_eq!(board.n_half_moves, 0);
}

#[test]
fn every_legal_move_keeps_the_own_king_safe() {
    for fen in [
        START,
        "r3k2r/pppppppp/8/8/8/8/PPPPPPPP/R3K2R w KQkq - 0 1",
        "rnb1kbnr/pppp1ppp/8/4p3/5PPq/8/PPPPP2P/RNBQKBNR w KQkq - 1 3",
        "7k/8/8/K2pP2r/8/8/8/8 w - d6 0 1",
        "r1bqkb1r/pppp1ppp/2n2n2/4p2Q/2B1P3/8/PPPP1PPP/RNB1K1NR b KQkq - 3 3",
    ] {
        let board = Board::from_fen(fen).unwrap();
        let mover = board.turn;
        for m in board.get_all_moves_of_color(mover) {
            let mut next = board.duplicate();
            assert_eq!(next.apply_move(m), Ok(()));
            assert_eq!(next.turn, mover.opponent());
            assert!(!next.is_king_in_check(&mover));
            assert_eq!(next.history.len(), board.history.len() + 1);
            assert_eq!(*next.history.last().unwrap(), next.to_fen());
            let king_square = next.king_position(mover);
            let king = next.get_piece_from_position(&king_square).unwrap();
            assert_eq!((king.kind, king.color), (PieceKind::K, mover));
        }
    }
}

#[test]
fn positions_as_they_arise_in_play() {
    let mut board = Board::new();
    assert!(board.is_sound());
    for (from, to) in [("e2", "e4"), ("e7", "e5"), ("g1", "f3"), ("b8", "c6"), ("f1", "b5")] {
        assert_eq!(board.apply_move(mv(from, to)), Ok(()));
        assert!(board.is_sound());
    }
    let read = Board::from_fen(&board.to_fen()).unwrap();
    assert!(read.is_sound());
    let king_in_reach = Board::from_fen("4k3/8/8/8/8/8/8/4R1K1 w - - 0 1").unwrap();
    assert!(king_in_reach.is_well_formed());
    assert!(!king_in_reach.is_sound());
    let mut after = king_in_reach.duplicate();
    assert_eq!(after.apply_move(mv("e1", "e8")), Ok(()));
    assert!(!after.is_sound());
    let mut misplaced = Board::new();
    misplaced.king_positions.insert(0, sq("d1"));
    assert!(misplaced.is_well_formed());
    assert!(!misplaced.is_sound());
}
