use chess_core::board::Board;
use chess_core::errors::ChessError;
use chess_core::helpers::{Move, Position};
use chess_core::pieces::Color;
use chess_core::text::{parse_number, split_chars, to_chars};

fn chars(text: &str) -> Vec<char> {
    text.chars().collect()
}

#[test]
fn text_round_trip_of_parsed_positions() {
    for fen in [
        "rnbqkbnr/pppppppp/8/8/8/8/PPPPPPPP/RNBQKBNR w KQkq - 0 1",
        "rnbqkbnr/pppp1ppp/8/4p3/4P3/8/PPPP1PPP/RNBQKBNR w KQkq e6 0 2",
        "r3k2r/8/8/8/8/8/8/R3K2R b Kq - 12 34",
        "8/8/8/3k4/8/3K4/8/8 w - - 99 65535",
        "1n2k3/p6p/8/8/8/8/P6P/1N2K1N1 b - a3 7 10",
    ] {
        let board = Board::from_fen(fen).unwrap();
        assert_eq!(board.to_fen(), fen);
        assert_eq!(board.history, vec![fen.to_owned()]);
        let again = Board::from_fen(&board.to_fen()).unwrap();
        assert_eq!(again, board);
    }
}

#[test]
fn text_round_trip_along_a_game() {
    let mut board = Board::new();
    let line = [
        ((3, 1), (3, 3)),
        ((3, 6), (3, 4)),
        ((1, 0), (2, 2)),
        ((6, 7), (5, 5)),
        ((2, 0), (5, 3)),
        ((1, 7), (2, 5)),
        ((3, 0), (1, 0)),
        ((2, 5), (3, 3)),
    ];
    for ((fx, fy), (tx, ty)) in line {
        let m = Move::new(Position::new(fx, fy), Position::new(tx, ty));
        assert_eq!(board.apply_move(m), Ok(()));
        let text = board.to_fen();
        let read = Board::from_fen(&text).unwrap();
        assert_eq!(read.to_fen(), text);
        assert_eq!(read.turn, board.turn);
        assert_eq!(read.en_passant, board.en_passant);
        assert_eq!(read.n_half_moves, board.n_half_moves);
        assert_eq!(read.n_full_moves, board.n_full_moves);
        assert_eq!(read.castling_rights(Color::White), board.castling_rights(Color::White));
        assert_eq!(read.castling_rights(Color::Black), board.castling_rights(Color::Black));
        assert_eq!(read.king_position(Color::White), board.king_position(Color::White));
        assert_eq!(read.king_position(Color::Black), board.king_position(Color::Black));
    }
    assert_eq!(board.to_fen(), "r1bqkb1r/pppp1ppp/2n5/4p3/2B1n3/5N2/PPPP1PPP/RNBQ1RK1 w kq - 0 5");
}

#[test]
fn rows_may_split_runs_of_empty_squares() {
    let board = Board::from_fen("4k3/8/8/8/8/8/8/4K3 w - - 0 1").unwrap();
    let other = Board::from_fen("13k3/8/44/8/8/8/1111211/4K12 w - - 0 1").unwrap();
    assert_eq!(other.to_fen(), board.to_fen());
    assert_eq!(other.board, board.board);
}

#[test]
fn castling_letters_in_any_order() {
    let board = Board::from_fen("r3k2r/8/8/8/8/8/8/R3K2R w qK - 0 1").unwrap();
    assert_eq!(board.castling_rights(Color::White), [true, false]);
    assert_eq!(board.castling_rights(Color::Black), [false, true]);
    assert_eq!(board.to_fen(), "r3k2r/8/8/8/8/8/8/R3K2R w Kq - 0 1");
}

#[test]
fn malformed_text_is_refused() {
    for fen in [
        "",
        "rnbqkbnr/pppppppp/8/8/8/8/PPPPPPPP/RNBQKBNR w KQkq - 0",
        "rnbqkbnr/pppppppp/8/8/8/8/PPPPPPPP/RNBQKBNR w KQkq - 0 1 2",
        "rnbqkbnr/pppppppp/8/8/8/8/PPPPPPPP/RNBQKBNR  w KQkq - 0 1",
        "rnbqkbnr/pppppppp/8/8/8/8/PPPPPPPP w KQkq - 0 1",
        "rnbqkbnr/pppppppp/8/8/8/8/8/PPPPPPPP/RNBQKBNR w KQkq - 0 1",
        "rnbqkbnr/pppppppp/7/8/8/8/PPPPPPPP/RNBQKBNR w KQkq - 0 1",
        "rnbqkbnr/pppppppp/9/8/8/8/PPPPPPPP/RNBQKBNR w KQkq - 0 1",
        "rnbqkbnr/ppppppppp/8/8/8/8/PPPPPPPP/RNBQKBNR w KQkq - 0 1",
        "rnbqkbnr/pppppppp/8/8/8/8/PPPPPPPP/RNBQKBNR1 w KQkq - 0 1",
        "rnbqkbnr/pppppppp/08/8/8/8/PPPPPPPP/RNBQKBNR w KQkq - 0 1",
        "rnbqkbnr/pppppppp/8/8/8/8/PPPPPPPP/RNBQKXNR w KQkq - 0 1",
        "rnbqkbnr/pppppppp/8/8/8/8/PPPPPPPP/RNBQKBNR x KQkq - 0 1",
        "rnbqkbnr/pppppppp/8/8/8/8/PPPPPPPP/RNBQKBNR W KQkq - 0 1",
        "rnbqkbnr/pppppppp/8/8/8/8/PPPPPPPP/RNBQKBNR w KQxq - 0 1",
        "rnbqkbnr/pppppppp/8/8/8/8/PPPPPPPP/RNBQKBNR w K- - 0 1",
        "rnbqkbnr/pppppppp/8/8/8/8/PPPPPPPP/RNBQKBNR w  - 0 1",
        "rnbqkbnr/pppppppp/8/8/8/8/PPPPPPPP/RNBQKBNR w KQkq e9 0 1",
        "rnbqkbnr/pppppppp/8/8/8/8/PPPPPPPP/RNBQKBNR w KQkq x 0 1",
        "rnbqkbnr/pppppppp/8/8/8/8/PPPPPPPP/RNBQKBNR w KQkq - -1 1",
        "rnbqkbnr/pppppppp/8/8/8/8/PPPPPPPP/RNBQKBNR w KQkq - x 1",
        "rnbqkbnr/pppppppp/8/8/8/8/PPPPPPPP/RNBQKBNR w KQkq - 0 one",
        "rnbqkbnr/pppppppp/8/8/8/8/PPPPPPPP/RNBQKBNR w KQkq - 0 0",
        "rnbqkbnr/pppppppp/8/8/8/8/PPPPPPPP/RNBQKBNR w KQkq - 65536 1",
        "rnbqkbnr/pppppppp/8/8/8/8/PPPPPPPP/RNBQKBNR w KQkq - 0 65536",
        "rnbq1bnr/pppppppp/8/8/8/8/PPPPPPPP/RNBQKBNR w KQkq - 0 1",
        "rnbqkbnr/pppppppp/8/8/8/8/PPPPPPPP/RNBQ1BNR w KQkq - 0 1",
        "rnbqkbnr/pppppppp/8/8/8/8/PPPPKPPP/RNBQKBNR w KQkq - 0 1",
    ] {
        assert_eq!(Board::from_fen(fen), Err(ChessError::InvalidText), "{}", fen);
    }
    assert_eq!(ChessError::InvalidText.message(), "invalid text");
}

#[test]
fn split_keeps_empty_parts() {
    let parts = split_chars(&chars("a b  c "), ' ');
    assert_eq!(parts, vec![chars("a"), chars("b"), chars(""), chars("c"), chars("")]);
    assert_eq!(split_chars(&chars(""), '/'), vec![chars("")]);
    assert_eq!(split_chars(&chars("8/8"), '/'), vec![chars("8"), chars("8")]);
}

#[test]
fn numbers_in_decimal() {
    assert_eq!(parse_number(&chars("0")), Some(0));
    assert_eq!(parse_number(&chars("007")), Some(7));
    assert_eq!(parse_number(&chars("65535")), Some(65535));
    assert_eq!(parse_number(&chars("65536")), None);
    assert_eq!(parse_number(&chars("99999999999999999999")), None);
    assert_eq!(parse_number(&chars("")), None);
    assert_eq!(parse_number(&chars("+5")), None);
    assert_eq!(parse_number(&chars("1a")), None);
    assert_eq!(to_chars("e4 "), vec!['e', '4', ' ']);
}

#[test]
fn counters_are_written_in_decimal() {
    let board = Board::from_fen("4k3/8/8/8/8/8/8/4K2R w K - 10 200").unwrap();
    assert_eq!(board.n_half_moves, 10);
    assert_eq!(board.n_full_moves, 200);
    assert_eq!(board.to_fen(), "4k3/8/8/8/8/8/8/4K2R w K - 10 200");
}
