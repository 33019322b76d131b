use chess_core::board::Board;

/// The number of lines of play of `depth` moves from `board`.
fn count_lines(board: &Board, depth: u32) -> u64 {
    let moves = board.get_all_moves_of_color(board.turn);
    if depth == 1 {
        return moves.len() as u64;
    }
    let mut lines = 0;
    for m in moves {
        lines += count_lines(&board.try_move(m), depth - 1);
    }
    lines
}

#[test]
fn lines_from_the_start() {
    let board = Board::new();
    assert_eq!(count_lines(&board, 1), 20);
    assert_eq!(count_lines(&board, 2), 400);
    assert_eq!(count_lines(&board, 3), 8902);
}

#[test]
fn lines_from_the_start_four_deep() {
    let board = Board::new();
    assert_eq!(count_lines(&board, 4), 197281);
}

#[test]
fn lines_with_castling_and_pins() {
    let board = Board::from_fen(
        "r3k2r/p1ppqpb1/bn2pnp1/3PN3/1p2P3/2N2Q1p/PPPBBPPP/R3K2R w KQkq - 0 1",
    )
    .unwrap();
    assert_eq!(count_lines(&board, 1), 48);
    assert_eq!(count_lines(&board, 2), 2039);
    assert_eq!(count_lines(&board, 3), 97862);
}

#[test]
fn lines_with_en_passant_and_discovered_checks() {
    let board = Board::from_fen("8/2p5/3p4/KP5r/1R3p1k/8/4P1P1/8 w - - 0 1").unwrap();
    assert_eq!(count_lines(&board, 1), 14);
    assert_eq!(count_lines(&board, 2), 191);
    assert_eq!(count_lines(&board, 3), 2812);
    assert_eq!(count_lines(&board, 4), 43238);
}

#[test]
fn lines_from_a_middle_game() {
    let board = Board::from_fen(
        "r4rk1/1pp1qppp/p1np1n2/2b1p1B1/2B1P1b1/P1NP1N2/1PP1QPPP/R4RK1 w - - 0 10",
    )
    .unwrap();
    assert_eq!(count_lines(&board, 1), 46);
    assert_eq!(count_lines(&board, 2), 2079);
    assert_eq!(count_lines(&board, 3), 89890);
}
