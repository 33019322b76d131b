use chess_core::board::Board;
use chess_core::bot::{shuffle_moves, AlphaBetaResult, ChessBot};
use chess_core::helpers::{Move, Position};
use chess_core::pieces::Color;
use chess_core::utils::chess_coord_to_array_coord;

fn square(text: &str) -> Position {
    chess_coord_to_array_coord(String::from(text)).unwrap()
}

#[test]
fn bot_is_deterministic_for_a_seed() {
    let board = Board::new();
    let mut bot = ChessBot::new(Color::White, 2);
    let first = bot.get_bot_move(&board, 42);
    let second = bot.get_bot_move(&board, 42);
    assert!(first.is_some());
    assert_eq!(first, second);
    assert!(board.get_all_moves_of_color(Color::White).contains(&first.unwrap()));
    let mut other_bot = ChessBot::new(Color::Black, 2);
    assert_eq!(other_bot.get_bot_move(&board, 42), first);
    assert_eq!(other_bot.color, Color::White);
    assert_eq!(board, Board::new());
}

#[test]
fn bot_counts_the_scored_positions() {
    let board = Board::new();
    let mut bot = ChessBot::new(Color::White, 1);
    assert_eq!(bot.n_calculations, 0);
    assert_eq!(bot.max_depth, 1);
    bot.get_bot_move(&board, 7);
    assert_eq!(bot.n_calculations, 20);
}

#[test]
fn bot_takes_the_hanging_queen() {
    let board = Board::from_fen("4k3/8/8/3q4/8/2N5/8/4K3 w - - 0 1").unwrap();
    for seed in 0..8 {
        let mut bot = ChessBot::new(Color::White, 1);
        assert_eq!(bot.get_bot_move(&board, seed), Some(Move::new(square("c3"), square("d5"))));
    }
}

#[test]
fn bot_mates_in_one() {
    let board = Board::from_fen("6k1/5ppp/8/8/8/8/8/R3K3 w - - 0 1").unwrap();
    for depth in 1..4 {
        let mut bot = ChessBot::new(Color::White, depth);
        assert_eq!(bot.get_bot_move(&board, 3), Some(Move::new(square("a1"), square("a8"))));
    }
    let board = Board::from_fen("4k3/8/8/8/8/8/5PPP/r5K1 w - - 0 1").unwrap();
    let mut bot = ChessBot::new(Color::White, 2);
    assert_eq!(bot.get_bot_move(&board, 3), None);
}

#[test]
fn bot_as_black_minimizes() {
    let board = Board::from_fen("4k3/8/2n5/8/3Q4/8/8/4K3 b - - 0 1").unwrap();
    for seed in 0..8 {
        let mut bot = ChessBot::new(Color::White, 1);
        assert_eq!(bot.get_bot_move(&board, seed), Some(Move::new(square("c6"), square("d4"))));
        assert_eq!(bot.color, Color::Black);
    }
}

#[test]
fn search_prefers_the_first_of_equal_moves() {
    let board = Board::new();
    let moves = board.get_all_moves_of_color(Color::White);
    let mut bot = ChessBot::new(Color::White, 1);
    let result = bot.alpha_beta_outer(board.duplicate(), moves.clone());
    assert_eq!(result.le_move, Some(moves[0]));
    assert_eq!(result.score, 0);
    let mut reversed = moves.clone();
    reversed.reverse();
    let result = bot.alpha_beta_outer(board.duplicate(), reversed.clone());
    assert_eq!(result.le_move, Some(reversed[0]));
    let result = bot.alpha_beta_outer(board.duplicate(), Vec::new());
    assert_eq!(result.le_move, None);
}

#[test]
fn window_search_is_limited_to_the_window() {
    let board = Board::from_fen("4k3/8/8/8/8/8/8/QR2K3 w - - 0 1").unwrap();
    let mut bot = ChessBot::new(Color::White, 1);
    assert_eq!(bot.alpha_beta_max(board.duplicate(), 0, -100, 100), 14);
    assert_eq!(bot.alpha_beta_max(board.duplicate(), 0, -100, 5), 5);
    assert_eq!(bot.alpha_beta_max(board.duplicate(), 0, 20, 100), 20);
    let black = Board::from_fen("4k3/8/8/8/8/8/8/QR2K3 b - - 0 1").unwrap();
    assert_eq!(bot.alpha_beta_min(black.duplicate(), 0, -100, 100), 14);
    assert_eq!(bot.alpha_beta_min(black.duplicate(), 1, -100, 100), 14);
}

#[test]
fn two_ply_search_sees_the_recapture() {
    let board = Board::from_fen("4k3/8/2p5/3p4/8/2N5/8/4K3 w - - 0 1").unwrap();
    let mut shallow = ChessBot::new(Color::White, 1);
    assert_eq!(shallow.alpha_beta_max(board.duplicate(), 1, -1000, 1000), 2);
    let mut deep = ChessBot::new(Color::White, 2);
    assert_eq!(deep.alpha_beta_max(board.duplicate(), 2, -1000, 1000), 1);
}

#[test]
fn shuffle_is_a_permutation_that_depends_on_the_seed() {
    let board = Board::new();
    let moves = board.get_all_moves_of_color(Color::White);
    let mut changed = false;
    let mut differ = false;
    let first = shuffle_moves(&moves, 0);
    for seed in 0..16 {
        let shuffled = shuffle_moves(&moves, seed);
        assert_eq!(shuffled, shuffle_moves(&moves, seed));
        assert_eq!(shuffled.len(), moves.len());
        for m in &moves {
            assert_eq!(shuffled.iter().filter(|x| *x == m).count(), 1);
        }
        changed = changed || shuffled != moves;
        differ = differ || shuffled != first;
    }
    assert!(changed);
    assert!(differ);
    assert!(shuffle_moves(&Vec::new(), 5).is_empty());
}

#[test]
fn seed_decides_between_equal_moves() {
    let board = Board::new();
    let mut chosen: Vec<Move> = Vec::new();
    for seed in 0..24 {
        let mut bot = ChessBot::new(Color::White, 1);
        let m = bot.get_bot_move(&board, seed).unwrap();
        let moves = board.get_all_moves_of_color(Color::White);
        assert_eq!(m, shuffle_moves(&moves, seed)[0]);
        if !chosen.contains(&m) {
            chosen.push(m);
        }
    }
    assert!(chosen.len() > 1);
}

#[test]
fn search_result_defaults() {
    let none = AlphaBetaResult::default();
    assert_eq!(none.le_move, None);
    assert_eq!(none.score, i32::MAX);
    let some = AlphaBetaResult::new(Move::new(Position::new(0, 1), Position::new(0, 2)), 3);
    assert_eq!(some.le_move, Some(Move::new(Position::new(0, 1), Position::new(0, 2))));
    assert_eq!(some.score, 3);
}
