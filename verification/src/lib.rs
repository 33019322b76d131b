//! The core of a chess engine: the position, the legal moves with all
//! special rules, the text of a position, how a game stands, and a bot that
//! picks a move by a fixed-depth alpha-beta search.
//!
//! A [`board::Board`] is created in the starting position or read from text,
//! changed by [`board::Board::apply_move`], and asked for its legal moves,
//! its text and its status. Every function has a contract over the
//! mathematical content of its arguments, [`board::BoardState`] for a board.
//!
//! Squares are indexed `[x][y]`, with `x` counting the files from h to a and
//! `y` the ranks from 1 to 8; see [`helpers::Position`].
pub mod apply;
pub mod attack;
pub mod board;
pub mod bot;
pub mod color_map;
pub mod errors;
pub mod fen;
pub mod helpers;
pub mod laws;
pub mod legal;
pub mod moves;
pub mod pieces;
pub mod sound;
pub mod start;
pub mod status;
pub mod text;
pub mod utils;
