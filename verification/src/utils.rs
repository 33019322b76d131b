//! Square text and the en-passant rules of a single move.
use vstd::prelude::*;
use crate::helpers::{file_letter, Position, rank_digit};
use crate::pieces::PieceKind;
use crate::text::to_chars;

verus! {

/// The file index that a letter names: 'h' is 0 and 'a' is 7.
pub open spec fn letter_file(c: char) -> Option<usize> {
    if c == 'h' {
        Some(0usize)
    } else if c == 'g' {
        Some(1usize)
    } else if c == 'f' {
        Some(2usize)
    } else if c == 'e' {
        Some(3usize)
    } else if c == 'd' {
        Some(4usize)
    } else if c == 'c' {
        Some(5usize)
    } else if c == 'b' {
        Some(6usize)
    } else if c == 'a' {
        Some(7usize)
    } else {
        None
    }
}

/// The rank index that a digit names: '1' is 0 and '8' is 7.
pub open spec fn digit_rank(c: char) -> Option<usize> {
    if c == '1' {
        Some(0usize)
    } else if c == '2' {
        Some(1usize)
    } else if c == '3' {
        Some(2usize)
    } else if c == '4' {
        Some(3usize)
    } else if c == '5' {
        Some(4usize)
    } else if c == '6' {
        Some(5usize)
    } else if c == '7' {
        Some(6usize)
    } else if c == '8' {
        Some(7usize)
    } else {
        None
    }
}

/// The square that a text names: exactly two characters, a file letter a-h
/// and a rank digit 1-8.
pub open spec fn text_square(s: Seq<char>) -> Option<Position> {
    if s.len() != 2 {
        None
    } else {
        match (letter_file(s[0]), digit_rank(s[1])) {
            (Some(x), Some(y)) => Some(Position { x, y }),
            _ => None,
        }
    }
}

/// Reading the text of a square gives the square back.
pub proof fn lemma_square_text_round_trip(p: Position)
    requires
        p.on_board(),
    ensures
        text_square(p.chess_text()) == Some(p),
{
    assert(letter_file(file_letter(p.x)) == Some(p.x));
    assert(digit_rank(rank_digit(p.y)) == Some(p.y));
}

/// A square that a text names is on the board, and its text is that text.
pub proof fn lemma_text_square_exact(s: Seq<char>)
    requires
        text_square(s) is Some,
    ensures
        text_square(s)->0.on_board(),
        text_square(s)->0.chess_text() == s,
{
    assert(text_square(s)->0.chess_text() =~= s);
}

fn file_of_letter(c: char) -> (r: Option<usize>)
    ensures
        r == letter_file(c),
{
    if c == 'h' {
        Some(0)
    } else if c == 'g' {
        Some(1)
    } else if c == 'f' {
        Some(2)
    } else if c == 'e' {
        Some(3)
    } else if c == 'd' {
        Some(4)
    } else if c == 'c' {
        Some(5)
    } else if c == 'b' {
        Some(6)
    } else if c == 'a' {
        Some(7)
    } else {
        None
    }
}

fn rank_of_digit(c: char) -> (r: Option<usize>)
    ensures
        r == digit_rank(c),
{
    if c == '1' {
        Some(0)
    } else if c == '2' {
        Some(1)
    } else if c == '3' {
        Some(2)
    } else if c == '4' {
        Some(3)
    } else if c == '5' {
        Some(4)
    } else if c == '6' {
        Some(5)
    } else if c == '7' {
        Some(6)
    } else if c == '8' {
        Some(7)
    } else {
        None
    }
}

/// Reads the characters of a square's text.
pub fn square_from_chars(chars: &[char]) -> (r: Option<Position>)
    ensures
        r == text_square(chars@),
{
    if chars.len() != 2 {
        return None;
    }
    match (file_of_letter(chars[0]), rank_of_digit(chars[1])) {
        (Some(x), Some(y)) => Some(Position::new(x, y)),
        _ => None,
    }
}

/// Reads a square's text, such as "b3". `None` unless the text is exactly a
/// file letter followed by a rank digit.
pub fn chess_coord_to_array_coord(coord: String) -> (r: Option<Position>)
    ensures
        r == text_square(coord@),
{
    let chars = to_chars(coord.as_str());
    square_from_chars(chars.as_slice())
}

/// The en-passant target that a move leaves behind: the square a pawn skipped
/// when it moved two ranks, and nothing after any other move.
pub open spec fn en_passant_after(kind: PieceKind, from: Position, to: Position) -> Option<
    Position,
> {
    if kind == PieceKind::P && (to.y - from.y == 2 || from.y - to.y == 2) {
        Some(Position { x: to.x, y: ((from.y + to.y) / 2) as usize })
    } else {
        None
    }
}

pub fn get_en_passant(piece_kind: &PieceKind, from_position: &Position, to_position: &Position) -> (r:
    Option<Position>)
    ensures
        r == en_passant_after(*piece_kind, *from_position, *to_position),
{
    if *piece_kind == PieceKind::P {
        if from_position.y >= 2 && from_position.y - 2 == to_position.y {
            return Some(Position::new(to_position.x, to_position.y + 1));
        }
        if to_position.y >= 2 && to_position.y - 2 == from_position.y {
            return Some(Position::new(to_position.x, from_position.y + 1));
        }
    }
    None
}

/// Whether a piece of kind `piece_kind` that arrives on `position` takes the
/// en-passant target: it is a pawn and `position` is that target.
pub fn was_en_passant_played(
    piece_kind: &PieceKind,
    position: &Position,
    en_passant: &Option<Position>,
) -> (r: bool)
    ensures
        r == (*piece_kind == PieceKind::P && *en_passant == Some(*position)),
{
    match en_passant {
        Some(en_passant_position) => *en_passant_position == *position && *piece_kind
            == PieceKind::P,
        None => false,
    }
}

} // verus!
