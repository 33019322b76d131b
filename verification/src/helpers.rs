//! Board coordinates, directions and move records.
use vstd::prelude::*;
use crate::errors::ChessError;
use crate::pieces::{Color, PieceKind};
use crate::text::push_char;

verus! {

/// A square of the board.
///
/// One convention is used everywhere: `x` counts the files from h (0) to a (7)
/// and `y` the ranks from 1 (0) to 8 (7), and a board is indexed `[x][y]`.
/// So (0, 0) is h1, (7, 0) is a1 and (3, 0) is e1.
#[derive(Clone, Copy, Debug, PartialEq, Eq, Structural)]
pub struct Position {
    pub x: usize,
    pub y: usize,
}

/// The letter of the file with index `x`: 'h' for 0 down to 'a' for 7.
pub open spec fn file_letter(x: usize) -> char {
    if x == 0 {
        'h'
    } else if x == 1 {
        'g'
    } else if x == 2 {
        'f'
    } else if x == 3 {
        'e'
    } else if x == 4 {
        'd'
    } else if x == 5 {
        'c'
    } else if x == 6 {
        'b'
    } else {
        'a'
    }
}

/// The digit of the rank with index `y`: '1' for 0 up to '8' for 7.
pub open spec fn rank_digit(y: usize) -> char {
    if y == 0 {
        '1'
    } else if y == 1 {
        '2'
    } else if y == 2 {
        '3'
    } else if y == 3 {
        '4'
    } else if y == 4 {
        '5'
    } else if y == 5 {
        '6'
    } else if y == 6 {
        '7'
    } else {
        '8'
    }
}

/// The square reached from `p` by `dx` files and `dy` ranks, if it is on the board.
pub open spec fn shift(p: Position, dx: int, dy: int) -> Option<Position> {
    Position::valid_position(p.x + dx, p.y + dy)
}

impl Position {
    /// Whether both coordinates lie on the board.
    pub open spec fn on_board(self) -> bool {
        self.x < 8 && self.y < 8
    }

    /// The square with the given coordinates, if both lie in 0..8.
    pub open spec fn valid_position(x: int, y: int) -> Option<Position> {
        if 0 <= x < 8 && 0 <= y < 8 {
            Some(Position { x: x as usize, y: y as usize })
        } else {
            None
        }
    }

    /// The two characters that name this square: file letter, then rank digit.
    pub open spec fn chess_text(self) -> Seq<char> {
        seq![file_letter(self.x), rank_digit(self.y)]
    }

    pub fn new(x: usize, y: usize) -> (p: Position)
        ensures
            p == (Position { x, y }),
    {
        Position { x, y }
    }

    /// Builds a square from signed coordinates; `None` outside the board.
    pub fn get_valid_position(x: i32, y: i32) -> (r: Option<Position>)
        ensures
            r == Position::valid_position(x as int, y as int),
    {
        if 0 <= x && x < 8 && 0 <= y && y < 8 {
            return Some(Position::new(x as usize, y as usize));
        }
        None
    }

    /// Builds a square from signed coordinates, or says that they are out
    /// of range.
    pub fn checked(x: i32, y: i32) -> (r: Result<Position, ChessError>)
        ensures
            match r {
                Ok(p) => Position::valid_position(x as int, y as int) == Some(p),
                Err(e) => Position::valid_position(x as int, y as int) is None && e
                    == ChessError::OutOfRange,
            },
    {
        match Position::get_valid_position(x, y) {
            Some(p) => Ok(p),
            None => Err(ChessError::OutOfRange),
        }
    }

    pub fn get_x_y_as_int(&self) -> (r: (i32, i32))
        requires
            self.x <= i32::MAX,
            self.y <= i32::MAX,
        ensures
            r.0 == self.x,
            r.1 == self.y,
    {
        (self.x as i32, self.y as i32)
    }

    /// The text of this square, such as "e4".
    pub fn get_as_chess_string(&self) -> (s: String)
        requires
            self.on_board(),
        ensures
            s@ == self.chess_text(),
    {
        let mut string_position = String::new();
        push_char(&mut string_position, file_char(self.x));
        push_char(&mut string_position, rank_char(self.y));
        proof {
            assert(string_position@ =~= self.chess_text());
        }
        string_position
    }
}

/// The letter of file `x`, for `x` on the board.
pub fn file_char(x: usize) -> (c: char)
    requires
        x < 8,
    ensures
        c == file_letter(x),
{
    if x == 0 {
        'h'
    } else if x == 1 {
        'g'
    } else if x == 2 {
        'f'
    } else if x == 3 {
        'e'
    } else if x == 4 {
        'd'
    } else if x == 5 {
        'c'
    } else if x == 6 {
        'b'
    } else {
        'a'
    }
}

/// The digit of rank `y`, for `y` on the board.
pub fn rank_char(y: usize) -> (c: char)
    requires
        y < 8,
    ensures
        c == rank_digit(y),
{
    if y == 0 {
        '1'
    } else if y == 1 {
        '2'
    } else if y == 2 {
        '3'
    } else if y == 3 {
        '4'
    } else if y == 4 {
        '5'
    } else if y == 5 {
        '6'
    } else if y == 6 {
        '7'
    } else {
        '8'
    }
}

/// The square shown in column `col` of row `row`, both counted from 0 from
/// the top left, when the board is shown to the player of colour `color`:
/// that player's home rank is at the bottom, so White sees a8 at the top
/// left and Black sees h1 there.
pub open spec fn seen_square(color: Color, col: int, row: int) -> Option<Position> {
    match color {
        Color::White => Position::valid_position(7 - col, 7 - row),
        Color::Black => Position::valid_position(col, row),
    }
}

/// The square shown in a cell of the board as `player_color` sees it, if the
/// cell is one of the 8 by 8.
pub fn square_in_cell(col: i32, row: i32, player_color: Color) -> (square: Option<Position>)
    ensures
        square == seen_square(player_color, col as int, row as int),
{
    if col < 0 || col > 7 || row < 0 || row > 7 {
        return None;
    }
    match player_color {
        Color::White => Position::get_valid_position(7 - col, 7 - row),
        Color::Black => Position::get_valid_position(col, row),
    }
}

/// The column and row of the cell in which `position` is shown to
/// `player_color`.
pub fn cell_of_square(position: &Position, player_color: Color) -> (cell: (usize, usize))
    requires
        position.on_board(),
    ensures
        cell.0 < 8,
        cell.1 < 8,
        seen_square(player_color, cell.0 as int, cell.1 as int) == Some(*position),
{
    match player_color {
        Color::White => (7 - position.x, 7 - position.y),
        Color::Black => (position.x, position.y),
    }
}

/// A step of at most one file and one rank, not both zero.
#[derive(Clone, Copy, Debug, PartialEq, Eq, Structural)]
pub struct Direction {
    pub x: i32,
    pub y: i32,
}

impl Direction {
    /// Whether this is one of the eight unit steps.
    pub open spec fn is_unit(self) -> bool {
        -1 <= self.x <= 1 && -1 <= self.y <= 1 && !(self.x == 0 && self.y == 0)
    }

    pub fn new(x: i32, y: i32) -> (d: Direction)
        ensures
            d == (Direction { x, y }),
    {
        Direction { x, y }
    }
}

/// A move from one square to another. A king moving two files castles; a pawn
/// moving diagonally onto the en-passant target captures in passing.
/// `promotion` is the kind a pawn becomes on the last rank; `None` stands for a queen.
#[derive(Clone, Copy, Debug, PartialEq, Eq, Structural)]
pub struct Move {
    pub from: Position,
    pub to: Position,
    pub promotion: Option<PieceKind>,
}

impl Move {
    /// The kind a pawn becomes when this move brings it to the last rank.
    pub open spec fn promotion_kind(self) -> PieceKind {
        match self.promotion {
            Some(kind) => kind,
            None => PieceKind::Q,
        }
    }

    pub fn new(from: Position, to: Position) -> (m: Move)
        ensures
            m == (Move { from, to, promotion: None }),
    {
        Move { from, to, promotion: None }
    }

    /// A move that names the kind to promote to.
    pub fn with_promotion(from: Position, to: Position, kind: PieceKind) -> (m: Move)
        ensures
            m == (Move { from, to, promotion: Some(kind) }),
    {
        Move { from, to, promotion: Some(kind) }
    }
}

} // verus!
