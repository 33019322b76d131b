//! Piece identity, material value and the one-letter encoding.
use vstd::prelude::*;
use crate::helpers::Position;

verus! {

#[derive(Clone, Copy, Debug, PartialEq, Eq, Hash, Structural)]
pub enum Color {
    White,
    Black,
}

impl Color {
    /// The other colour.
    pub open spec fn other(self) -> Color {
        match self {
            Color::White => Color::Black,
            Color::Black => Color::White,
        }
    }

    /// The rank direction in which this colour's pawns advance.
    pub open spec fn forward(self) -> int {
        match self {
            Color::White => 1,
            Color::Black => -1,
        }
    }

    /// The rank index on which this colour's king and rooks start.
    pub open spec fn home_row(self) -> usize {
        match self {
            Color::White => 0,
            Color::Black => 7,
        }
    }

    pub fn opponent(self) -> (c: Color)
        ensures
            c == self.other(),
    {
        match self {
            Color::White => Color::Black,
            Color::Black => Color::White,
        }
    }
}

/// Pawn, rook, knight, bishop, king, queen.
#[derive(Clone, Copy, Debug, PartialEq, Eq, Hash, Structural)]
pub enum PieceKind {
    P,
    R,
    N,
    B,
    K,
    Q,
}

impl PieceKind {
    /// Material value: pawn 1, knight 3, bishop 3, rook 5, queen 9, king 0.
    pub open spec fn value(self) -> int {
        match self {
            PieceKind::P => 1,
            PieceKind::R => 5,
            PieceKind::N => 3,
            PieceKind::B => 3,
            PieceKind::Q => 9,
            PieceKind::K => 0,
        }
    }

    pub fn points(self) -> (v: i32)
        ensures
            v == self.value(),
    {
        match self {
            PieceKind::P => 1,
            PieceKind::R => 5,
            PieceKind::N => 3,
            PieceKind::B => 3,
            PieceKind::Q => 9,
            PieceKind::K => 0,
        }
    }
}

/// The lower-case letter of a kind.
pub open spec fn kind_letter(kind: PieceKind) -> char {
    match kind {
        PieceKind::R => 'r',
        PieceKind::N => 'n',
        PieceKind::B => 'b',
        PieceKind::Q => 'q',
        PieceKind::K => 'k',
        PieceKind::P => 'p',
    }
}

/// The upper-case letter of a kind.
pub open spec fn kind_capital(kind: PieceKind) -> char {
    match kind {
        PieceKind::R => 'R',
        PieceKind::N => 'N',
        PieceKind::B => 'B',
        PieceKind::Q => 'Q',
        PieceKind::K => 'K',
        PieceKind::P => 'P',
    }
}

/// The letter of a piece: upper case for White, lower case for Black.
pub open spec fn piece_letter(kind: PieceKind, color: Color) -> char {
    match color {
        Color::White => kind_capital(kind),
        Color::Black => kind_letter(kind),
    }
}

/// The kind and colour that a letter stands for, if it is one of the twelve.
pub open spec fn letter_piece(c: char) -> Option<(PieceKind, Color)> {
    if c == 'r' {
        Some((PieceKind::R, Color::Black))
    } else if c == 'n' {
        Some((PieceKind::N, Color::Black))
    } else if c == 'b' {
        Some((PieceKind::B, Color::Black))
    } else if c == 'q' {
        Some((PieceKind::Q, Color::Black))
    } else if c == 'k' {
        Some((PieceKind::K, Color::Black))
    } else if c == 'p' {
        Some((PieceKind::P, Color::Black))
    } else if c == 'R' {
        Some((PieceKind::R, Color::White))
    } else if c == 'N' {
        Some((PieceKind::N, Color::White))
    } else if c == 'B' {
        Some((PieceKind::B, Color::White))
    } else if c == 'Q' {
        Some((PieceKind::Q, Color::White))
    } else if c == 'K' {
        Some((PieceKind::K, Color::White))
    } else if c == 'P' {
        Some((PieceKind::P, Color::White))
    } else {
        None
    }
}

/// Reading a piece's letter gives the piece back.
pub proof fn lemma_letter_round_trip(kind: PieceKind, color: Color)
    ensures
        letter_piece(piece_letter(kind, color)) == Some((kind, color)),
{
}

/// A piece on the board. Two pieces are equal when colour, kind, square and
/// `has_moved` agree.
#[derive(Clone, Copy, Debug, PartialEq, Eq, Structural)]
pub struct Piece {
    pub color: Color,
    pub kind: PieceKind,
    pub position: Position,
    pub has_moved: bool,
}

impl Piece {
    /// This piece after it has moved to `to`.
    pub open spec fn moved_to(self, to: Position) -> Piece {
        Piece { position: to, has_moved: true, ..self }
    }

    /// A piece that has not moved yet.
    pub fn new(color: Color, kind: PieceKind, position: Position) -> (p: Piece)
        ensures
            p == (Piece { color, kind, position, has_moved: false }),
    {
        Piece { color, kind, position, has_moved: false }
    }

    /// Material value of this piece.
    pub fn points(&self) -> (v: i32)
        ensures
            v == self.kind.value(),
    {
        self.kind.points()
    }

    /// Puts the piece on `new_position` and marks it as moved.
    pub fn move_piece(&mut self, new_position: Position)
        ensures
            *final(self) == old(self).moved_to(new_position),
    {
        self.position = new_position;
        self.has_moved = true;
    }

    /// Reads a piece letter. `None` for any other character.
    pub fn parse_piece_letter(piece_char: char) -> (r: Option<(PieceKind, Color)>)
        ensures
            r == letter_piece(piece_char),
    {
        if piece_char == 'r' {
            Some((PieceKind::R, Color::Black))
        } else if piece_char == 'n' {
            Some((PieceKind::N, Color::Black))
        } else if piece_char == 'b' {
            Some((PieceKind::B, Color::Black))
        } else if piece_char == 'q' {
            Some((PieceKind::Q, Color::Black))
        } else if piece_char == 'k' {
            Some((PieceKind::K, Color::Black))
        } else if piece_char == 'p' {
            Some((PieceKind::P, Color::Black))
        } else if piece_char == 'R' {
            Some((PieceKind::R, Color::White))
        } else if piece_char == 'N' {
            Some((PieceKind::N, Color::White))
        } else if piece_char == 'B' {
            Some((PieceKind::B, Color::White))
        } else if piece_char == 'Q' {
            Some((PieceKind::Q, Color::White))
        } else if piece_char == 'K' {
            Some((PieceKind::K, Color::White))
        } else if piece_char == 'P' {
            Some((PieceKind::P, Color::White))
        } else {
            None
        }
    }

    /// Reads a piece letter, which must be one of the twelve.
    pub fn get_piece_kind_and_color(piece_char: &char) -> (r: (PieceKind, Color))
        requires
            letter_piece(*piece_char) is Some,
        ensures
            letter_piece(*piece_char) == Some(r),
    {
        match Piece::parse_piece_letter(*piece_char) {
            Some(r) => r,
            None => (PieceKind::P, Color::White),
        }
    }

    /// The letter of this piece: upper case for White, lower case for Black.
    pub fn get_piece_kind_as_char(&self) -> (c: char)
        ensures
            c == piece_letter(self.kind, self.color),
    {
        match self.color {
            Color::White => match self.kind {
                PieceKind::R => 'R',
                PieceKind::N => 'N',
                PieceKind::B => 'B',
                PieceKind::Q => 'Q',
                PieceKind::K => 'K',
                PieceKind::P => 'P',
            },
            Color::Black => match self.kind {
                PieceKind::R => 'r',
                PieceKind::N => 'n',
                PieceKind::B => 'b',
                PieceKind::Q => 'q',
                PieceKind::K => 'k',
                PieceKind::P => 'p',
            },
        }
    }
}

} // verus!
