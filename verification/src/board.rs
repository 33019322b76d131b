//! The position: the 8x8 board, side to move, castling rights, en-passant
//! target, move counters, king squares and the record of past positions.
use vstd::prelude::*;
use vstd::array::spec_array_update;
use fnv::FnvHashMap;
use crate::attack::is_enemy;
use crate::color_map::{color_key, has_both, key_of, table_get, table_insert, table_with_capacity};
use crate::fen::fen_text;
use crate::helpers::{Move, Position, seen_square, square_in_cell};
use crate::moves::{get_rook_old_and_new_castling_positions, rook_castling_squares};
use crate::pieces::{Color, Piece, PieceKind};
use crate::sound::{law_start_is_sound, sound};
use crate::start::lemma_start_text;
use crate::utils::was_en_passant_played;

verus! {

/// The 64 squares, indexed `[x][y]`.
pub type Grid = [[Option<Piece>; 8]; 8];

/// What stands on square `p`.
pub open spec fn at(g: Grid, p: Position) -> Option<Piece> {
    g[p.x as int][p.y as int]
}

/// The grid with `v` on square `p` and every other square unchanged.
pub open spec fn put(g: Grid, p: Position, v: Option<Piece>) -> Grid {
    spec_array_update(g, p.x as int, spec_array_update(g[p.x as int], p.y as int, v))
}

/// The grid after the piece on `from` has gone to `to`: `from` is empty and
/// `to` holds the piece, with its square updated and marked as moved.
pub open spec fn relocate(g: Grid, from: Position, to: Position) -> Grid {
    put(put(g, from, None), to, Some(at(g, from)->0.moved_to(to)))
}

/// Whether every piece on the grid records the square it stands on.
pub open spec fn squares_agree(g: Grid) -> bool {
    forall|p: Position|
        p.on_board() ==> ((#[trigger] at(g, p)) is Some ==> at(g, p)->0.position == p)
}

/// Whether `p` holds a piece of colour `c`.
pub open spec fn holds_color(g: Grid, p: Position, c: Color) -> bool {
    at(g, p) is Some && at(g, p)->0.color == c
}

/// Whether `p` holds the king of colour `c`.
pub open spec fn holds_king(g: Grid, p: Position, c: Color) -> bool {
    at(g, p) is Some && at(g, p)->0.color == c && at(g, p)->0.kind == PieceKind::K
}

/// Whether `p` holds the king of colour `c` and no other square does.
pub open spec fn only_king(g: Grid, p: Position, c: Color) -> bool {
    &&& p.on_board()
    &&& holds_king(g, p, c)
    &&& forall|q: Position| q.on_board() && #[trigger] holds_king(g, q, c) ==> q == p
}

/// `put` changes the square it names and no other.
pub proof fn lemma_put(g: Grid, p: Position, v: Option<Piece>)
    requires
        p.on_board(),
    ensures
        at(put(g, p, v), p) == v,
        forall|q: Position| q.on_board() && q != p ==> #[trigger] at(put(g, p, v), q) == at(g, q),
{
    broadcast use vstd::array::axiom_spec_array_update;

    assert(put(g, p, v)@ == g@.update(
        p.x as int,
        spec_array_update(g[p.x as int], p.y as int, v),
    ));
    assert(spec_array_update(g[p.x as int], p.y as int, v)@ == g[p.x as int]@.update(
        p.y as int,
        v,
    ));
    assert forall|q: Position| q.on_board() && q != p implies #[trigger] at(put(g, p, v), q) == at(
        g,
        q,
    ) by {
        if q.x == p.x {
            assert(q.y != p.y);
        }
    }
}

/// Two grids that agree on every square are the same grid.
pub proof fn lemma_grid_equal(a: Grid, b: Grid)
    requires
        forall|p: Position| p.on_board() ==> #[trigger] at(a, p) == at(b, p),
    ensures
        a == b,
{
    assert forall|x: int| 0 <= x < 8 implies a[x] == b[x] by {
        assert forall|y: int| 0 <= y < 8 implies a[x][y] == b[x][y] by {
            let p = Position { x: x as usize, y: y as usize };
            assert(at(a, p) == at(b, p));
        }
        assert(a[x] =~= b[x]);
    }
    assert(a =~= b);
}

/// The square with number `n` when the board is walked file by file from h
/// to a and, within a file, from rank 1 to rank 8.
pub open spec fn square_at(n: int) -> Position {
    Position { x: (n / 8) as usize, y: (n % 8) as usize }
}

/// The pieces of colour `c` on the first `n` squares of that walk.
pub open spec fn pieces_upto(g: Grid, c: Color, n: nat) -> Seq<Piece>
    decreases n,
{
    if n == 0 {
        Seq::empty()
    } else {
        let rest = pieces_upto(g, c, (n - 1) as nat);
        if holds_color(g, square_at(n - 1), c) {
            rest.push(at(g, square_at(n - 1))->0)
        } else {
            rest
        }
    }
}

/// The pieces of colour `c`, in the order of the walk.
pub open spec fn pieces_of(g: Grid, c: Color) -> Seq<Piece> {
    pieces_upto(g, c, 64)
}

/// The squares that the pieces record, in the order of the pieces.
pub open spec fn squares_recorded(pieces: Seq<Piece>) -> Seq<Position> {
    Seq::new(pieces.len(), |i: int| pieces[i].position)
}

/// The squares of the pieces of colour `c`, in the order of the walk.
pub open spec fn squares_of(g: Grid, c: Color) -> Seq<Position> {
    squares_recorded(pieces_of(g, c))
}

/// On a grid whose pieces record their squares, the first `n` squares of the
/// walk that hold colour `c` are exactly what the listed pieces record.
pub proof fn lemma_pieces_upto(g: Grid, c: Color, n: nat)
    requires
        squares_agree(g),
        n <= 64,
    ensures
        forall|p: Position| #[trigger]
            squares_recorded(pieces_upto(g, c, n)).contains(p) <==> (p.on_board() && p.x * 8 + p.y
                < n && holds_color(g, p, c)),
        forall|i: int|
            0 <= i < pieces_upto(g, c, n).len() ==> {
                let piece = #[trigger] pieces_upto(g, c, n)[i];
                piece.color == c && piece.position.on_board() && at(g, piece.position) == Some(
                    piece,
                )
            },
    decreases n,
{
    if n > 0 {
        let rest = pieces_upto(g, c, (n - 1) as nat);
        let now = pieces_upto(g, c, n);
        let s = square_at(n - 1);
        lemma_pieces_upto(g, c, (n - 1) as nat);
        assert(s.on_board() && s.x * 8 + s.y == n - 1);
        assert forall|p: Position| #[trigger]
            squares_recorded(now).contains(p) <==> (p.on_board() && p.x * 8 + p.y < n
                && holds_color(g, p, c)) by {
            if squares_recorded(now).contains(p) {
                let i = choose|i: int|
                    0 <= i < squares_recorded(now).len() && squares_recorded(now)[i] == p;
                if i < rest.len() {
                    assert(squares_recorded(rest)[i] == p);
                    assert(squares_recorded(rest).contains(p));
                } else {
                    assert(p == s);
                }
            }
            if p.on_board() && p.x * 8 + p.y < n && holds_color(g, p, c) {
                if p.x * 8 + p.y < n - 1 {
                    assert(squares_recorded(rest).contains(p));
                    let i = choose|i: int|
                        0 <= i < squares_recorded(rest).len() && squares_recorded(rest)[i] == p;
                    assert(squares_recorded(now)[i] == p);
                } else {
                    assert(p == s);
                    assert(squares_recorded(now)[now.len() - 1] == p);
                }
            }
        }
    } else {
        assert forall|p: Position| #[trigger]
            squares_recorded(pieces_upto(g, c, n)).contains(p) <==> (p.on_board() && p.x * 8 + p.y
                < n && holds_color(g, p, c)) by {
            assert(squares_recorded(pieces_upto(g, c, n)).len() == 0);
        }
    }
}

/// On a grid whose pieces record their squares, the squares listed for a
/// colour are exactly the squares that hold it.
pub proof fn lemma_squares_of(g: Grid, c: Color)
    requires
        squares_agree(g),
    ensures
        forall|p: Position| #[trigger]
            squares_of(g, c).contains(p) <==> (p.on_board() && holds_color(g, p, c)),
{
    lemma_pieces_upto(g, c, 64);
}

/// The pawn that `m` captures in passing, if it does: the mover is a pawn
/// that arrives on the en-passant target, and an enemy pawn stands beside
/// the square it left, on the file it arrives on.
pub open spec fn capture_in_passing(g: Grid, en_passant: Option<Position>, m: Move) -> Option<
    Position,
> {
    let mover = at(g, m.from)->0;
    let victim = Position { x: m.to.x, y: m.from.y };
    if mover.kind == PieceKind::P && en_passant == Some(m.to) && is_enemy(
        at(g, victim),
        mover.color,
        PieceKind::P,
    ) {
        Some(victim)
    } else {
        None
    }
}

/// Whether `m` castles: the mover is a king that goes two files sideways.
pub open spec fn castles(g: Grid, m: Move) -> bool {
    at(g, m.from)->0.kind == PieceKind::K && (m.to.x == m.from.x + 2 || m.from.x == m.to.x + 2)
}

/// Whether `m` brings a pawn to the first or the last rank.
pub open spec fn promotes(g: Grid, m: Move) -> bool {
    at(g, m.from)->0.kind == PieceKind::P && (m.to.y == 0 || m.to.y == 7)
}

/// The grid once a pawn captured in passing has been taken off.
pub open spec fn after_capture_in_passing(g: Grid, en_passant: Option<Position>, m: Move) -> Grid {
    match capture_in_passing(g, en_passant, m) {
        Some(victim) => put(g, victim, None),
        None => g,
    }
}

/// The grid once, in addition, the rook of a castling move has gone to its
/// new square.
pub open spec fn after_rook(g: Grid, en_passant: Option<Position>, m: Move) -> Grid {
    let g1 = after_capture_in_passing(g, en_passant, m);
    if castles(g, m) {
        relocate(g1, rook_castling_squares(m.to).0, rook_castling_squares(m.to).1)
    } else {
        g1
    }
}

/// The piece that a promoting pawn of `color` becomes on `to`.
pub open spec fn promoted(color: Color, m: Move) -> Piece {
    Piece { color, kind: m.promotion_kind(), position: m.to, has_moved: true }
}

/// The grid after move `m`: a pawn captured in passing is gone, a castling
/// rook has gone to its new square, the mover stands on `m.to`, and a pawn
/// that reached the last rank has been replaced.
pub open spec fn placement_after(g: Grid, en_passant: Option<Position>, m: Move) -> Grid {
    let g3 = relocate(after_rook(g, en_passant, m), m.from, m.to);
    if promotes(g, m) {
        put(g3, m.to, Some(promoted(at(g, m.from)->0.color, m)))
    } else {
        g3
    }
}

/// Whether `m` can be played on `g`: both squares are on the board, and each
/// relocation it makes finds a piece to move and no piece of the same colour
/// where it goes. For a plain move this says that `m.from` is occupied and
/// `m.to` does not hold the mover's colour; for castling, the same of the rook.
pub open spec fn admissible(g: Grid, en_passant: Option<Position>, m: Move) -> bool {
    let rook_from = rook_castling_squares(m.to).0;
    let rook_to = rook_castling_squares(m.to).1;
    let g1 = after_capture_in_passing(g, en_passant, m);
    let g2 = after_rook(g, en_passant, m);
    &&& m.from.on_board()
    &&& m.to.on_board()
    &&& at(g, m.from) is Some
    &&& castles(g, m) ==> at(g1, rook_from) is Some && !holds_color(
        g1,
        rook_to,
        at(g1, rook_from)->0.color,
    )
    &&& at(g2, m.from) is Some
    &&& !holds_color(g2, m.to, at(g2, m.from)->0.color)
}

/// Emptying a square keeps the pieces' records right.
pub proof fn lemma_put_none_agrees(g: Grid, p: Position)
    requires
        squares_agree(g),
        p.on_board(),
    ensures
        squares_agree(put(g, p, None)),
{
    lemma_put(g, p, None);
}

/// Putting a piece on the square it records keeps the pieces' records right.
pub proof fn lemma_put_some_agrees(g: Grid, piece: Piece)
    requires
        squares_agree(g),
        piece.position.on_board(),
    ensures
        squares_agree(put(g, piece.position, Some(piece))),
{
    lemma_put(g, piece.position, Some(piece));
}

/// Relocating a piece keeps the pieces' records right.
pub proof fn lemma_relocate_agrees(g: Grid, from: Position, to: Position)
    requires
        squares_agree(g),
        from.on_board(),
        to.on_board(),
        at(g, from) is Some,
    ensures
        squares_agree(relocate(g, from, to)),
{
    lemma_put_none_agrees(g, from);
    lemma_put_some_agrees(put(g, from, None), at(g, from)->0.moved_to(to));
}

/// A move that can be played keeps the pieces' records right.
pub proof fn lemma_placement_agrees(g: Grid, en_passant: Option<Position>, m: Move)
    requires
        squares_agree(g),
        admissible(g, en_passant, m),
    ensures
        squares_agree(placement_after(g, en_passant, m)),
{
    let g1 = after_capture_in_passing(g, en_passant, m);
    if capture_in_passing(g, en_passant, m) is Some {
        lemma_put_none_agrees(g, capture_in_passing(g, en_passant, m)->0);
    }
    let g2 = after_rook(g, en_passant, m);
    if castles(g, m) {
        lemma_relocate_agrees(g1, rook_castling_squares(m.to).0, rook_castling_squares(m.to).1);
    }
    lemma_relocate_agrees(g2, m.from, m.to);
    if promotes(g, m) {
        lemma_put_some_agrees(relocate(g2, m.from, m.to), promoted(at(g, m.from)->0.color, m));
    }
}

/// The kind that starts on file index `x` of a home rank.
pub open spec fn back_rank(x: usize) -> PieceKind {
    if x == 0 || x == 7 {
        PieceKind::R
    } else if x == 1 || x == 6 {
        PieceKind::N
    } else if x == 2 || x == 5 {
        PieceKind::B
    } else if x == 3 {
        PieceKind::K
    } else {
        PieceKind::Q
    }
}

/// What stands on square `p` when a game starts.
pub open spec fn start_square(p: Position) -> Option<Piece> {
    if p.y == 0 {
        Some(Piece { color: Color::White, kind: back_rank(p.x), position: p, has_moved: false })
    } else if p.y == 1 {
        Some(Piece { color: Color::White, kind: PieceKind::P, position: p, has_moved: false })
    } else if p.y == 6 {
        Some(Piece { color: Color::Black, kind: PieceKind::P, position: p, has_moved: false })
    } else if p.y == 7 {
        Some(Piece { color: Color::Black, kind: back_rank(p.x), position: p, has_moved: false })
    } else {
        None
    }
}

/// The text of the position in which a game starts.
pub open spec fn start_text() -> Seq<char> {
    "rnbqkbnr/pppppppp/8/8/8/8/PPPPPPPP/RNBQKBNR w KQkq - 0 1"@
}

/// Whether `s` is the position in which a game starts: the pieces on their
/// home squares, White to move, all castling rights, no en-passant target,
/// clock 0, move 1, and the text of this position as the one entry of the
/// record.
pub open spec fn is_start(s: BoardState) -> bool {
    &&& forall|p: Position| p.on_board() ==> #[trigger] at(s.board, p) == start_square(p)
    &&& s.king_positions =~= map![0u8 => Position { x: 3, y: 0 }, 1u8 => Position { x: 3, y: 7 }]
    &&& s.turn == Color::White
    &&& s.en_passant is None
    &&& s.castling =~= map![0u8 => [true, true], 1u8 => [true, true]]
    &&& s.n_half_moves == 0
    &&& s.n_full_moves == 1
    &&& s.history == seq![start_text()]
}

/// Whether `squares` are the eight squares of row `row`, from the left, of
/// the board as the player of colour `turn` sees it.
pub open spec fn is_seen_row(squares: Seq<Option<Piece>>, g: Grid, turn: Color, row: int) -> bool {
    squares.len() == 8 && forall|col: int|
        0 <= col < 8 ==> (#[trigger] squares[col]) == at(g, seen_square(turn, col, row)->0)
}

/// The mathematical content of a [`Board`].
pub struct BoardState {
    pub board: Grid,
    pub king_positions: Map<u8, Position>,
    pub turn: Color,
    pub en_passant: Option<Position>,
    pub castling: Map<u8, [bool; 2]>,
    pub n_half_moves: u16,
    pub n_full_moves: u16,
    pub history: Seq<Seq<char>>,
}

impl BoardState {
    /// The recorded square of the king of `color`.
    pub open spec fn king_of(self, color: Color) -> Position {
        self.king_positions[key_of(color)]
    }

    /// The shape that every operation keeps: pieces record their own square,
    /// both colours have a king square on the board and castling rights, an
    /// en-passant target is on the board, the move number is at least 1 and
    /// the record of positions is not empty.
    pub open spec fn wf(self) -> bool {
        &&& squares_agree(self.board)
        &&& has_both(self.king_positions)
        &&& self.king_of(Color::White).on_board()
        &&& self.king_of(Color::Black).on_board()
        &&& has_both(self.castling)
        &&& (self.en_passant is Some ==> self.en_passant->0.on_board())
        &&& self.n_full_moves >= 1
        &&& self.history.len() >= 1
    }

    /// Whether the recorded king square of `color` holds that king and no
    /// other square does.
    pub open spec fn king_ok(self, color: Color) -> bool {
        only_king(self.board, self.king_of(color), color)
    }

    /// Whether each colour has exactly one king, on its recorded square.
    pub open spec fn kings_ok(self) -> bool {
        self.king_ok(Color::White) && self.king_ok(Color::Black)
    }
}

/// A chess position.
#[derive(Clone, Debug, PartialEq)]
pub struct Board {
    /// The squares, indexed `[x][y]` as in [`Position`].
    pub board: [[Option<Piece>; 8]; 8],
    /// The king's square of each colour, under the keys of `color_key`.
    pub king_positions: FnvHashMap<u8, Position>,
    /// The side to move.
    pub turn: Color,
    pub en_passant: Option<Position>,
    /// For each colour, under the keys of `color_key`, whether it may still
    /// castle on the king's side (index 0) and on the queen's side (index 1).
    pub castling: FnvHashMap<u8, [bool; 2]>,
    pub n_half_moves: u16,
    pub n_full_moves: u16,
    /// The text of the position after each half-move, the first one included.
    pub history: Vec<String>,
}

/// The texts of a list of strings.
pub open spec fn texts(history: Seq<String>) -> Seq<Seq<char>> {
    Seq::new(history.len(), |i: int| history[i]@)
}

impl View for Board {
    type V = BoardState;

    open spec fn view(&self) -> BoardState {
        BoardState {
            board: self.board,
            king_positions: self.king_positions@,
            turn: self.turn,
            en_passant: self.en_passant,
            castling: self.castling@,
            n_half_moves: self.n_half_moves,
            n_full_moves: self.n_full_moves,
            history: texts(self.history@),
        }
    }
}

/// Puts `v` on square `p`.
pub fn grid_put(grid: &mut Grid, p: Position, v: Option<Piece>)
    requires
        p.on_board(),
    ensures
        *final(grid) == put(*old(grid), p, v),
{
    grid[p.x][p.y] = v;
    proof {
        lemma_put(*old(grid), p, v);
        lemma_grid_equal(*grid, put(*old(grid), p, v));
    }
}

/// Moves the piece on `from` to `to`, taking what stood there.
pub fn grid_relocate(grid: &mut Grid, from: Position, to: Position)
    requires
        from.on_board(),
        to.on_board(),
        at(*old(grid), from) is Some,
    ensures
        *final(grid) == relocate(*old(grid), from, to),
{
    if let Some(piece) = grid[from.x][from.y] {
        let mut moved = piece;
        moved.move_piece(to);
        grid_put(grid, from, None);
        grid_put(grid, to, Some(moved));
    }
}

/// Plays `m` on the grid: see [`placement_after`].
pub fn play_on_grid(grid: &mut Grid, en_passant: &Option<Position>, m: Move)
    requires
        admissible(*old(grid), *en_passant, m),
    ensures
        *final(grid) == placement_after(*old(grid), *en_passant, m),
{
    if let Some(mover) = grid[m.from.x][m.from.y] {
        if was_en_passant_played(&mover.kind, &m.to, en_passant) {
            let victim = Position::new(m.to.x, m.from.y);
            if let Some(taken) = grid[victim.x][victim.y] {
                if taken.color != mover.color && taken.kind == PieceKind::P {
                    grid_put(grid, victim, None);
                }
            }
        }
        if mover.kind == PieceKind::K && (m.to.x == m.from.x + 2 || m.from.x == m.to.x + 2) {
            let (old_rook_position, new_rook_position) = get_rook_old_and_new_castling_positions(
                &m.to,
            );
            grid_relocate(grid, old_rook_position, new_rook_position);
        }
        grid_relocate(grid, m.from, m.to);
        if mover.kind == PieceKind::P && (m.to.y == 0 || m.to.y == 7) {
            let kind = match m.promotion {
                Some(kind) => kind,
                None => PieceKind::Q,
            };
            let mut queen = Piece::new(mover.color, kind, m.to);
            queen.has_moved = true;
            grid_put(grid, m.to, Some(queen));
        }
    }
}

/// The square of the king of `color`, if the grid holds exactly one.
pub fn locate_king(grid: &Grid, color: Color) -> (king: Option<Position>)
    ensures
        match king {
            Some(p) => only_king(*grid, p, color),
            None => !exists|p: Position| only_king(*grid, p, color),
        },
{
    let mut found: Option<Position> = None;
    let mut twice = false;
    let ghost mut first = Position { x: 0, y: 0 };
    let ghost mut second = Position { x: 0, y: 0 };
    let mut n: usize = 0;
    while n < 64
        invariant
            n <= 64,
            found is None ==> !twice && forall|m: int|
                0 <= m < n ==> !holds_king(*grid, #[trigger] square_at(m), color),
            found is Some ==> found->0.on_board() && found->0.x * 8 + found->0.y < n && holds_king(
                *grid,
                found->0,
                color,
            ),
            found is Some && !twice ==> forall|m: int|
                0 <= m < n && holds_king(*grid, #[trigger] square_at(m), color) ==> square_at(m)
                    == found->0,
            twice ==> first.on_board() && second.on_board() && first != second && holds_king(
                *grid,
                first,
                color,
            ) && holds_king(*grid, second, color),
        decreases 64 - n,
    {
        let here = Position::new(n / 8, n % 8);
        assert(here == square_at(n as int));
        if let Some(piece) = grid[here.x][here.y] {
            if piece.color == color && piece.kind == PieceKind::K {
                match found {
                    Some(p) => {
                        proof {
                            if !twice {
                                first = p;
                                second = here;
                            }
                        }
                        twice = true;
                    },
                    None => {
                        found = Some(here);
                    },
                }
            }
        }
        n += 1;
    }
    if twice {
        proof {
            assert forall|p: Position| !only_king(*grid, p, color) by {
                if only_king(*grid, p, color) {
                    assert(first == p);
                    assert(second == p);
                }
            }
        }
        None
    } else {
        proof {
            match found {
                Some(p) => {
                    assert forall|q: Position|
                        q.on_board() && #[trigger] holds_king(*grid, q, color) implies q == p by {
                        assert(q == square_at(q.x * 8 + q.y));
                    }
                },
                None => {
                    assert forall|p: Position| !only_king(*grid, p, color) by {
                        if only_king(*grid, p, color) {
                            assert(p == square_at(p.x * 8 + p.y));
                        }
                    }
                },
            }
        }
        found
    }
}

/// The kind that starts on file index `x` of a home rank.
fn back_rank_kind(x: usize) -> (kind: PieceKind)
    ensures
        kind == back_rank(x),
{
    if x == 0 || x == 7 {
        PieceKind::R
    } else if x == 1 || x == 6 {
        PieceKind::N
    } else if x == 2 || x == 5 {
        PieceKind::B
    } else if x == 3 {
        PieceKind::K
    } else {
        PieceKind::Q
    }
}

impl Board {
    /// The position in which a game starts.
    pub fn new() -> (board: Board)
        ensures
            is_start(board@),
            sound(board@),
            board@.history == seq![fen_text(board@)],
    {
        let mut king_positions = table_with_capacity::<Position>(2);
        table_insert(&mut king_positions, 0, Position::new(3, 0));
        table_insert(&mut king_positions, 1, Position::new(3, 7));

        let mut castling = table_with_capacity::<[bool; 2]>(2);
        table_insert(&mut castling, 0, [true, true]);
        table_insert(&mut castling, 1, [true, true]);

        let mut grid: [[Option<Piece>; 8]; 8] = [[None; 8]; 8];
        let mut x: usize = 0;
        while x < 8
            invariant
                x <= 8,
                forall|p: Position|
                    p.on_board() && p.x < x ==> #[trigger] at(grid, p) == start_square(p),
                forall|p: Position| p.on_board() && p.x >= x ==> (#[trigger] at(grid, p)) is None,
            decreases 8 - x,
        {
            let ghost g0 = grid;
            let kind = back_rank_kind(x);
            grid_put(
                &mut grid,
                Position::new(x, 0),
                Some(Piece::new(Color::White, kind, Position::new(x, 0))),
            );
            let ghost g1 = grid;
            grid_put(
                &mut grid,
                Position::new(x, 1),
                Some(Piece::new(Color::White, PieceKind::P, Position::new(x, 1))),
            );
            let ghost g2 = grid;
            grid_put(
                &mut grid,
                Position::new(x, 6),
                Some(Piece::new(Color::Black, PieceKind::P, Position::new(x, 6))),
            );
            let ghost g3 = grid;
            grid_put(
                &mut grid,
                Position::new(x, 7),
                Some(Piece::new(Color::Black, kind, Position::new(x, 7))),
            );
            proof {
                lemma_put(g0, Position { x, y: 0 }, at(g1, Position { x, y: 0 }));
                lemma_put(g1, Position { x, y: 1 }, at(g2, Position { x, y: 1 }));
                lemma_put(g2, Position { x, y: 6 }, at(g3, Position { x, y: 6 }));
                lemma_put(g3, Position { x, y: 7 }, at(grid, Position { x, y: 7 }));
                lemma_grid_equal(g1, put(g0, Position { x, y: 0 }, at(g1, Position { x, y: 0 })));
                lemma_grid_equal(g2, put(g1, Position { x, y: 1 }, at(g2, Position { x, y: 1 })));
                lemma_grid_equal(g3, put(g2, Position { x, y: 6 }, at(g3, Position { x, y: 6 })));
                lemma_grid_equal(grid, put(g3, Position { x, y: 7 }, at(grid, Position { x, y: 7 })));
                assert forall|p: Position| p.on_board() && p.x < x + 1 implies #[trigger] at(
                    grid,
                    p,
                ) == start_square(p) by {
                    if p.x < x {
                        assert(at(g0, p) == start_square(p));
                    }
                }
                assert forall|p: Position| p.on_board() && p.x >= x + 1 implies (#[trigger] at(
                    grid,
                    p,
                )) is None by {
                    assert(at(g0, p) is None);
                }
            }
            x += 1;
        }
        let mut history: Vec<String> = Vec::new();
        history.push("rnbqkbnr/pppppppp/8/8/8/8/PPPPPPPP/RNBQKBNR w KQkq - 0 1".to_owned());
        let board = Board {
            board: grid,
            king_positions,
            turn: Color::White,
            en_passant: None,
            castling,
            n_half_moves: 0,
            n_full_moves: 1,
            history,
        };
        proof {
            assert(board@.history =~= seq![start_text()]);
            law_start_is_sound(board@);
            lemma_start_text(board@);
        }
        board
    }

    /// What stands on `position`.
    pub fn get_piece_from_position(&self, position: &Position) -> (piece: &Option<Piece>)
        requires
            position.on_board(),
        ensures
            *piece == at(self.board, *position),
    {
        &self.board[position.x][position.y]
    }

    /// Sets the square empty.
    pub fn remove_piece(&mut self, position: &Position)
        requires
            position.on_board(),
        ensures
            final(self)@ == (BoardState { board: put(old(self).board, *position, None), ..old(self)@ }),
    {
        grid_put(&mut self.board, *position, None);
    }

    /// Moves the piece on `from` to `to`, taking what stood there. The piece
    /// records its new square and counts as moved.
    pub fn move_piece(&mut self, from: &Position, to: &Position)
        requires
            from.on_board(),
            to.on_board(),
            at(old(self).board, *from) is Some,
            !holds_color(old(self).board, *to, at(old(self).board, *from)->0.color),
        ensures
            final(self)@ == (BoardState {
                board: relocate(old(self).board, *from, *to),
                ..old(self)@
            }),
    {
        grid_relocate(&mut self.board, *from, *to);
    }

    /// The recorded square of the king of `color`.
    pub fn king_position(&self, color: Color) -> (p: Position)
        requires
            self@.wf(),
        ensures
            p == self@.king_of(color),
            p.on_board(),
    {
        match table_get(&self.king_positions, color_key(color)) {
            Some(p) => p,
            None => Position::new(0, 0),
        }
    }

    /// Whether `color` may still castle: on the king's side (index 0) and on
    /// the queen's side (index 1).
    pub fn castling_rights(&self, color: Color) -> (rights: [bool; 2])
        requires
            self@.wf(),
        ensures
            rights == self@.castling[key_of(color)],
    {
        match table_get(&self.castling, color_key(color)) {
            Some(rights) => rights,
            None => [false, false],
        }
    }

    /// The pieces on the board, White's first and Black's second, each in the
    /// order in which the board is walked.
    pub fn get_pieces(&self) -> (pieces: [Vec<Piece>; 2])
        ensures
            pieces[0]@ == pieces_of(self.board, Color::White),
            pieces[1]@ == pieces_of(self.board, Color::Black),
    {
        let mut white: Vec<Piece> = Vec::new();
        let mut black: Vec<Piece> = Vec::new();
        let mut n: usize = 0;
        while n < 64
            invariant
                n <= 64,
                white@ == pieces_upto(self.board, Color::White, n as nat),
                black@ == pieces_upto(self.board, Color::Black, n as nat),
            decreases 64 - n,
        {
            if let Some(piece) = self.board[n / 8][n % 8] {
                if piece.color == Color::White {
                    white.push(piece);
                } else {
                    black.push(piece);
                }
            }
            n += 1;
        }
        [white, black]
    }

    /// The squares that `pieces` record, in the same order.
    pub fn get_color_positions(&self, pieces: &[Piece]) -> (positions: Vec<Position>)
        ensures
            positions@ == squares_recorded(pieces@),
    {
        let mut positions: Vec<Position> = Vec::new();
        let mut i: usize = 0;
        while i < pieces.len()
            invariant
                i <= pieces.len(),
                positions.len() == i,
                forall|j: int| 0 <= j < i ==> positions[j] == pieces[j].position,
            decreases pieces.len() - i,
        {
            positions.push(pieces[i].position);
            i += 1;
        }
        proof {
            assert(positions@ =~= squares_recorded(pieces@));
        }
        positions
    }

    /// The occupied squares, White's first and Black's second.
    pub fn get_all_positions(&self) -> (positions: [Vec<Position>; 2])
        ensures
            positions[0]@ == squares_of(self.board, Color::White),
            positions[1]@ == squares_of(self.board, Color::Black),
    {
        let pieces = self.get_pieces();
        let white_positions = self.get_color_positions(pieces[0].as_slice());
        let black_positions = self.get_color_positions(pieces[1].as_slice());
        [white_positions, black_positions]
    }

    /// Whether the position has the shape that the operations rely on: see
    /// [`BoardState::wf`].
    pub fn is_well_formed(&self) -> (ok: bool)
        ensures
            ok == self@.wf(),
    {
        let mut n: usize = 0;
        while n < 64
            invariant
                n <= 64,
                forall|m: int|
                    0 <= m < n ==> ((#[trigger] at(self.board, square_at(m))) is Some ==> at(
                        self.board,
                        square_at(m),
                    )->0.position == square_at(m)),
            decreases 64 - n,
        {
            let here = Position::new(n / 8, n % 8);
            assert(here == square_at(n as int));
            if let Some(piece) = self.board[here.x][here.y] {
                if piece.position.x != here.x || piece.position.y != here.y {
                    proof {
                        assert(at(self.board, here)->0.position != here);
                    }
                    return false;
                }
            }
            n += 1;
        }
        proof {
            assert forall|p: Position| p.on_board() && (#[trigger] at(self.board, p)) is Some implies at(
                self.board,
                p,
            )->0.position == p by {
                assert(p == square_at(p.x * 8 + p.y));
            }
        }
        let kings_known = match (
            table_get(&self.king_positions, 0),
            table_get(&self.king_positions, 1),
        ) {
            (Some(white), Some(black)) => white.x < 8 && white.y < 8 && black.x < 8 && black.y < 8,
            _ => false,
        };
        let rights_known = table_get(&self.castling, 0).is_some() && table_get(
            &self.castling,
            1,
        ).is_some();
        let target_known = match self.en_passant {
            Some(target) => target.x < 8 && target.y < 8,
            None => true,
        };
        kings_known && rights_known && target_known && self.n_full_moves >= 1 && self.history.len()
            >= 1
    }

    /// The board as the player of colour `turn` sees it: eight rows from the
    /// top, each with its eight squares from the left.
    pub fn rows_as_seen(&self, turn: &Color) -> (rows: Vec<Vec<Option<Piece>>>)
        ensures
            rows.len() == 8,
            forall|row: int| 0 <= row < 8 ==> is_seen_row((#[trigger] rows[row])@, self.board, *turn, row),
    {
        let mut rows: Vec<Vec<Option<Piece>>> = Vec::new();
        let mut row: i32 = 0;
        while row < 8
            invariant
                0 <= row <= 8,
                rows.len() == row,
                forall|r: int|
                    0 <= r < row ==> is_seen_row((#[trigger] rows[r])@, self.board, *turn, r),
            decreases 8 - row,
        {
            let mut squares: Vec<Option<Piece>> = Vec::new();
            let mut col: i32 = 0;
            while col < 8
                invariant
                    0 <= col <= 8,
                    0 <= row < 8,
                    squares.len() == col,
                    forall|c: int|
                        0 <= c < col ==> (#[trigger] squares[c]) == at(
                            self.board,
                            seen_square(*turn, c, row as int)->0,
                        ),
                decreases 8 - col,
            {
                match square_in_cell(col, row, *turn) {
                    Some(position) => squares.push(self.board[position.x][position.y]),
                    None => squares.push(None),
                }
                col += 1;
            }
            rows.push(squares);
            row += 1;
        }
        rows
    }
}

} // verus!
