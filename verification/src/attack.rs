//! Attack detection: whether a square is attacked by the other side.
use vstd::prelude::*;
use crate::board::{at, Board, Grid};
use crate::helpers::{Direction, Position, shift};
use crate::moves::{bishop_directions, bishop_steps, king_offset, king_offsets, knight_offset,
    knight_offsets, rook_directions, rook_steps};
use crate::pieces::{Color, Piece, PieceKind};

verus! {

/// The first piece met when walking from (`x`, `y`) in direction `d` for at
/// most `left` steps, if the walk meets one before it leaves the board.
pub open spec fn first_piece(g: Grid, x: int, y: int, d: Direction, left: nat) -> Option<Piece>
    decreases left,
{
    if left == 0 {
        None
    } else {
        match Position::valid_position(x + d.x, y + d.y) {
            None => None,
            Some(q) => if at(g, q) is Some {
                at(g, q)
            } else {
                first_piece(g, x + d.x, y + d.y, d, (left - 1) as nat)
            },
        }
    }
}

/// The first piece seen from `sq` in direction `d`.
pub open spec fn seen_along(g: Grid, sq: Position, d: Direction) -> Option<Piece> {
    first_piece(g, sq.x as int, sq.y as int, d, 7)
}

/// Whether `piece` is a piece of kind `kind` that does not belong to `side`.
pub open spec fn is_enemy(piece: Option<Piece>, side: Color, kind: PieceKind) -> bool {
    piece is Some && piece->0.color != side && piece->0.kind == kind
}

/// Whether `q` is a square that holds an enemy of `side` of kind `kind`.
pub open spec fn enemy_on(g: Grid, q: Option<Position>, side: Color, kind: PieceKind) -> bool {
    q is Some && is_enemy(at(g, q->0), side, kind)
}

/// Whether an enemy knight stands a knight's jump away from `sq`.
pub open spec fn knight_attacks(g: Grid, sq: Position, side: Color) -> bool {
    exists|i: int|
        0 <= i < 8 && enemy_on(
            g,
            #[trigger] shift(sq, knight_offsets()[i].0, knight_offsets()[i].1),
            side,
            PieceKind::N,
        )
}

/// Whether an enemy king stands next to `sq`.
pub open spec fn king_attacks(g: Grid, sq: Position, side: Color) -> bool {
    exists|i: int|
        0 <= i < 8 && enemy_on(
            g,
            #[trigger] shift(sq, king_offsets()[i].0, king_offsets()[i].1),
            side,
            PieceKind::K,
        )
}

/// Whether the first piece seen from `sq` along one of `dirs` is an enemy
/// queen or an enemy piece of kind `kind`.
pub open spec fn line_attacks(
    g: Grid,
    sq: Position,
    side: Color,
    dirs: Seq<Direction>,
    kind: PieceKind,
) -> bool {
    exists|i: int|
        0 <= i < dirs.len() && {
            let seen = #[trigger] seen_along(g, sq, dirs[i]);
            is_enemy(seen, side, kind) || is_enemy(seen, side, PieceKind::Q)
        }
}

/// Whether an enemy pawn stands where it could capture on `sq`: one file to
/// either side and one rank ahead, as `side` sees it.
pub open spec fn pawn_attacks(g: Grid, sq: Position, side: Color) -> bool {
    enemy_on(g, shift(sq, -1, side.forward()), side, PieceKind::P) || enemy_on(
        g,
        shift(sq, 1, side.forward()),
        side,
        PieceKind::P,
    )
}

/// Whether `sq` is attacked by a piece that does not belong to `side`.
pub open spec fn attacked(g: Grid, sq: Position, side: Color) -> bool {
    ||| knight_attacks(g, sq, side)
    ||| line_attacks(g, sq, side, rook_steps(), PieceKind::R)
    ||| line_attacks(g, sq, side, bishop_steps(), PieceKind::B)
    ||| king_attacks(g, sq, side)
    ||| pawn_attacks(g, sq, side)
}

/// Whether the square reached from `sq` by (`dx`, `dy`) holds an enemy of
/// `side` of kind `kind`.
fn enemy_at_offset(grid: &Grid, sq: Position, dx: i32, dy: i32, side: Color, kind: PieceKind) -> (hit:
    bool)
    requires
        sq.on_board(),
        -2 <= dx <= 2,
        -2 <= dy <= 2,
    ensures
        hit == enemy_on(*grid, shift(sq, dx as int, dy as int), side, kind),
{
    let (x, y) = sq.get_x_y_as_int();
    match Position::get_valid_position(x + dx, y + dy) {
        Some(q) => match grid[q.x][q.y] {
            Some(piece) => piece.color != side && piece.kind == kind,
            None => false,
        },
        None => false,
    }
}

/// The first piece seen from `sq` in direction `d`.
fn first_piece_along(grid: &Grid, sq: Position, d: Direction) -> (seen: Option<Piece>)
    requires
        sq.on_board(),
        d.is_unit(),
    ensures
        seen == seen_along(*grid, sq, d),
{
    let (start_x, start_y) = sq.get_x_y_as_int();
    let mut x: i32 = start_x;
    let mut y: i32 = start_y;
    let mut step: u8 = 0;
    let mut seen: Option<Piece> = None;
    let mut finished = false;
    while step < 7 && !finished
        invariant
            step <= 7,
            0 <= x < 8,
            0 <= y < 8,
            d.is_unit(),
            finished ==> seen == seen_along(*grid, sq, d),
            !finished ==> seen is None && seen_along(*grid, sq, d) == first_piece(
                *grid,
                x as int,
                y as int,
                d,
                (7 - step) as nat,
            ),
        decreases 7 - step + (if finished { 0int } else { 1int }),
    {
        match Position::get_valid_position(x + d.x, y + d.y) {
            None => {
                finished = true;
            },
            Some(q) => {
                let found = grid[q.x][q.y];
                if found.is_some() {
                    seen = found;
                    finished = true;
                } else {
                    x = x + d.x;
                    y = y + d.y;
                    step = step + 1;
                }
            },
        }
    }
    seen
}

/// Whether the first piece seen from `sq` along one of `dirs` is an enemy
/// queen or an enemy piece of kind `kind`.
fn line_attack(grid: &Grid, sq: Position, side: Color, dirs: &Vec<Direction>, kind: PieceKind) -> (hit:
    bool)
    requires
        sq.on_board(),
        forall|i: int| 0 <= i < dirs.len() ==> (#[trigger] dirs[i]).is_unit(),
    ensures
        hit == line_attacks(*grid, sq, side, dirs@, kind),
{
    let mut i: usize = 0;
    while i < dirs.len()
        invariant
            i <= dirs.len(),
            sq.on_board(),
            forall|j: int| 0 <= j < dirs.len() ==> (#[trigger] dirs[j]).is_unit(),
            forall|j: int|
                0 <= j < i ==> {
                    let seen = #[trigger] seen_along(*grid, sq, dirs[j]);
                    !(is_enemy(seen, side, kind) || is_enemy(seen, side, PieceKind::Q))
                },
        decreases dirs.len() - i,
    {
        if let Some(piece) = first_piece_along(grid, sq, dirs[i]) {
            if piece.color != side && (piece.kind == kind || piece.kind == PieceKind::Q) {
                return true;
            }
        }
        i += 1;
    }
    false
}

/// Whether `sq` is attacked on `grid` by a piece that does not belong to `side`.
pub fn is_square_attacked(grid: &Grid, sq: Position, side: Color) -> (hit: bool)
    requires
        sq.on_board(),
    ensures
        hit == attacked(*grid, sq, side),
{
    let mut i: usize = 0;
    while i < 8
        invariant
            i <= 8,
            sq.on_board(),
            forall|j: int|
                0 <= j < i ==> !enemy_on(
                    *grid,
                    #[trigger] shift(sq, knight_offsets()[j].0, knight_offsets()[j].1),
                    side,
                    PieceKind::N,
                ),
        decreases 8 - i,
    {
        let (dx, dy) = knight_offset(i);
        if enemy_at_offset(grid, sq, dx, dy, side, PieceKind::N) {
            return true;
        }
        i += 1;
    }
    assert(!knight_attacks(*grid, sq, side));

    if line_attack(grid, sq, side, &rook_directions(), PieceKind::R) {
        return true;
    }
    if line_attack(grid, sq, side, &bishop_directions(), PieceKind::B) {
        return true;
    }

    let mut k: usize = 0;
    while k < 8
        invariant
            k <= 8,
            sq.on_board(),
            forall|j: int|
                0 <= j < k ==> !enemy_on(
                    *grid,
                    #[trigger] shift(sq, king_offsets()[j].0, king_offsets()[j].1),
                    side,
                    PieceKind::K,
                ),
        decreases 8 - k,
    {
        let (dx, dy) = king_offset(k);
        if enemy_at_offset(grid, sq, dx, dy, side, PieceKind::K) {
            return true;
        }
        k += 1;
    }
    assert(!king_attacks(*grid, sq, side));

    let attack_direction: i32 = match side {
        Color::White => 1,
        Color::Black => -1,
    };
    enemy_at_offset(grid, sq, -1, attack_direction, side, PieceKind::P) || enemy_at_offset(
        grid,
        sq,
        1,
        attack_direction,
        side,
        PieceKind::P,
    )
}

/// Whether `field_position` is attacked on `board` by a piece that does not
/// belong to `color`.
pub fn is_field_in_check(field_position: Position, board: &Board, color: Color) -> (hit: bool)
    requires
        field_position.on_board(),
    ensures
        hit == attacked(board.board, field_position, color),
{
    is_square_attacked(&board.board, field_position, color)
}

} // verus!
