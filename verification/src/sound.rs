//! Positions as they arise in play: the kings are where the position says,
//! and the side that has just moved is not in check. The starting position
//! is such a position, and every legal move leads from one to another.
use vstd::prelude::*;
use crate::apply::{after_move, has_room, is_playable, lemma_moved_wf, moved, played};
use crate::attack::{attacked, enemy_on, first_piece, is_enemy, king_attacks, knight_attacks,
    line_attacks, pawn_attacks, seen_along};
use crate::board::{admissible, after_capture_in_passing, after_rook, at, BoardState,
    capture_in_passing, castles, Grid, holds_color, holds_king, is_start, lemma_put,
    lemma_squares_of, only_king, placement_after, promoted, promotes, put, relocate, squares_of,
    start_square};
use crate::helpers::{Direction, Move, Position, shift};
use crate::legal::{can_castle, castling_moves, castling_target, home_square, in_check, is_legal,
    king_square_after, lemma_king_steps_near, lemma_legal_move, plain_move, pseudo_targets};
use crate::moves::{bishop_moves, bishop_steps, is_free, jumps, king_offsets, king_steps,
    knight_moves, knight_offsets, pawn_advances, pawn_capture, pawn_moves, ray, ray_from,
    rook_castling_squares, rook_moves, rook_steps, slides};
use crate::pieces::{Color, Piece, PieceKind};

verus! {

/// Whether `s` is a position as it arises in play: it is well formed, each
/// colour has exactly one king, on its recorded square, and the king of the
/// side that is not to move is not attacked.
pub open spec fn sound(s: BoardState) -> bool {
    s.wf() && s.kings_ok() && !in_check(s, s.turn.other())
}

/// Every square reached by a jump lies one of the offsets away.
pub proof fn lemma_jumps_member(
    p: Position,
    offsets: Seq<(int, int)>,
    friendly: Seq<Position>,
    n: nat,
    q: Position,
)
    requires
        jumps(p, offsets, friendly, n).contains(q),
    ensures
        exists|i: int| 0 <= i < n && #[trigger] shift(p, offsets[i].0, offsets[i].1) == Some(q),
    decreases n,
{
    if n > 0 {
        let rest = jumps(p, offsets, friendly, (n - 1) as nat);
        let now = jumps(p, offsets, friendly, n);
        let k = choose|k: int| 0 <= k < now.len() && now[k] == q;
        if k < rest.len() {
            assert(rest[k] == q);
            lemma_jumps_member(p, offsets, friendly, (n - 1) as nat, q);
        } else {
            assert(shift(p, offsets[n - 1].0, offsets[n - 1].1) == Some(q));
        }
    }
}

/// A knight that can jump to a square attacks that square.
pub proof fn lemma_knight_attacks_target(g: Grid, piece: Piece, friendly: Seq<Position>, to: Position)
    requires
        piece.position.on_board(),
        at(g, piece.position) == Some(piece),
        piece.kind == PieceKind::N,
        knight_moves(piece.position, friendly).contains(to),
    ensures
        knight_attacks(g, to, piece.color.other()),
{
    let p = piece.position;
    lemma_jumps_member(p, knight_offsets(), friendly, 8, to);
    let i = choose|i: int|
        0 <= i < 8 && #[trigger] shift(p, knight_offsets()[i].0, knight_offsets()[i].1) == Some(to);
    let back: int = if i == 0 {
        3
    } else if i == 1 {
        2
    } else if i == 2 {
        1
    } else if i == 3 {
        0
    } else if i == 4 {
        7
    } else if i == 5 {
        6
    } else if i == 6 {
        5
    } else {
        4
    };
    assert(shift(to, knight_offsets()[back].0, knight_offsets()[back].1) == Some(p));
    assert(enemy_on(
        g,
        shift(to, knight_offsets()[back].0, knight_offsets()[back].1),
        piece.color.other(),
        PieceKind::N,
    ));
}

/// A king that can step to a square attacks that square.
pub proof fn lemma_king_attacks_target(g: Grid, piece: Piece, friendly: Seq<Position>, to: Position)
    requires
        piece.position.on_board(),
        at(g, piece.position) == Some(piece),
        piece.kind == PieceKind::K,
        king_steps(piece.position, friendly).contains(to),
    ensures
        king_attacks(g, to, piece.color.other()),
{
    let p = piece.position;
    lemma_jumps_member(p, king_offsets(), friendly, 8, to);
    let i = choose|i: int|
        0 <= i < 8 && #[trigger] shift(p, king_offsets()[i].0, king_offsets()[i].1) == Some(to);
    let back: int = if i == 0 {
        1
    } else if i == 1 {
        0
    } else if i == 2 {
        3
    } else if i == 3 {
        2
    } else if i == 4 {
        7
    } else if i == 5 {
        6
    } else if i == 6 {
        5
    } else {
        4
    };
    assert(shift(to, king_offsets()[back].0, king_offsets()[back].1) == Some(p));
    assert(enemy_on(
        g,
        shift(to, king_offsets()[back].0, king_offsets()[back].1),
        piece.color.other(),
        PieceKind::K,
    ));
}

/// `j` steps of size `c`, for a step size of -1, 0 or 1.
pub open spec fn scale(j: int, c: int) -> int {
    if c == 1 {
        j
    } else if c == -1 {
        -j
    } else {
        0
    }
}

/// The square `j` steps from (`x`, `y`) in direction `d`, if it is on the board.
pub open spec fn step_square(x: int, y: int, d: Direction, j: int) -> Option<Position> {
    Position::valid_position(x + scale(j, d.x as int), y + scale(j, d.y as int))
}

/// The opposite direction.
pub open spec fn reverse(d: Direction) -> Direction {
    Direction { x: (-d.x) as i32, y: (-d.y) as i32 }
}

/// What is in two lists joined is in one of them.
pub proof fn lemma_concat_member(a: Seq<Position>, b: Seq<Position>, q: Position)
    requires
        (a + b).contains(q),
    ensures
        a.contains(q) || b.contains(q),
{
    let k = choose|k: int| 0 <= k < (a + b).len() && (a + b)[k] == q;
    if k < a.len() {
        assert(a[k] == q);
    } else {
        assert(b[k - a.len()] == q);
    }
}

/// A square of a ray lies some steps along the direction, and the squares
/// before it are on the board and free.
#[verifier::rlimit(30)]
pub proof fn lemma_ray_member(
    x: int,
    y: int,
    d: Direction,
    friendly: Seq<Position>,
    opponent: Seq<Position>,
    left: nat,
    q: Position,
) -> (j: int)
    requires
        d.is_unit(),
        ray_from(x, y, d, friendly, opponent, left).contains(q),
    ensures
        1 <= j <= left,
        step_square(x, y, d, j) == Some(q),
        forall|i: int|
            1 <= i < j ==> {
                let between = #[trigger] step_square(x, y, d, i);
                between is Some && is_free(between->0, friendly, opponent)
            },
    decreases left,
{
    let full = ray_from(x, y, d, friendly, opponent, left);
    assert(full.len() > 0);
    let first = Position::valid_position(x + d.x, y + d.y)->0;
    assert(step_square(x, y, d, 1) == Some(first));
    let rest = ray_from(x + d.x, y + d.y, d, friendly, opponent, (left - 1) as nat);
    if first == q {
        1
    } else {
        assert(full == seq![first] + rest) by {
            if opponent.contains(first) {
                assert(full == seq![first]);
                assert(full[0] == first);
                let k = choose|k: int| 0 <= k < full.len() && full[k] == q;
            }
        }
        lemma_concat_member(seq![first], rest, q);
        assert(rest.contains(q)) by {
            if seq![first].contains(q) {
                let k = choose|k: int| 0 <= k < seq![first].len() && seq![first][k] == q;
            }
        }
        let inner = lemma_ray_member(
            x + d.x,
            y + d.y,
            d,
            friendly,
            opponent,
            (left - 1) as nat,
            q,
        );
        assert forall|i: int| 1 <= i < inner + 1 implies {
            let between = #[trigger] step_square(x, y, d, i);
            between is Some && is_free(between->0, friendly, opponent)
        } by {
            if i > 1 {
                assert(step_square(x, y, d, i) == step_square(x + d.x, y + d.y, d, i - 1));
            }
        }
        assert(step_square(x, y, d, inner + 1) == step_square(x + d.x, y + d.y, d, inner));
        inner + 1
    }
}

/// Looking back along a line of empty squares, the first piece seen is the
/// one the line started from.
pub proof fn lemma_look_back(g: Grid, x: int, y: int, d: Direction, j: int, n: nat, b: Position)
    requires
        d.is_unit(),
        0 <= x < 8,
        0 <= y < 8,
        at(g, Position { x: x as usize, y: y as usize }) is Some,
        1 <= j <= n,
        step_square(x, y, d, j) == Some(b),
        forall|i: int|
            1 <= i < j ==> {
                let between = #[trigger] step_square(x, y, d, i);
                between is Some && at(g, between->0) is None
            },
    ensures
        first_piece(g, b.x as int, b.y as int, reverse(d), n) == at(
            g,
            Position { x: x as usize, y: y as usize },
        ),
    decreases j,
{
    let back = reverse(d);
    assert(Position::valid_position(b.x + back.x, b.y + back.y) == step_square(x, y, d, j - 1));
    if j > 1 {
        let c = step_square(x, y, d, j - 1)->0;
        assert(at(g, c) is None);
        assert forall|i: int| 1 <= i < j - 1 implies {
            let between = #[trigger] step_square(x, y, d, i);
            between is Some && at(g, between->0) is None
        } by {}
        lemma_look_back(g, x, y, d, j - 1, (n - 1) as nat, c);
    }
}

/// A square listed for one of the first `n` directions lies on the ray of
/// one of them.
pub proof fn lemma_slides_member(
    p: Position,
    dirs: Seq<Direction>,
    friendly: Seq<Position>,
    opponent: Seq<Position>,
    n: nat,
    q: Position,
) -> (k: int)
    requires
        slides(p, dirs, friendly, opponent, n).contains(q),
    ensures
        0 <= k < n,
        ray(p, dirs[k], friendly, opponent).contains(q),
    decreases n,
{
    assert(n > 0) by {
        if n == 0 {
            let i = choose|i: int|
                0 <= i < slides(p, dirs, friendly, opponent, n).len() && slides(
                    p,
                    dirs,
                    friendly,
                    opponent,
                    n,
                )[i] == q;
        }
    }
    let before = slides(p, dirs, friendly, opponent, (n - 1) as nat);
    lemma_concat_member(before, ray(p, dirs[n - 1], friendly, opponent), q);
    if before.contains(q) {
        lemma_slides_member(p, dirs, friendly, opponent, (n - 1) as nat, q)
    } else {
        n - 1
    }
}

/// Whether every square of the board that neither list holds is empty.
pub open spec fn lists_cover(g: Grid, friendly: Seq<Position>, opponent: Seq<Position>) -> bool {
    forall|q: Position|
        q.on_board() && is_free(q, friendly, opponent) ==> (#[trigger] at(g, q)) is None
}

/// A rook, bishop or queen that can slide to a square attacks that square.
pub proof fn lemma_slider_attacks_target(
    g: Grid,
    piece: Piece,
    friendly: Seq<Position>,
    opponent: Seq<Position>,
    to: Position,
    straight: bool,
)
    requires
        piece.position.on_board(),
        at(g, piece.position) == Some(piece),
        lists_cover(g, friendly, opponent),
        piece.kind == PieceKind::Q || piece.kind == (if straight {
            PieceKind::R
        } else {
            PieceKind::B
        }),
        slides(
            piece.position,
            if straight {
                rook_steps()
            } else {
                bishop_steps()
            },
            friendly,
            opponent,
            4,
        ).contains(to),
    ensures
        line_attacks(
            g,
            to,
            piece.color.other(),
            if straight {
                rook_steps()
            } else {
                bishop_steps()
            },
            if straight {
                PieceKind::R
            } else {
                PieceKind::B
            },
        ),
{
    let p = piece.position;
    let dirs = if straight {
        rook_steps()
    } else {
        bishop_steps()
    };
    let k = lemma_slides_member(p, dirs, friendly, opponent, 4, to);
    let d = dirs[k];
    assert(d.is_unit());
    let j = lemma_ray_member(p.x as int, p.y as int, d, friendly, opponent, 7, to);
    assert forall|i: int| 1 <= i < j implies {
        let between = #[trigger] step_square(p.x as int, p.y as int, d, i);
        between is Some && at(g, between->0) is None
    } by {
        let between = step_square(p.x as int, p.y as int, d, i);
        assert(between is Some && is_free(between->0, friendly, opponent));
        assert(between->0.on_board());
    }
    lemma_look_back(g, p.x as int, p.y as int, d, j, 7, to);
    let back: int = if straight {
        if k == 0 {
            1
        } else if k == 1 {
            0
        } else if k == 2 {
            3
        } else {
            2
        }
    } else {
        3 - k
    };
    assert(dirs[back] == reverse(d));
    assert(seen_along(g, to, dirs[back]) == Some(piece));
}

/// A pawn that can capture on a square that holds an enemy attacks that square.
pub proof fn lemma_pawn_attacks_target(
    g: Grid,
    piece: Piece,
    friendly: Seq<Position>,
    opponent: Seq<Position>,
    en_passant: Option<Position>,
    to: Position,
)
    requires
        piece.position.on_board(),
        at(g, piece.position) == Some(piece),
        piece.kind == PieceKind::P,
        lists_cover(g, friendly, opponent),
        at(g, to) is Some,
        pawn_moves(
            piece.position,
            piece.has_moved,
            friendly,
            opponent,
            piece.color.forward(),
            en_passant,
        ).contains(to),
    ensures
        pawn_attacks(g, to, piece.color.other()),
{
    let p = piece.position;
    let forward = piece.color.forward();
    let advances = pawn_advances(p, piece.has_moved, friendly, opponent, forward);
    let left = pawn_capture(p, -1, friendly, opponent, forward, en_passant);
    let right = pawn_capture(p, 1, friendly, opponent, forward, en_passant);
    lemma_concat_member(advances + left, right, to);
    if (advances + left).contains(to) {
        lemma_concat_member(advances, left, to);
        if advances.contains(to) {
            let k = choose|k: int| 0 <= k < advances.len() && advances[k] == to;
            assert(to.on_board() && is_free(to, friendly, opponent));
            assert(at(g, to) is None);
        } else {
            let k = choose|k: int| 0 <= k < left.len() && left[k] == to;
            assert(shift(p, -1, forward) == Some(to));
            assert(shift(to, 1, piece.color.other().forward()) == Some(p));
        }
    } else {
        let k = choose|k: int| 0 <= k < right.len() && right[k] == to;
        assert(shift(p, 1, forward) == Some(to));
        assert(shift(to, -1, piece.color.other().forward()) == Some(p));
    }
}

/// On a grid whose pieces record their squares, a square of the board that
/// is listed for neither colour is empty.
pub proof fn lemma_lists_cover(g: Grid, c: Color)
    requires
        crate::board::squares_agree(g),
    ensures
        lists_cover(g, squares_of(g, c), squares_of(g, c.other())),
{
    lemma_squares_of(g, c);
    lemma_squares_of(g, c.other());
    assert forall|q: Position|
        q.on_board() && is_free(q, squares_of(g, c), squares_of(g, c.other())) implies (#[trigger] at(
        g,
        q,
    )) is None by {
        if at(g, q) is Some {
            if at(g, q)->0.color == c {
                assert(holds_color(g, q, c));
                assert(squares_of(g, c).contains(q));
            } else {
                assert(holds_color(g, q, c.other()));
                assert(squares_of(g, c.other()).contains(q));
            }
        }
    }
}

/// A castling move that is listed is allowed by the rules, and starts on the
/// king's home square.
pub proof fn lemma_castling_member(s: BoardState, c: Color, to: Position) -> (short: bool)
    requires
        castling_moves(s, c).contains(to),
    ensures
        can_castle(s, c, short),
        to == castling_target(c, short),
{
    let first = if can_castle(s, c, true) {
        seq![castling_target(c, true)]
    } else {
        Seq::empty()
    };
    let second = if can_castle(s, c, false) {
        seq![castling_target(c, false)]
    } else {
        Seq::empty()
    };
    lemma_concat_member(first, second, to);
    if first.contains(to) {
        let k = choose|k: int| 0 <= k < first.len() && first[k] == to;
        true
    } else {
        let k = choose|k: int| 0 <= k < second.len() && second[k] == to;
        false
    }
}

/// A piece attacks every square that holds an enemy and that the rules of
/// its kind let it move to.
pub proof fn lemma_target_attacked(s: BoardState, piece: Piece, to: Position)
    requires
        s.wf(),
        piece.position.on_board(),
        at(s.board, piece.position) == Some(piece),
        pseudo_targets(
            s,
            piece,
            squares_of(s.board, piece.color),
            squares_of(s.board, piece.color.other()),
        ).contains(to),
        holds_color(s.board, to, piece.color.other()),
    ensures
        attacked(s.board, to, piece.color.other()),
{
    let g = s.board;
    let p = piece.position;
    let friendly = squares_of(g, piece.color);
    let opponent = squares_of(g, piece.color.other());
    lemma_lists_cover(g, piece.color);
    match piece.kind {
        PieceKind::P => {
            lemma_pawn_attacks_target(g, piece, friendly, opponent, s.en_passant, to);
        },
        PieceKind::R => {
            lemma_slider_attacks_target(g, piece, friendly, opponent, to, true);
        },
        PieceKind::N => {
            lemma_knight_attacks_target(g, piece, friendly, to);
        },
        PieceKind::B => {
            lemma_slider_attacks_target(g, piece, friendly, opponent, to, false);
        },
        PieceKind::Q => {
            lemma_concat_member(
                rook_moves(p, friendly, opponent),
                bishop_moves(p, friendly, opponent),
                to,
            );
            if rook_moves(p, friendly, opponent).contains(to) {
                lemma_slider_attacks_target(g, piece, friendly, opponent, to, true);
            } else {
                lemma_slider_attacks_target(g, piece, friendly, opponent, to, false);
            }
        },
        PieceKind::K => {
            let castling = if p == home_square(piece.color) {
                castling_moves(s, piece.color)
            } else {
                Seq::empty()
            };
            lemma_concat_member(castling, king_steps(p, friendly), to);
            if castling.contains(to) {
                let short = lemma_castling_member(s, piece.color, to);
                assert(at(g, to) is None);
            }
            lemma_king_attacks_target(g, piece, friendly, to);
        },
    }
}

/// A legal move never takes a king, if the side that is not to move is not
/// in check.
pub proof fn lemma_no_king_capture(s: BoardState, m: Move)
    requires
        sound(s),
        is_legal(s, s.turn, m),
    ensures
        m.to != s.king_of(s.turn.other()),
{
    let other = s.turn.other();
    if m.to == s.king_of(other) {
        let piece = at(s.board, m.from)->0;
        assert(holds_king(s.board, m.to, other));
        assert(piece.position == m.from);
        lemma_target_attacked(s, piece, m.to);
    }
}

/// Whether two grids agree everywhere but on `p`, where both hold a piece
/// of colour `side`.
pub open spec fn differ_in_own_piece(a: Grid, b: Grid, p: Position, side: Color) -> bool {
    &&& p.on_board()
    &&& holds_color(a, p, side)
    &&& holds_color(b, p, side)
    &&& forall|q: Position| q.on_board() && q != p ==> #[trigger] at(a, q) == at(b, q)
}

/// On such grids a walk meets the same piece, or on both the piece on `p`.
pub proof fn lemma_first_piece_own(
    a: Grid,
    b: Grid,
    p: Position,
    side: Color,
    x: int,
    y: int,
    d: Direction,
    left: nat,
    kind: PieceKind,
)
    requires
        differ_in_own_piece(a, b, p, side),
    ensures
        is_enemy(first_piece(a, x, y, d, left), side, kind) == is_enemy(
            first_piece(b, x, y, d, left),
            side,
            kind,
        ),
    decreases left,
{
    if left > 0 {
        match Position::valid_position(x + d.x, y + d.y) {
            None => {},
            Some(q) => {
                if q != p {
                    assert(at(a, q) == at(b, q));
                    lemma_first_piece_own(a, b, p, side, x + d.x, y + d.y, d, (left - 1) as nat, kind);
                }
            },
        }
    }
}

/// Whether a square is attacked does not depend on the kind of a piece of
/// the attacked side.
pub proof fn lemma_own_kind_irrelevant(a: Grid, b: Grid, p: Position, side: Color, sq: Position)
    requires
        differ_in_own_piece(a, b, p, side),
    ensures
        attacked(a, sq, side) == attacked(b, sq, side),
{
    assert(knight_attacks(a, sq, side) == knight_attacks(b, sq, side)) by {
        lemma_shifted_same(a, b, p, side, sq, knight_offsets(), PieceKind::N);
    }
    assert(king_attacks(a, sq, side) == king_attacks(b, sq, side)) by {
        lemma_shifted_same(a, b, p, side, sq, king_offsets(), PieceKind::K);
    }
    assert(pawn_attacks(a, sq, side) == pawn_attacks(b, sq, side)) by {
        lemma_enemy_on_same(a, b, p, side, shift(sq, -1, side.forward()), PieceKind::P);
        lemma_enemy_on_same(a, b, p, side, shift(sq, 1, side.forward()), PieceKind::P);
    }
    lemma_lines_same(a, b, p, side, sq, rook_steps(), PieceKind::R);
    lemma_lines_same(a, b, p, side, sq, bishop_steps(), PieceKind::B);
}

/// On such grids the same squares hold an enemy of a kind.
pub proof fn lemma_enemy_on_same(
    a: Grid,
    b: Grid,
    p: Position,
    side: Color,
    q: Option<Position>,
    kind: PieceKind,
)
    requires
        differ_in_own_piece(a, b, p, side),
        q is Some ==> q->0.on_board(),
    ensures
        enemy_on(a, q, side, kind) == enemy_on(b, q, side, kind),
{
    if q is Some && q->0 != p {
        assert(at(a, q->0) == at(b, q->0));
    }
}

/// On such grids the same offsets lead to an enemy of a kind.
pub proof fn lemma_shifted_same(
    a: Grid,
    b: Grid,
    p: Position,
    side: Color,
    sq: Position,
    offsets: Seq<(int, int)>,
    kind: PieceKind,
)
    requires
        differ_in_own_piece(a, b, p, side),
    ensures
        forall|i: int|
            enemy_on(a, #[trigger] shift(sq, offsets[i].0, offsets[i].1), side, kind) == enemy_on(
                b,
                shift(sq, offsets[i].0, offsets[i].1),
                side,
                kind,
            ),
{
    assert forall|i: int|
        enemy_on(a, #[trigger] shift(sq, offsets[i].0, offsets[i].1), side, kind) == enemy_on(
            b,
            shift(sq, offsets[i].0, offsets[i].1),
            side,
            kind,
        ) by {
        lemma_enemy_on_same(a, b, p, side, shift(sq, offsets[i].0, offsets[i].1), kind);
    }
}

/// On such grids the same lines lead to an enemy of a kind or an enemy queen.
pub proof fn lemma_lines_same(
    a: Grid,
    b: Grid,
    p: Position,
    side: Color,
    sq: Position,
    dirs: Seq<Direction>,
    kind: PieceKind,
)
    requires
        differ_in_own_piece(a, b, p, side),
    ensures
        line_attacks(a, sq, side, dirs, kind) == line_attacks(b, sq, side, dirs, kind),
{
    assert forall|i: int| 0 <= i < dirs.len() implies {
        let seen_a = #[trigger] seen_along(a, sq, dirs[i]);
        let seen_b = seen_along(b, sq, dirs[i]);
        (is_enemy(seen_a, side, kind) || is_enemy(seen_a, side, PieceKind::Q)) == (is_enemy(
            seen_b,
            side,
            kind,
        ) || is_enemy(seen_b, side, PieceKind::Q))
    } by {
        lemma_first_piece_own(a, b, p, side, sq.x as int, sq.y as int, dirs[i], 7, kind);
        lemma_first_piece_own(a, b, p, side, sq.x as int, sq.y as int, dirs[i], 7, PieceKind::Q);
    }
    if line_attacks(a, sq, side, dirs, kind) {
        let i = choose|i: int|
            0 <= i < dirs.len() && {
                let seen = #[trigger] seen_along(a, sq, dirs[i]);
                is_enemy(seen, side, kind) || is_enemy(seen, side, PieceKind::Q)
            };
        assert(seen_along(b, sq, dirs[i]) == seen_along(b, sq, dirs[i]));
    }
    if line_attacks(b, sq, side, dirs, kind) {
        let i = choose|i: int|
            0 <= i < dirs.len() && {
                let seen = #[trigger] seen_along(b, sq, dirs[i]);
                is_enemy(seen, side, kind) || is_enemy(seen, side, PieceKind::Q)
            };
        assert(seen_along(a, sq, dirs[i]) == seen_along(a, sq, dirs[i]));
    }
}

/// Whether a square holds a king.
pub open spec fn is_king(square: Option<Piece>) -> bool {
    square is Some && square->0.kind == PieceKind::K
}

/// The move `m` with the kind to promote to replaced.
pub open spec fn with_kind(m: Move, promotion: Option<PieceKind>) -> Move {
    Move { promotion, ..m }
}

/// What a legal move changes on the board: the square it leaves is empty,
/// the square it goes to holds the mover or the piece it is promoted to, and
/// any other square holds what it held, unless neither before nor after it
/// holds a king.
pub proof fn lemma_legal_placement(s: BoardState, m: Move, promotion: Option<PieceKind>)
    requires
        s.wf(),
        is_legal(s, s.turn, m),
    ensures
        ({
            let g = s.board;
            let after = placement_after(g, s.en_passant, with_kind(m, promotion));
            let mover = at(g, m.from)->0;
            &&& m.from.on_board() && m.to.on_board() && m.from != m.to
            &&& at(after, m.from) is None
            &&& at(after, m.to) == Some(
                if promotes(g, m) {
                    promoted(mover.color, with_kind(m, promotion))
                } else {
                    mover.moved_to(m.to)
                },
            )
            &&& forall|q: Position|
                q.on_board() && q != m.from && q != m.to ==> #[trigger] at(after, q) == at(g, q)
                    || (!is_king(at(g, q)) && !is_king(at(after, q)))
        }),
{
    let g = s.board;
    let c = s.turn;
    let m2 = with_kind(m, promotion);
    let mover = at(g, m.from)->0;
    let g1 = after_capture_in_passing(g, s.en_passant, m2);
    let g2 = after_rook(g, s.en_passant, m2);
    let g3 = relocate(g2, m.from, m.to);
    let after = placement_after(g, s.en_passant, m2);
    assert(mover.position == m.from);
    assert(after_capture_in_passing(g, s.en_passant, m) == g1);
    assert(after_rook(g, s.en_passant, m) == g2);
    assert(castles(g, m) == castles(g, m2));
    assert(promotes(g, m) == promotes(g, m2));
    match capture_in_passing(g, s.en_passant, m2) {
        Some(victim) => {
            lemma_put(g, victim, None);
        },
        None => {},
    }
    if castles(g, m) {
        let friendly = squares_of(g, c);
        let castling = if m.from == home_square(c) {
            castling_moves(s, c)
        } else {
            Seq::empty()
        };
        lemma_concat_member(castling, king_steps(m.from, friendly), m.to);
        if king_steps(m.from, friendly).contains(m.to) {
            lemma_king_steps_near(m.from, friendly, 8);
            let k = choose|k: int|
                0 <= k < king_steps(m.from, friendly).len() && king_steps(m.from, friendly)[k]
                    == m.to;
            assert(king_steps(m.from, friendly)[k].x <= m.from.x + 1);
            assert(false);
        }
        let short = lemma_castling_member(s, c, m.to);
        let rook_from = rook_castling_squares(m.to).0;
        let rook_to = rook_castling_squares(m.to).1;
        lemma_put(g1, rook_from, None);
        lemma_put(put(g1, rook_from, None), rook_to, Some(at(g1, rook_from)->0.moved_to(rook_to)));
    }
    lemma_put(g2, m.from, None);
    lemma_put(put(g2, m.from, None), m.to, Some(at(g2, m.from)->0.moved_to(m.to)));
    if promotes(g, m) {
        lemma_put(g3, m.to, Some(promoted(mover.color, m2)));
    }
}

/// The starting position is a position as it arises in play.
pub proof fn law_start_is_sound(s: BoardState)
    requires
        is_start(s),
    ensures
        sound(s),
{
    let g = s.board;
    let white_king = Position { x: 3, y: 0 };
    let black_king = Position { x: 3, y: 7 };
    assert(s.king_of(Color::White) == white_king);
    assert(s.king_of(Color::Black) == black_king);
    assert(at(g, white_king) == start_square(white_king));
    assert(at(g, black_king) == start_square(black_king));
    assert forall|p: Position| p.on_board() && (#[trigger] at(g, p)) is Some implies at(
        g,
        p,
    )->0.position == p by {
        assert(at(g, p) == start_square(p));
    }
    assert forall|p: Position, c: Color|
        p.on_board() && #[trigger] holds_king(g, p, c) implies p == s.king_of(c) by {
        assert(at(g, p) == start_square(p));
    }
    assert(s.wf());
    assert(s.kings_ok());
    lemma_start_black_king_safe(s);
}

/// In the starting position the black king is not attacked.
pub proof fn lemma_start_black_king_safe(s: BoardState)
    requires
        is_start(s),
    ensures
        !attacked(s.board, Position { x: 3, y: 7 }, Color::Black),
{
    let g = s.board;
    let sq = Position { x: 3, y: 7 };
    let side = Color::Black;
    assert forall|q: Option<Position>, kind: PieceKind|
        q is Some && q->0.on_board() && q->0.y >= 5 implies !#[trigger] enemy_on(
        g,
        q,
        side,
        kind,
    ) by {
        assert(at(g, q->0) == start_square(q->0));
    }
    assert forall|i: int| 0 <= i < 8 implies !enemy_on(
        g,
        #[trigger] shift(sq, knight_offsets()[i].0, knight_offsets()[i].1),
        side,
        PieceKind::N,
    ) by {
        let q = shift(sq, knight_offsets()[i].0, knight_offsets()[i].1);
        if q is Some {
            assert(-2 <= knight_offsets()[i].1 <= 2) by {
                if i == 0 {
                } else if i == 1 {
                } else if i == 2 {
                } else if i == 3 {
                } else if i == 4 {
                } else if i == 5 {
                } else if i == 6 {
                } else {
                }
            }
            assert(q->0.y >= 5);
        }
    }
    assert forall|i: int| 0 <= i < 8 implies !enemy_on(
        g,
        #[trigger] shift(sq, king_offsets()[i].0, king_offsets()[i].1),
        side,
        PieceKind::K,
    ) by {
        let q = shift(sq, king_offsets()[i].0, king_offsets()[i].1);
        if q is Some {
            assert(-1 <= king_offsets()[i].1 <= 1) by {
                if i == 0 {
                } else if i == 1 {
                } else if i == 2 {
                } else if i == 3 {
                } else if i == 4 {
                } else if i == 5 {
                } else if i == 6 {
                } else {
                }
            }
            assert(q->0.y >= 5);
        }
    }
    assert forall|d: Direction| d.is_unit() implies (#[trigger] seen_along(g, sq, d)) is None
        || seen_along(g, sq, d)->0.color == side by {
        match Position::valid_position(sq.x + d.x, sq.y + d.y) {
            None => {},
            Some(q) => {
                assert(at(g, q) == start_square(q));
                assert(q.y >= 6);
            },
        }
    }
    assert(!line_attacks(g, sq, side, rook_steps(), PieceKind::R)) by {
        assert forall|i: int| 0 <= i < 4 implies (#[trigger] rook_steps()[i]).is_unit() by {}
    }
    assert(!line_attacks(g, sq, side, bishop_steps(), PieceKind::B)) by {
        assert forall|i: int| 0 <= i < 4 implies (#[trigger] bishop_steps()[i]).is_unit() by {}
    }
    assert(!pawn_attacks(g, sq, side)) by {
        let left = shift(sq, -1, side.forward());
        let right = shift(sq, 1, side.forward());
        assert(left is Some ==> left->0.y >= 5);
        assert(right is Some ==> right->0.y >= 5);
    }
}

/// A legal move that does not take the other side's king keeps the kings
/// where the position says: after it, each colour still has exactly one king,
/// on its recorded square.
pub proof fn law_kings_stay_recorded(s: BoardState, m: Move)
    requires
        s.wf(),
        s.kings_ok(),
        is_playable(s, m),
        m.to != s.king_of(s.turn.other()),
    ensures
        after_move(s, m).kings_ok(),
        played(s, m).kings_ok(),
{
    let g = s.board;
    let c = s.turn;
    let other = c.other();
    let plain = plain_move(m.from, m.to);
    lemma_legal_move(s, plain);
    assert(with_kind(plain, m.promotion) == m);
    let mover = at(g, m.from)->0;
    let after = placement_after(g, s.en_passant, m);
    lemma_legal_placement(s, plain, m.promotion);
    let next = after_move(s, m);
    let own_king = s.king_of(c);
    let other_king = s.king_of(other);
    assert(only_king(g, own_king, c));
    assert(only_king(g, other_king, other));
    assert(next.king_of(other) == other_king);
    assert(other_king != m.from);
    assert(only_king(after, other_king, other)) by {
        assert(at(after, other_king) == at(g, other_king) || (!is_king(at(g, other_king))
            && !is_king(at(after, other_king))));
        assert forall|q: Position| q.on_board() && #[trigger] holds_king(
            after,
            q,
            other,
        ) implies q == other_king by {
            if q != m.from && q != m.to {
                assert(at(after, q) == at(g, q) || (!is_king(at(g, q)) && !is_king(at(after, q))));
                assert(holds_king(g, q, other));
            }
        }
    }
    assert(only_king(after, next.king_of(c), c)) by {
        if mover.kind == PieceKind::K {
            assert(holds_king(g, m.from, c));
            assert(m.from == own_king);
            assert forall|q: Position| q.on_board() && #[trigger] holds_king(
                after,
                q,
                c,
            ) implies q == m.to by {
                if q != m.from && q != m.to {
                    assert(at(after, q) == at(g, q) || (!is_king(at(g, q)) && !is_king(
                        at(after, q),
                    )));
                    assert(holds_king(g, q, c));
                }
            }
        } else {
            assert(own_king != m.from);
            assert(own_king != m.to) by {
                if own_king == m.to {
                    assert(holds_color(g, m.to, c));
                }
            }
            assert(at(after, own_king) == at(g, own_king) || (!is_king(at(g, own_king))
                && !is_king(at(after, own_king))));
            assert forall|q: Position| q.on_board() && #[trigger] holds_king(
                after,
                q,
                c,
            ) implies q == own_king by {
                if q != m.from && q != m.to {
                    assert(at(after, q) == at(g, q) || (!is_king(at(g, q)) && !is_king(
                        at(after, q),
                    )));
                    assert(holds_king(g, q, c));
                }
            }
        }
    }
    assert(next.kings_ok()) by {
        assert(next.king_ok(Color::White));
        assert(next.king_ok(Color::Black));
    }
    assert(played(s, m).kings_ok()) by {
        assert(played(s, m).king_ok(Color::White));
        assert(played(s, m).king_ok(Color::Black));
    }
}

/// After a move that may be played, whatever it promotes to, the other side
/// is to move and the king of the side that moved is not attacked.
pub proof fn law_played_move_leaves_king_safe(s: BoardState, m: Move)
    requires
        s.wf(),
        is_playable(s, m),
    ensures
        played(s, m).turn == s.turn.other(),
        !in_check(played(s, m), s.turn),
        !in_check(after_move(s, m), s.turn),
{
    let g = s.board;
    let c = s.turn;
    let plain = plain_move(m.from, m.to);
    lemma_legal_move(s, plain);
    assert(with_kind(plain, m.promotion) == m);
    let mover = at(g, m.from)->0;
    let after_plain = placement_after(g, s.en_passant, plain);
    let after = placement_after(g, s.en_passant, m);
    lemma_legal_placement(s, plain, None);
    lemma_legal_placement(s, plain, m.promotion);
    assert(with_kind(plain, None) == plain);
    let king_square = king_square_after(s, plain);
    assert(!attacked(after_plain, king_square, c));
    if m.promotion is Some {
        assert(promotes(g, plain));
        assert forall|q: Position| q.on_board() && q != m.to implies #[trigger] at(
            after_plain,
            q,
        ) == at(after, q) by {
            let g3 = relocate(after_rook(g, s.en_passant, plain), m.from, m.to);
            assert(after_rook(g, s.en_passant, m) == after_rook(g, s.en_passant, plain));
            lemma_put(g3, m.to, Some(promoted(mover.color, plain)));
            lemma_put(g3, m.to, Some(promoted(mover.color, m)));
        }
        lemma_own_kind_irrelevant(after_plain, after, m.to, c, king_square);
    }
    assert(!attacked(after, king_square, c));
    assert(after_move(s, m).king_of(c) == king_square);
}

/// A legal move leads from a position as it arises in play to another such
/// position: the kings stay where the position says, and the side that has
/// moved is not in check.
pub proof fn law_play_keeps_sound(s: BoardState, m: Move)
    requires
        sound(s),
        has_room(s),
        is_playable(s, m),
    ensures
        sound(after_move(s, m)),
        sound(played(s, m)),
{
    let plain = plain_move(m.from, m.to);
    lemma_legal_move(s, plain);
    assert(admissible(s.board, s.en_passant, m));
    lemma_moved_wf(s, m);
    assert(after_move(s, m).wf());
    assert(played(s, m).wf());
    law_played_move_leaves_king_safe(s, m);
    lemma_no_king_capture(s, plain);
    law_kings_stay_recorded(s, m);
}

} // verus!
