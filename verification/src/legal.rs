//! Legal moves: castling, the legality filter and the moves of a piece and
//! of a side.
use vstd::prelude::*;
use crate::attack::{attacked, is_square_attacked};
use crate::board::{admissible, after_capture_in_passing, after_rook, at, Board, BoardState,
    capture_in_passing, castles, Grid, holds_color, lemma_pieces_upto, lemma_put, lemma_squares_of,
    locate_king, pieces_of, placement_after, play_on_grid, put, squares_of};
use crate::color_map::key_of;
use crate::helpers::{Move, Position};
use crate::moves::{bishop_moves, bishop_steps, clear_of, get_bishop_moves, get_king_steps,
    get_knight_moves, get_pawn_moves, get_queen_moves, get_rook_moves, jumps, king_offsets,
    king_steps, knight_moves, knight_offsets, lemma_clear_concat, lemma_jumps_safe,
    lemma_pawn_moves_safe, lemma_slides_safe, pawn_moves, queen_moves, rook_castling_squares,
    rook_moves, rook_steps};
use crate::pieces::{Color, Piece, PieceKind};
use crate::sound::sound;

verus! {

/// The square on which the king of colour `c` starts: file e of its home rank.
pub open spec fn home_square(c: Color) -> Position {
    Position { x: 3, y: c.home_row() }
}

/// Whether `p` holds a piece of colour `c` and kind `kind` that has not moved.
pub open spec fn unmoved(g: Grid, p: Position, c: Color, kind: PieceKind) -> bool {
    at(g, p) == Some(Piece { color: c, kind, position: p, has_moved: false })
}

/// The square the king castles to: file g on the king's side, file c on the
/// queen's side.
pub open spec fn castling_target(c: Color, short: bool) -> Position {
    Position { x: if short { 1usize } else { 5usize }, y: c.home_row() }
}

/// Whether colour `c` may castle now, on the king's side if `short` and on
/// the queen's side otherwise: it still has the right, king and rook stand
/// unmoved on their home squares, the squares between them are empty, and the
/// king's square, the square it passes and the square it arrives on are not
/// attacked.
pub open spec fn can_castle(s: BoardState, c: Color, short: bool) -> bool {
    let y = c.home_row();
    let g = s.board;
    &&& s.castling[key_of(c)][if short { 0int } else { 1int }]
    &&& unmoved(g, home_square(c), c, PieceKind::K)
    &&& unmoved(g, Position { x: if short { 0usize } else { 7usize }, y }, c, PieceKind::R)
    &&& at(g, Position { x: if short { 2usize } else { 4usize }, y }) is None
    &&& at(g, castling_target(c, short)) is None
    &&& (short || at(g, Position { x: 6, y }) is None)
    &&& !attacked(g, home_square(c), c)
    &&& !attacked(g, Position { x: if short { 2usize } else { 4usize }, y }, c)
    &&& !attacked(g, castling_target(c, short), c)
}

/// The castling moves of colour `c`: the king's side first.
pub open spec fn castling_moves(s: BoardState, c: Color) -> Seq<Position> {
    (if can_castle(s, c, true) {
        seq![castling_target(c, true)]
    } else {
        Seq::empty()
    }) + (if can_castle(s, c, false) {
        seq![castling_target(c, false)]
    } else {
        Seq::empty()
    })
}

/// The moves of the king on `position`, the legality filter aside: castling
/// if the king stands on its home square, then the steps to its neighbours.
pub open spec fn king_moves(s: BoardState, position: Position, friendly: Seq<Position>) -> Seq<
    Position,
> {
    (match at(s.board, position) {
        Some(piece) => if piece.kind == PieceKind::K && position == home_square(piece.color) {
            castling_moves(s, piece.color)
        } else {
            Seq::empty()
        },
        None => Seq::empty(),
    }) + king_steps(position, friendly)
}

/// The moves of `piece` by the rules of its kind, the legality filter aside.
pub open spec fn pseudo_targets(
    s: BoardState,
    piece: Piece,
    friendly: Seq<Position>,
    opponent: Seq<Position>,
) -> Seq<Position> {
    match piece.kind {
        PieceKind::P => pawn_moves(
            piece.position,
            piece.has_moved,
            friendly,
            opponent,
            piece.color.forward(),
            s.en_passant,
        ),
        PieceKind::R => rook_moves(piece.position, friendly, opponent),
        PieceKind::N => knight_moves(piece.position, friendly),
        PieceKind::B => bishop_moves(piece.position, friendly, opponent),
        PieceKind::Q => queen_moves(piece.position, friendly, opponent),
        PieceKind::K => king_moves(s, piece.position, friendly),
    }
}

/// The move from `from` to `to` that names no promotion.
pub open spec fn plain_move(from: Position, to: Position) -> Move {
    Move { from, to, promotion: None }
}

/// The square on which the mover's king stands after `m`.
pub open spec fn king_square_after(s: BoardState, m: Move) -> Position {
    let mover = at(s.board, m.from)->0;
    if mover.kind == PieceKind::K {
        m.to
    } else {
        s.king_of(mover.color)
    }
}

/// Whether the mover's king is not attacked once `m` has been played.
pub open spec fn leaves_king_safe(s: BoardState, m: Move) -> bool {
    !attacked(
        placement_after(s.board, s.en_passant, m),
        king_square_after(s, m),
        at(s.board, m.from)->0.color,
    )
}

/// Those of the first `n` of `targets` to which the piece on `from` can go
/// without leaving its king attacked, in the same order.
pub open spec fn safe_targets(s: BoardState, from: Position, targets: Seq<Position>, n: nat) -> Seq<
    Position,
>
    decreases n,
{
    if n == 0 {
        Seq::empty()
    } else {
        let rest = safe_targets(s, from, targets, (n - 1) as nat);
        if leaves_king_safe(s, plain_move(from, targets[n - 1])) {
            rest.push(targets[n - 1])
        } else {
            rest
        }
    }
}

/// The legal moves of `piece`: its moves by the rules of its kind that do not
/// leave its own king attacked.
pub open spec fn legal_targets(
    s: BoardState,
    piece: Piece,
    friendly: Seq<Position>,
    opponent: Seq<Position>,
) -> Seq<Position> {
    let pseudo = pseudo_targets(s, piece, friendly, opponent);
    safe_targets(s, piece.position, pseudo, pseudo.len())
}

/// Whether every move from `from` to one of `targets` can be played.
pub open spec fn all_admissible(s: BoardState, from: Position, targets: Seq<Position>) -> bool {
    forall|i: int|
        0 <= i < targets.len() ==> admissible(
            s.board,
            s.en_passant,
            #[trigger] plain_move(from, targets[i]),
        )
}

/// Whether `friendly` lists every square that holds colour `c`.
pub open spec fn covers(friendly: Seq<Position>, g: Grid, c: Color) -> bool {
    forall|p: Position| p.on_board() && #[trigger] holds_color(g, p, c) ==> friendly.contains(p)
}

/// A move of an occupied square to a square that does not hold the mover's
/// colour can be played, unless it is a king going two files sideways.
pub proof fn lemma_plain_admissible(g: Grid, en_passant: Option<Position>, m: Move)
    requires
        m.from.on_board(),
        m.to.on_board(),
        at(g, m.from) is Some,
        !holds_color(g, m.to, at(g, m.from)->0.color),
        !castles(g, m),
    ensures
        admissible(g, en_passant, m),
        after_rook(g, en_passant, m) == after_capture_in_passing(g, en_passant, m),
{
    match capture_in_passing(g, en_passant, m) {
        Some(victim) => {
            lemma_put(g, victim, None);
        },
        None => {},
    }
}

/// Moves to squares that are clear of the mover's colour can be played, if
/// none of them is a king going two files sideways.
pub proof fn lemma_clear_admissible(
    s: BoardState,
    piece: Piece,
    targets: Seq<Position>,
    friendly: Seq<Position>,
)
    requires
        piece.position.on_board(),
        at(s.board, piece.position) == Some(piece),
        covers(friendly, s.board, piece.color),
        clear_of(targets, friendly),
        forall|i: int|
            0 <= i < targets.len() ==> !castles(
                s.board,
                #[trigger] plain_move(piece.position, targets[i]),
            ),
    ensures
        all_admissible(s, piece.position, targets),
{
    assert forall|i: int| 0 <= i < targets.len() implies admissible(
        s.board,
        s.en_passant,
        #[trigger] plain_move(piece.position, targets[i]),
    ) by {
        let m = plain_move(piece.position, targets[i]);
        assert(targets[i].on_board() && !friendly.contains(targets[i]));
        if holds_color(s.board, m.to, piece.color) {
            assert(friendly.contains(m.to));
        }
        lemma_plain_admissible(s.board, s.en_passant, m);
    }
}

/// Two lists of moves that can be played stay so when joined.
pub proof fn lemma_admissible_concat(s: BoardState, from: Position, a: Seq<Position>, b: Seq<Position>)
    requires
        all_admissible(s, from, a),
        all_admissible(s, from, b),
    ensures
        all_admissible(s, from, a + b),
{
    assert forall|i: int| 0 <= i < (a + b).len() implies admissible(
        s.board,
        s.en_passant,
        #[trigger] plain_move(from, (a + b)[i]),
    ) by {
        if i < a.len() {
            assert(plain_move(from, (a + b)[i]) == plain_move(from, a[i]));
        } else {
            assert(plain_move(from, (a + b)[i]) == plain_move(from, b[i - a.len()]));
        }
    }
}

/// Whether every square of `targets` is at most one file away from `p`.
pub open spec fn within_a_file(targets: Seq<Position>, p: Position) -> bool {
    forall|i: int|
        0 <= i < targets.len() ==> (#[trigger] targets[i]).x <= p.x + 1 && p.x <= targets[i].x + 1
}

/// A king's step changes its file by at most one.
pub proof fn lemma_king_steps_near(p: Position, friendly: Seq<Position>, n: nat)
    requires
        n <= 8,
        p.on_board(),
    ensures
        within_a_file(jumps(p, king_offsets(), friendly, n), p),
    decreases n,
{
    if n > 0 {
        lemma_king_steps_near(p, friendly, (n - 1) as nat);
        let rest = jumps(p, king_offsets(), friendly, (n - 1) as nat);
        let now = jumps(p, king_offsets(), friendly, n);
        let step = king_offsets()[n - 1];
        assert(-1 <= step.0 <= 1) by {
            assert(king_offsets().len() == 8);
            if n == 1 {
            } else if n == 2 {
            } else if n == 3 {
            } else if n == 4 {
            } else if n == 5 {
            } else if n == 6 {
            } else if n == 7 {
            } else {
            }
        }
        assert forall|i: int| 0 <= i < now.len() implies (#[trigger] now[i]).x <= p.x + 1 && p.x
            <= now[i].x + 1 by {
            if i < rest.len() {
                assert(now[i] == rest[i]);
            }
        }
    }
}

/// A castling move that the rules allow can be played.
pub proof fn lemma_castling_admissible(s: BoardState, c: Color, short: bool)
    requires
        can_castle(s, c, short),
    ensures
        admissible(s.board, s.en_passant, plain_move(home_square(c), castling_target(c, short))),
{
    let g = s.board;
    let m = plain_move(home_square(c), castling_target(c, short));
    let rook_from = rook_castling_squares(m.to).0;
    let rook_to = rook_castling_squares(m.to).1;
    assert(capture_in_passing(g, s.en_passant, m) is None);
    assert(castles(g, m));
    lemma_put(g, rook_from, None);
    lemma_put(put(g, rook_from, None), rook_to, Some(at(g, rook_from)->0.moved_to(rook_to)));
}

/// The castling moves that the rules allow can be played.
pub proof fn lemma_castling_moves_admissible(s: BoardState, c: Color)
    ensures
        all_admissible(s, home_square(c), castling_moves(s, c)),
{
    let short = if can_castle(s, c, true) {
        seq![castling_target(c, true)]
    } else {
        Seq::empty()
    };
    let long = if can_castle(s, c, false) {
        seq![castling_target(c, false)]
    } else {
        Seq::empty()
    };
    if can_castle(s, c, true) {
        lemma_castling_admissible(s, c, true);
    }
    if can_castle(s, c, false) {
        lemma_castling_admissible(s, c, false);
    }
    assert(all_admissible(s, home_square(c), short));
    assert(all_admissible(s, home_square(c), long));
    lemma_admissible_concat(s, home_square(c), short, long);
}

/// Every move that the rules of its kind give a piece can be played.
pub proof fn lemma_pseudo_admissible(
    s: BoardState,
    piece: Piece,
    friendly: Seq<Position>,
    opponent: Seq<Position>,
)
    requires
        piece.position.on_board(),
        at(s.board, piece.position) == Some(piece),
        covers(friendly, s.board, piece.color),
    ensures
        all_admissible(s, piece.position, pseudo_targets(s, piece, friendly, opponent)),
{
    let p = piece.position;
    match piece.kind {
        PieceKind::P => {
            lemma_pawn_moves_safe(
                p,
                piece.has_moved,
                friendly,
                opponent,
                piece.color.forward(),
                s.en_passant,
            );
            lemma_clear_admissible(s, piece, pseudo_targets(s, piece, friendly, opponent), friendly);
        },
        PieceKind::R => {
            lemma_slides_safe(p, rook_steps(), friendly, opponent, 4);
            lemma_clear_admissible(s, piece, pseudo_targets(s, piece, friendly, opponent), friendly);
        },
        PieceKind::N => {
            lemma_jumps_safe(p, knight_offsets(), friendly, 8);
            lemma_clear_admissible(s, piece, pseudo_targets(s, piece, friendly, opponent), friendly);
        },
        PieceKind::B => {
            lemma_slides_safe(p, bishop_steps(), friendly, opponent, 4);
            lemma_clear_admissible(s, piece, pseudo_targets(s, piece, friendly, opponent), friendly);
        },
        PieceKind::Q => {
            lemma_slides_safe(p, rook_steps(), friendly, opponent, 4);
            lemma_slides_safe(p, bishop_steps(), friendly, opponent, 4);
            lemma_clear_concat(
                rook_moves(p, friendly, opponent),
                bishop_moves(p, friendly, opponent),
                friendly,
            );
            lemma_clear_admissible(s, piece, pseudo_targets(s, piece, friendly, opponent), friendly);
        },
        PieceKind::K => {
            let steps = king_steps(p, friendly);
            lemma_jumps_safe(p, king_offsets(), friendly, 8);
            lemma_king_steps_near(p, friendly, 8);
            assert forall|i: int| 0 <= i < steps.len() implies !castles(
                s.board,
                #[trigger] plain_move(p, steps[i]),
            ) by {
                assert(steps[i].x <= p.x + 1 && p.x <= steps[i].x + 1);
            }
            lemma_clear_admissible(s, piece, steps, friendly);
            if p == home_square(piece.color) {
                lemma_castling_moves_admissible(s, piece.color);
                lemma_admissible_concat(s, p, castling_moves(s, piece.color), steps);
            } else {
                assert(Seq::<Position>::empty() + steps =~= steps);
            }
        },
    }
}

/// Whether the square (`x`, `y`) of the board is empty.
fn is_empty_square(board: &Board, x: usize, y: usize) -> (empty: bool)
    requires
        x < 8,
        y < 8,
    ensures
        empty == (at(board.board, Position { x, y }) is None),
{
    board.board[x][y].is_none()
}

/// Whether (`x`, `y`) holds a piece of colour `c` and kind `kind` that has
/// not moved.
fn is_unmoved(board: &Board, x: usize, y: usize, c: Color, kind: PieceKind) -> (found: bool)
    requires
        x < 8,
        y < 8,
    ensures
        found == unmoved(board.board, Position { x, y }, c, kind),
{
    match board.board[x][y] {
        Some(piece) => piece.color == c && piece.kind == kind && piece.position.x == x
            && piece.position.y == y && !piece.has_moved,
        None => false,
    }
}

/// The square the king of `color` castles to, if it may castle now: on the
/// king's side if `short`, on the queen's side otherwise.
pub fn get_castling_move(board: &Board, color: Color, short: bool) -> (target: Option<Position>)
    requires
        board@.wf(),
    ensures
        target == (if can_castle(board@, color, short) {
            Some(castling_target(color, short))
        } else {
            None
        }),
{
    let rights = board.castling_rights(color);
    let row: usize = match color {
        Color::White => 0,
        Color::Black => 7,
    };
    let has_right = if short {
        rights[0]
    } else {
        rights[1]
    };
    let rook_col: usize = if short {
        0
    } else {
        7
    };
    let pass_col: usize = if short {
        2
    } else {
        4
    };
    let target_col: usize = if short {
        1
    } else {
        5
    };
    if !has_right {
        return None;
    }
    if !is_unmoved(board, 3, row, color, PieceKind::K) || !is_unmoved(
        board,
        rook_col,
        row,
        color,
        PieceKind::R,
    ) {
        return None;
    }
    if !is_empty_square(board, pass_col, row) || !is_empty_square(board, target_col, row) {
        return None;
    }
    if !short && !is_empty_square(board, 6, row) {
        return None;
    }
    if is_square_attacked(&board.board, Position::new(3, row), color) {
        return None;
    }
    if is_square_attacked(&board.board, Position::new(pass_col, row), color) {
        return None;
    }
    if is_square_attacked(&board.board, Position::new(target_col, row), color) {
        return None;
    }
    Some(Position::new(target_col, row))
}

/// The moves of the king on `position`, the legality filter aside.
pub fn get_king_moves(position: &Position, board: &Board, friendly_positions: &[Position]) -> (moves:
    Vec<Position>)
    requires
        position.on_board(),
        board@.wf(),
    ensures
        moves@ == king_moves(board@, *position, friendly_positions@),
{
    let mut moves: Vec<Position> = Vec::new();
    if let Some(piece) = board.board[position.x][position.y] {
        let row: usize = match piece.color {
            Color::White => 0,
            Color::Black => 7,
        };
        if piece.kind == PieceKind::K && position.x == 3 && position.y == row {
            if let Some(castling_move) = get_castling_move(board, piece.color, true) {
                moves.push(castling_move);
            }
            if let Some(castling_move) = get_castling_move(board, piece.color, false) {
                moves.push(castling_move);
            }
            proof {
                assert(moves@ =~= castling_moves(board@, piece.color));
            }
        }
    }
    let mut steps = get_king_steps(position, friendly_positions);
    moves.append(&mut steps);
    moves
}

/// Keeps those of `to_positions` to which `piece`, which stands on
/// `from_position`, can go without leaving its own king attacked.
pub fn filter_check_moves(
    from_position: Position,
    to_positions: Vec<Position>,
    board: &Board,
    piece: Piece,
) -> (filtered_moves: Vec<Position>)
    requires
        board@.wf(),
        from_position.on_board(),
        at(board.board, from_position) == Some(piece),
        all_admissible(board@, from_position, to_positions@),
    ensures
        filtered_moves@ == safe_targets(
            board@,
            from_position,
            to_positions@,
            to_positions.len() as nat,
        ),
{
    let mut filtered_moves: Vec<Position> = Vec::new();
    let own_king = board.king_position(piece.color);
    let mut i: usize = 0;
    while i < to_positions.len()
        invariant
            i <= to_positions.len(),
            board@.wf(),
            from_position.on_board(),
            own_king == board@.king_of(piece.color),
            own_king.on_board(),
            at(board.board, from_position) == Some(piece),
            all_admissible(board@, from_position, to_positions@),
            filtered_moves@ == safe_targets(board@, from_position, to_positions@, i as nat),
        decreases to_positions.len() - i,
    {
        let to_position = to_positions[i];
        let candidate = Move::new(from_position, to_position);
        assert(candidate == plain_move(from_position, to_positions@[i as int]));
        let mut temp_board = board.board;
        play_on_grid(&mut temp_board, &board.en_passant, candidate);
        let king_position = if piece.kind == PieceKind::K {
            to_position
        } else {
            own_king
        };
        let is_check = is_square_attacked(&temp_board, king_position, piece.color);
        if !is_check {
            filtered_moves.push(to_position);
        }
        i += 1;
    }
    filtered_moves
}

impl Piece {
    /// The legal moves of this piece, which stands on `board`.
    /// `friendly_positions` lists the squares of its own colour and
    /// `opponent_positions` those of the other.
    pub fn get_piece_moves(
        &self,
        friendly_positions: &[Position],
        opponent_positions: &[Position],
        board: &Board,
    ) -> (moves: Vec<Position>)
        requires
            board@.wf(),
            self.position.on_board(),
            at(board.board, self.position) == Some(*self),
            covers(friendly_positions@, board.board, self.color),
        ensures
            moves@ == legal_targets(board@, *self, friendly_positions@, opponent_positions@),
    {
        let all_moves = match self.kind {
            PieceKind::P => get_pawn_moves(
                &self.position,
                &self.has_moved,
                friendly_positions,
                opponent_positions,
                match self.color {
                    Color::White => 1,
                    Color::Black => -1,
                },
                &board.en_passant,
            ),
            PieceKind::R => get_rook_moves(&self.position, friendly_positions, opponent_positions),
            PieceKind::N => get_knight_moves(&self.position, friendly_positions),
            PieceKind::B => get_bishop_moves(
                &self.position,
                friendly_positions,
                opponent_positions,
            ),
            PieceKind::Q => get_queen_moves(&self.position, friendly_positions, opponent_positions),
            PieceKind::K => get_king_moves(&self.position, board, friendly_positions),
        };
        proof {
            lemma_pseudo_admissible(board@, *self, friendly_positions@, opponent_positions@);
        }
        filter_check_moves(self.position, all_moves, board, *self)
    }
}

/// The moves from `from` to each of `targets`, in the same order.
pub open spec fn as_moves(from: Position, targets: Seq<Position>) -> Seq<Move> {
    Seq::new(targets.len(), |i: int| plain_move(from, targets[i]))
}

/// The legal moves of the first `n` pieces of colour `c`, piece by piece in
/// the order in which the board is walked.
pub open spec fn moves_upto(s: BoardState, c: Color, n: nat) -> Seq<Move>
    decreases n,
{
    if n == 0 {
        Seq::empty()
    } else {
        let piece = pieces_of(s.board, c)[n - 1];
        moves_upto(s, c, (n - 1) as nat) + as_moves(
            piece.position,
            legal_targets(s, piece, squares_of(s.board, c), squares_of(s.board, c.other())),
        )
    }
}

/// All legal moves of colour `c`.
pub open spec fn all_moves(s: BoardState, c: Color) -> Seq<Move> {
    moves_upto(s, c, pieces_of(s.board, c).len())
}

/// The legal moves of the side to move.
pub open spec fn legal_moves(s: BoardState) -> Seq<Move> {
    all_moves(s, s.turn)
}

/// The legal moves of the piece on `from`, if it belongs to the side to
/// move, and no moves otherwise.
pub open spec fn moves_from(s: BoardState, from: Position) -> Seq<Move> {
    if holds_color(s.board, from, s.turn) {
        as_moves(
            from,
            legal_targets(
                s,
                at(s.board, from)->0,
                squares_of(s.board, s.turn),
                squares_of(s.board, s.turn.other()),
            ),
        )
    } else {
        Seq::empty()
    }
}

/// Whether the king of colour `c` is attacked.
pub open spec fn in_check(s: BoardState, c: Color) -> bool {
    attacked(s.board, s.king_of(c), c)
}

/// Every kept target is one of the targets, and leaves the king safe.
pub proof fn lemma_safe_targets(s: BoardState, from: Position, targets: Seq<Position>, n: nat)
    requires
        n <= targets.len(),
    ensures
        forall|i: int|
            0 <= i < safe_targets(s, from, targets, n).len() ==> {
                let t = #[trigger] safe_targets(s, from, targets, n)[i];
                leaves_king_safe(s, plain_move(from, t)) && exists|j: int|
                    0 <= j < n && targets[j] == t
            },
    decreases n,
{
    if n > 0 {
        lemma_safe_targets(s, from, targets, (n - 1) as nat);
        let rest = safe_targets(s, from, targets, (n - 1) as nat);
        let now = safe_targets(s, from, targets, n);
        assert forall|i: int| 0 <= i < now.len() implies {
            let t = #[trigger] now[i];
            leaves_king_safe(s, plain_move(from, t)) && exists|j: int|
                0 <= j < n && targets[j] == t
        } by {
            if i < rest.len() {
                assert(now[i] == rest[i]);
                let j = choose|j: int| 0 <= j < n - 1 && targets[j] == rest[i];
                assert(targets[j] == now[i]);
            } else {
                assert(targets[n - 1] == now[i]);
            }
        }
    }
}

/// What holds of every legal move of colour `c`: it starts on a square of
/// the board that holds a piece of colour `c`, it follows the rules of that
/// piece's kind, it can be played, and it does not leave the king of `c`
/// attacked.
pub open spec fn is_legal(s: BoardState, c: Color, m: Move) -> bool {
    &&& m.promotion is None
    &&& m.from.on_board()
    &&& holds_color(s.board, m.from, c)
    &&& pseudo_targets(
        s,
        at(s.board, m.from)->0,
        squares_of(s.board, c),
        squares_of(s.board, c.other()),
    ).contains(m.to)
    &&& admissible(s.board, s.en_passant, m)
    &&& leaves_king_safe(s, m)
}

/// Every move listed for the first `n` pieces of a colour is legal.
pub proof fn lemma_moves_upto_legal(s: BoardState, c: Color, n: nat)
    requires
        s.wf(),
        n <= pieces_of(s.board, c).len(),
    ensures
        forall|i: int|
            0 <= i < moves_upto(s, c, n).len() ==> is_legal(s, c, #[trigger] moves_upto(s, c, n)[i]),
    decreases n,
{
    if n > 0 {
        lemma_moves_upto_legal(s, c, (n - 1) as nat);
        lemma_pieces_upto(s.board, c, 64);
        lemma_squares_of(s.board, c);
        let piece = pieces_of(s.board, c)[n - 1];
        let friendly = squares_of(s.board, c);
        let opponent = squares_of(s.board, c.other());
        let pseudo = pseudo_targets(s, piece, friendly, opponent);
        let legal = legal_targets(s, piece, friendly, opponent);
        let before = moves_upto(s, c, (n - 1) as nat);
        let now = moves_upto(s, c, n);
        assert(piece.color == c && piece.position.on_board() && at(s.board, piece.position)
            == Some(piece));
        assert(covers(friendly, s.board, c)) by {
            assert forall|p: Position| p.on_board() && #[trigger] holds_color(
                s.board,
                p,
                c,
            ) implies friendly.contains(p) by {
                assert(squares_of(s.board, c).contains(p));
            }
        }
        lemma_pseudo_admissible(s, piece, friendly, opponent);
        lemma_safe_targets(s, piece.position, pseudo, pseudo.len());
        assert forall|i: int| 0 <= i < now.len() implies is_legal(s, c, #[trigger] now[i]) by {
            if i < before.len() {
                assert(now[i] == before[i]);
            } else {
                let k = i - before.len();
                let t = legal[k];
                assert(now[i] == plain_move(piece.position, t));
                let j = choose|j: int| 0 <= j < pseudo.len() && pseudo[j] == t;
                assert(admissible(s.board, s.en_passant, plain_move(piece.position, pseudo[j])));
                assert(pseudo.contains(t));
            }
        }
    }
}

/// Every legal move of a colour starts on one of its pieces, can be played
/// and does not leave its king attacked.
pub proof fn lemma_all_moves_legal(s: BoardState, c: Color)
    requires
        s.wf(),
    ensures
        forall|i: int|
            0 <= i < all_moves(s, c).len() ==> is_legal(s, c, #[trigger] all_moves(s, c)[i]),
{
    lemma_moves_upto_legal(s, c, pieces_of(s.board, c).len());
}

/// A legal move of the side to move starts on one of its pieces, follows the
/// rules of that piece, can be played and does not leave the own king attacked.
pub proof fn lemma_legal_move(s: BoardState, m: Move)
    requires
        s.wf(),
        legal_moves(s).contains(m),
    ensures
        is_legal(s, s.turn, m),
        admissible(s.board, s.en_passant, m),
{
    lemma_all_moves_legal(s, s.turn);
    let i = choose|i: int| 0 <= i < legal_moves(s).len() && legal_moves(s)[i] == m;
    assert(is_legal(s, s.turn, legal_moves(s)[i]));
}

/// The list of moves grows with the number of pieces considered.
pub proof fn lemma_moves_upto_grows(s: BoardState, c: Color, n: nat, m: nat)
    requires
        n <= m,
    ensures
        moves_upto(s, c, n).len() <= moves_upto(s, c, m).len(),
    decreases m,
{
    if n < m {
        lemma_moves_upto_grows(s, c, n, (m - 1) as nat);
    }
}

impl Board {
    /// All legal moves of `color`, piece by piece in the order in which the
    /// board is walked.
    pub fn get_all_moves_of_color(&self, color: Color) -> (all_moves: Vec<Move>)
        requires
            self@.wf(),
        ensures
            all_moves@ == crate::legal::all_moves(self@, color),
    {
        let all_pieces = self.get_pieces();
        let all_positions = self.get_all_positions();
        let (color_index, opponent_index): (usize, usize) = match color {
            Color::White => (0, 1),
            Color::Black => (1, 0),
        };
        let color_pieces = &all_pieces[color_index];
        let friendly_positions = &all_positions[color_index];
        let opponent_positions = &all_positions[opponent_index];
        proof {
            lemma_pieces_upto(self.board, color, 64);
            lemma_squares_of(self.board, color);
            assert forall|p: Position| p.on_board() && #[trigger] holds_color(
                self.board,
                p,
                color,
            ) implies friendly_positions@.contains(p) by {
                assert(squares_of(self.board, color).contains(p));
            }
        }

        let mut all_moves: Vec<Move> = Vec::new();
        let mut i: usize = 0;
        while i < color_pieces.len()
            invariant
                i <= color_pieces.len(),
                self@.wf(),
                color_pieces@ == pieces_of(self.board, color),
                friendly_positions@ == squares_of(self.board, color),
                opponent_positions@ == squares_of(self.board, color.other()),
                covers(friendly_positions@, self.board, color),
                forall|k: int|
                    0 <= k < color_pieces.len() ==> {
                        let piece = #[trigger] color_pieces[k];
                        piece.color == color && piece.position.on_board() && at(
                            self.board,
                            piece.position,
                        ) == Some(piece)
                    },
                all_moves@ == moves_upto(self@, color, i as nat),
            decreases color_pieces.len() - i,
        {
            let piece = color_pieces[i];
            let piece_moves = piece.get_piece_moves(
                friendly_positions.as_slice(),
                opponent_positions.as_slice(),
                self,
            );
            let ghost before = all_moves@;
            let mut j: usize = 0;
            while j < piece_moves.len()
                invariant
                    j <= piece_moves.len(),
                    all_moves@ == before + as_moves(piece.position, piece_moves@).take(j as int),
                decreases piece_moves.len() - j,
            {
                all_moves.push(Move::new(piece.position, piece_moves[j]));
                j += 1;
                proof {
                    assert(all_moves@ =~= before + as_moves(piece.position, piece_moves@).take(
                        j as int,
                    ));
                }
            }
            proof {
                assert(as_moves(piece.position, piece_moves@).take(j as int) =~= as_moves(
                    piece.position,
                    piece_moves@,
                ));
            }
            i += 1;
        }
        all_moves
    }

    /// Whether the side to move has no legal move.
    pub fn no_possible_moves(&self) -> (none: bool)
        requires
            self@.wf(),
        ensures
            none == (legal_moves(self@).len() == 0),
    {
        let all_pieces = self.get_pieces();
        let all_positions = self.get_all_positions();
        let (color_index, opponent_index): (usize, usize) = match self.turn {
            Color::White => (0, 1),
            Color::Black => (1, 0),
        };
        let friendly_pieces = &all_pieces[color_index];
        let friendly_positions = &all_positions[color_index];
        let opponent_positions = &all_positions[opponent_index];
        proof {
            lemma_pieces_upto(self.board, self.turn, 64);
            lemma_squares_of(self.board, self.turn);
            assert forall|p: Position| p.on_board() && #[trigger] holds_color(
                self.board,
                p,
                self.turn,
            ) implies friendly_positions@.contains(p) by {
                assert(squares_of(self.board, self.turn).contains(p));
            }
        }
        let mut i: usize = 0;
        while i < friendly_pieces.len()
            invariant
                i <= friendly_pieces.len(),
                self@.wf(),
                friendly_pieces@ == pieces_of(self.board, self.turn),
                friendly_positions@ == squares_of(self.board, self.turn),
                opponent_positions@ == squares_of(self.board, self.turn.other()),
                covers(friendly_positions@, self.board, self.turn),
                forall|k: int|
                    0 <= k < friendly_pieces.len() ==> {
                        let piece = #[trigger] friendly_pieces[k];
                        piece.color == self.turn && piece.position.on_board() && at(
                            self.board,
                            piece.position,
                        ) == Some(piece)
                    },
                moves_upto(self@, self.turn, i as nat).len() == 0,
            decreases friendly_pieces.len() - i,
        {
            let piece = friendly_pieces[i];
            let moves = piece.get_piece_moves(
                friendly_positions.as_slice(),
                opponent_positions.as_slice(),
                self,
            );
            if !moves.is_empty() {
                proof {
                    assert(moves_upto(self@, self.turn, (i + 1) as nat).len() > 0);
                    lemma_moves_upto_grows(
                        self@,
                        self.turn,
                        (i + 1) as nat,
                        friendly_pieces.len() as nat,
                    );
                }
                return false;
            }
            i += 1;
        }
        true
    }

    /// Whether the king of `color` is attacked.
    pub fn is_king_in_check(&self, color: &Color) -> (check: bool)
        requires
            self@.wf(),
        ensures
            check == in_check(self@, *color),
    {
        is_square_attacked(&self.board, self.king_position(*color), *color)
    }

    /// The legal moves of the piece on `from`, if it belongs to the side to
    /// move; no moves otherwise.
    pub fn legal_moves_from(&self, from: Position) -> (moves: Vec<Move>)
        requires
            self@.wf(),
            from.on_board(),
        ensures
            moves@ == moves_from(self@, from),
    {
        let mut moves: Vec<Move> = Vec::new();
        if let Some(piece) = self.board[from.x][from.y] {
            if piece.color == self.turn {
                let all_positions = self.get_all_positions();
                let (color_index, opponent_index): (usize, usize) = match self.turn {
                    Color::White => (0, 1),
                    Color::Black => (1, 0),
                };
                proof {
                    assert(at(self.board, from) == Some(piece));
                    assert(piece.position == from);
                    lemma_squares_of(self.board, self.turn);
                    assert forall|p: Position| p.on_board() && #[trigger] holds_color(
                        self.board,
                        p,
                        self.turn,
                    ) implies all_positions[color_index as int]@.contains(p) by {
                        assert(squares_of(self.board, self.turn).contains(p));
                    }
                }
                let targets = piece.get_piece_moves(
                    all_positions[color_index].as_slice(),
                    all_positions[opponent_index].as_slice(),
                    self,
                );
                let mut j: usize = 0;
                while j < targets.len()
                    invariant
                        j <= targets.len(),
                        moves@ == as_moves(from, targets@).take(j as int),
                    decreases targets.len() - j,
                {
                    moves.push(Move::new(from, targets[j]));
                    j += 1;
                    proof {
                        assert(moves@ =~= as_moves(from, targets@).take(j as int));
                    }
                }
                proof {
                    assert(as_moves(from, targets@).take(j as int) =~= as_moves(from, targets@));
                }
            }
        }
        moves
    }

    /// Whether this is a position as it arises in play: see [`sound`].
    pub fn is_sound(&self) -> (ok: bool)
        ensures
            ok == sound(self@),
    {
        if !self.is_well_formed() {
            return false;
        }
        let white = locate_king(&self.board, Color::White);
        let black = locate_king(&self.board, Color::Black);
        let kings_recorded = match (white, black) {
            (Some(white_king), Some(black_king)) => white_king == self.king_position(Color::White)
                && black_king == self.king_position(Color::Black),
            _ => false,
        };
        proof {
            assert(self@.king_ok(Color::White) <==> white == Some(self@.king_of(Color::White)));
            assert(self@.king_ok(Color::Black) <==> black == Some(self@.king_of(Color::Black)));
        }
        kings_recorded && !self.is_king_in_check(&self.turn.opponent())
    }
}

} // verus!
