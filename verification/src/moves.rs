//! Move rules of each piece kind, on lists of occupied squares.
use vstd::prelude::*;
use crate::helpers::{Direction, Position, shift};

verus! {

/// Whether `list` holds `p`.
pub fn contains_position(list: &[Position], p: Position) -> (found: bool)
    ensures
        found == list@.contains(p),
{
    let mut i: usize = 0;
    while i < list.len()
        invariant
            i <= list.len(),
            forall|j: int| 0 <= j < i ==> list@[j] != p,
        decreases list.len() - i,
    {
        if list[i] == p {
            return true;
        }
        i += 1;
    }
    false
}

/// The four diagonal steps, in the order in which bishop moves are listed.
pub open spec fn bishop_steps() -> Seq<Direction> {
    seq![
        Direction { x: 1, y: 1 },
        Direction { x: 1, y: -1i32 },
        Direction { x: -1i32, y: 1 },
        Direction { x: -1i32, y: -1i32 },
    ]
}

/// The four straight steps, in the order in which rook moves are listed.
pub open spec fn rook_steps() -> Seq<Direction> {
    seq![
        Direction { x: 0, y: 1 },
        Direction { x: 0, y: -1i32 },
        Direction { x: -1i32, y: 0 },
        Direction { x: 1, y: 0 },
    ]
}

pub fn bishop_directions() -> (dirs: Vec<Direction>)
    ensures
        dirs@ == bishop_steps(),
{
    let mut dirs: Vec<Direction> = Vec::new();
    dirs.push(Direction::new(1, 1));
    dirs.push(Direction::new(1, -1));
    dirs.push(Direction::new(-1, 1));
    dirs.push(Direction::new(-1, -1));
    proof {
        assert(dirs@ =~= bishop_steps());
    }
    dirs
}

pub fn rook_directions() -> (dirs: Vec<Direction>)
    ensures
        dirs@ == rook_steps(),
{
    let mut dirs: Vec<Direction> = Vec::new();
    dirs.push(Direction::new(0, 1));
    dirs.push(Direction::new(0, -1));
    dirs.push(Direction::new(-1, 0));
    dirs.push(Direction::new(1, 0));
    proof {
        assert(dirs@ =~= rook_steps());
    }
    dirs
}

/// The squares a slider reaches beyond (`x`, `y`) in direction `d` within
/// `left` steps: it stops before the first friendly square, on the first
/// opponent square, and at the edge of the board.
pub open spec fn ray_from(
    x: int,
    y: int,
    d: Direction,
    friendly: Seq<Position>,
    opponent: Seq<Position>,
    left: nat,
) -> Seq<Position>
    decreases left,
{
    if left == 0 {
        Seq::empty()
    } else {
        match Position::valid_position(x + d.x, y + d.y) {
            None => Seq::empty(),
            Some(q) => if friendly.contains(q) {
                Seq::empty()
            } else if opponent.contains(q) {
                seq![q]
            } else {
                seq![q] + ray_from(x + d.x, y + d.y, d, friendly, opponent, (left - 1) as nat)
            },
        }
    }
}

/// The squares a slider on `p` reaches in direction `d`, nearest first.
pub open spec fn ray(
    p: Position,
    d: Direction,
    friendly: Seq<Position>,
    opponent: Seq<Position>,
) -> Seq<Position> {
    ray_from(p.x as int, p.y as int, d, friendly, opponent, 7)
}

/// The rays of the first `n` directions, one after the other.
pub open spec fn slides(
    p: Position,
    dirs: Seq<Direction>,
    friendly: Seq<Position>,
    opponent: Seq<Position>,
    n: nat,
) -> Seq<Position>
    decreases n,
{
    if n == 0 {
        Seq::empty()
    } else {
        slides(p, dirs, friendly, opponent, (n - 1) as nat) + ray(
            p,
            dirs[n - 1],
            friendly,
            opponent,
        )
    }
}

pub open spec fn rook_moves(
    p: Position,
    friendly: Seq<Position>,
    opponent: Seq<Position>,
) -> Seq<Position> {
    slides(p, rook_steps(), friendly, opponent, 4)
}

pub open spec fn bishop_moves(
    p: Position,
    friendly: Seq<Position>,
    opponent: Seq<Position>,
) -> Seq<Position> {
    slides(p, bishop_steps(), friendly, opponent, 4)
}

/// Rook moves, then bishop moves.
pub open spec fn queen_moves(
    p: Position,
    friendly: Seq<Position>,
    opponent: Seq<Position>,
) -> Seq<Position> {
    rook_moves(p, friendly, opponent) + bishop_moves(p, friendly, opponent)
}

/// Whether every square of `targets` is on the board and not friendly.
pub open spec fn clear_of(targets: Seq<Position>, friendly: Seq<Position>) -> bool {
    forall|i: int|
        0 <= i < targets.len() ==> (#[trigger] targets[i]).on_board() && !friendly.contains(
            targets[i],
        )
}

/// Two lists that are clear of friendly squares stay so when joined.
pub proof fn lemma_clear_concat(a: Seq<Position>, b: Seq<Position>, friendly: Seq<Position>)
    requires
        clear_of(a, friendly),
        clear_of(b, friendly),
    ensures
        clear_of(a + b, friendly),
{
    assert forall|i: int| 0 <= i < (a + b).len() implies (#[trigger] (a + b)[i]).on_board()
        && !friendly.contains((a + b)[i]) by {
        if i < a.len() {
            assert((a + b)[i] == a[i]);
        } else {
            assert((a + b)[i] == b[i - a.len()]);
        }
    }
}

/// Every square of a ray is on the board and not friendly.
pub proof fn lemma_ray_from_safe(
    x: int,
    y: int,
    d: Direction,
    friendly: Seq<Position>,
    opponent: Seq<Position>,
    left: nat,
)
    ensures
        clear_of(ray_from(x, y, d, friendly, opponent, left), friendly),
    decreases left,
{
    if left > 0 {
        match Position::valid_position(x + d.x, y + d.y) {
            None => {},
            Some(q) => {
                if !friendly.contains(q) && !opponent.contains(q) {
                    lemma_ray_from_safe(
                        x + d.x,
                        y + d.y,
                        d,
                        friendly,
                        opponent,
                        (left - 1) as nat,
                    );
                    lemma_clear_concat(
                        seq![q],
                        ray_from(x + d.x, y + d.y, d, friendly, opponent, (left - 1) as nat),
                        friendly,
                    );
                }
            },
        }
    }
}

/// Every square of the first `n` rays is on the board and not friendly.
pub proof fn lemma_slides_safe(
    p: Position,
    dirs: Seq<Direction>,
    friendly: Seq<Position>,
    opponent: Seq<Position>,
    n: nat,
)
    requires
        n <= dirs.len(),
    ensures
        clear_of(slides(p, dirs, friendly, opponent, n), friendly),
    decreases n,
{
    if n > 0 {
        lemma_slides_safe(p, dirs, friendly, opponent, (n - 1) as nat);
        lemma_ray_from_safe(p.x as int, p.y as int, dirs[n - 1], friendly, opponent, 7);
        lemma_clear_concat(
            slides(p, dirs, friendly, opponent, (n - 1) as nat),
            ray(p, dirs[n - 1], friendly, opponent),
            friendly,
        );
    }
}

/// The squares that a slider on `piece_position` reaches, one list for each
/// direction in turn, nearest square first.
pub fn get_straight_moves(
    directions: Vec<Direction>,
    piece_position: &Position,
    friendly_positions: &[Position],
    opponent_positions: &[Position],
) -> (allowed_moves: Vec<Vec<Position>>)
    requires
        piece_position.on_board(),
        forall|i: int| 0 <= i < directions.len() ==> (#[trigger] directions[i]).is_unit(),
    ensures
        allowed_moves.len() == directions.len(),
        forall|i: int|
            0 <= i < directions.len() ==> (#[trigger] allowed_moves[i])@ == ray(
                *piece_position,
                directions[i],
                friendly_positions@,
                opponent_positions@,
            ),
{
    let mut allowed_moves: Vec<Vec<Position>> = Vec::new();
    let (current_x, current_y) = piece_position.get_x_y_as_int();
    let mut k: usize = 0;
    while k < directions.len()
        invariant
            k <= directions.len(),
            piece_position.on_board(),
            current_x == piece_position.x,
            current_y == piece_position.y,
            forall|i: int| 0 <= i < directions.len() ==> (#[trigger] directions[i]).is_unit(),
            allowed_moves.len() == k,
            forall|i: int|
                0 <= i < k ==> (#[trigger] allowed_moves[i])@ == ray(
                    *piece_position,
                    directions[i],
                    friendly_positions@,
                    opponent_positions@,
                ),
        decreases directions.len() - k,
    {
        let direction = directions[k];
        let mut moves_in_one_direction: Vec<Position> = Vec::new();
        let mut x: i32 = current_x;
        let mut y: i32 = current_y;
        let mut step: u8 = 0;
        let mut blocked = false;
        while step < 7 && !blocked
            invariant
                step <= 7,
                0 <= x < 8,
                0 <= y < 8,
                direction.is_unit(),
                ray(*piece_position, direction, friendly_positions@, opponent_positions@)
                    == moves_in_one_direction@ + (if blocked {
                    Seq::<Position>::empty()
                } else {
                    ray_from(
                        x as int,
                        y as int,
                        direction,
                        friendly_positions@,
                        opponent_positions@,
                        (7 - step) as nat,
                    )
                }),
            decreases 7 - step + (if blocked { 0int } else { 1int }),
        {
            let ghost before = moves_in_one_direction@;
            match Position::get_valid_position(x + direction.x, y + direction.y) {
                None => {
                    blocked = true;
                },
                Some(position) => {
                    if contains_position(friendly_positions, position) {
                        blocked = true;
                    } else if contains_position(opponent_positions, position) {
                        moves_in_one_direction.push(position);
                        blocked = true;
                    } else {
                        moves_in_one_direction.push(position);
                        x = x + direction.x;
                        y = y + direction.y;
                        step = step + 1;
                        proof {
                            let rest = ray_from(
                                x as int,
                                y as int,
                                direction,
                                friendly_positions@,
                                opponent_positions@,
                                (7 - step) as nat,
                            );
                            assert(before + (seq![position] + rest) =~= before.push(position)
                                + rest);
                        }
                    }
                },
            }
            proof {
                if blocked {
                    assert(moves_in_one_direction@ + Seq::<Position>::empty()
                        =~= moves_in_one_direction@);
                    assert(before + seq![moves_in_one_direction@.last()] =~= before.push(
                        moves_in_one_direction@.last(),
                    ));
                    assert(before + Seq::<Position>::empty() =~= before);
                }
            }
        }
        proof {
            assert(moves_in_one_direction@ + Seq::<Position>::empty()
                =~= moves_in_one_direction@);
        }
        allowed_moves.push(moves_in_one_direction);
        k += 1;
    }
    allowed_moves
}

/// Lists the squares of `rays` one direction after the other.
fn join_rays(
    rays: Vec<Vec<Position>>,
    Ghost(p): Ghost<Position>,
    Ghost(dirs): Ghost<Seq<Direction>>,
    Ghost(friendly): Ghost<Seq<Position>>,
    Ghost(opponent): Ghost<Seq<Position>>,
) -> (moves: Vec<Position>)
    requires
        rays.len() == dirs.len(),
        forall|i: int|
            0 <= i < dirs.len() ==> (#[trigger] rays[i])@ == ray(p, dirs[i], friendly, opponent),
    ensures
        moves@ == slides(p, dirs, friendly, opponent, dirs.len()),
{
    let mut moves: Vec<Position> = Vec::new();
    let mut i: usize = 0;
    while i < rays.len()
        invariant
            i <= rays.len(),
            rays.len() == dirs.len(),
            forall|k: int|
                0 <= k < dirs.len() ==> (#[trigger] rays[k])@ == ray(
                    p,
                    dirs[k],
                    friendly,
                    opponent,
                ),
            moves@ == slides(p, dirs, friendly, opponent, i as nat),
        decreases rays.len() - i,
    {
        let ghost before = moves@;
        let mut j: usize = 0;
        while j < rays[i].len()
            invariant
                i < rays.len(),
                j <= rays[i as int].len(),
                moves@ == before + rays[i as int]@.take(j as int),
            decreases rays[i as int].len() - j,
        {
            moves.push(rays[i][j]);
            j += 1;
            proof {
                assert(moves@ =~= before + rays[i as int]@.take(j as int));
            }
        }
        proof {
            assert(rays[i as int]@.take(j as int) =~= rays[i as int]@);
        }
        i += 1;
    }
    moves
}

pub fn get_rook_moves(
    piece_position: &Position,
    friendly_positions: &[Position],
    opponent_positions: &[Position],
) -> (moves: Vec<Position>)
    requires
        piece_position.on_board(),
    ensures
        moves@ == rook_moves(*piece_position, friendly_positions@, opponent_positions@),
{
    let rays = get_straight_moves(
        rook_directions(),
        piece_position,
        friendly_positions,
        opponent_positions,
    );
    join_rays(
        rays,
        Ghost(*piece_position),
        Ghost(rook_steps()),
        Ghost(friendly_positions@),
        Ghost(opponent_positions@),
    )
}

pub fn get_bishop_moves(
    piece_position: &Position,
    friendly_positions: &[Position],
    opponent_positions: &[Position],
) -> (moves: Vec<Position>)
    requires
        piece_position.on_board(),
    ensures
        moves@ == bishop_moves(*piece_position, friendly_positions@, opponent_positions@),
{
    let rays = get_straight_moves(
        bishop_directions(),
        piece_position,
        friendly_positions,
        opponent_positions,
    );
    join_rays(
        rays,
        Ghost(*piece_position),
        Ghost(bishop_steps()),
        Ghost(friendly_positions@),
        Ghost(opponent_positions@),
    )
}

pub fn get_queen_moves(
    piece_position: &Position,
    friendly_positions: &[Position],
    opponent_positions: &[Position],
) -> (moves: Vec<Position>)
    requires
        piece_position.on_board(),
    ensures
        moves@ == queen_moves(*piece_position, friendly_positions@, opponent_positions@),
{
    let mut moves = get_rook_moves(piece_position, friendly_positions, opponent_positions);
    let mut diagonal = get_bishop_moves(piece_position, friendly_positions, opponent_positions);
    moves.append(&mut diagonal);
    moves
}

/// The eight knight jumps, in the order in which knight moves are listed.
pub open spec fn knight_offsets() -> Seq<(int, int)> {
    seq![(-2, -1), (-2, 1), (2, -1), (2, 1), (-1, -2), (1, -2), (-1, 2), (1, 2)]
}

/// The eight steps to a neighbouring square, in the order in which king moves
/// are listed.
pub open spec fn king_offsets() -> Seq<(int, int)> {
    seq![(0, 1), (0, -1), (1, 0), (-1, 0), (1, 1), (1, -1), (-1, 1), (-1, -1)]
}

/// The squares reached from `p` by the first `n` of `offsets` that are on the
/// board and not friendly, in the order of the offsets.
pub open spec fn jumps(
    p: Position,
    offsets: Seq<(int, int)>,
    friendly: Seq<Position>,
    n: nat,
) -> Seq<Position>
    decreases n,
{
    if n == 0 {
        Seq::empty()
    } else {
        let rest = jumps(p, offsets, friendly, (n - 1) as nat);
        match shift(p, offsets[n - 1].0, offsets[n - 1].1) {
            Some(q) => if friendly.contains(q) {
                rest
            } else {
                rest.push(q)
            },
            None => rest,
        }
    }
}

pub open spec fn knight_moves(p: Position, friendly: Seq<Position>) -> Seq<Position> {
    jumps(p, knight_offsets(), friendly, 8)
}

/// The neighbouring squares a king on `p` may step to, castling aside.
pub open spec fn king_steps(p: Position, friendly: Seq<Position>) -> Seq<Position> {
    jumps(p, king_offsets(), friendly, 8)
}

/// Every square reached by a jump is on the board and not friendly.
pub proof fn lemma_jumps_safe(
    p: Position,
    offsets: Seq<(int, int)>,
    friendly: Seq<Position>,
    n: nat,
)
    ensures
        clear_of(jumps(p, offsets, friendly, n), friendly),
    decreases n,
{
    if n > 0 {
        lemma_jumps_safe(p, offsets, friendly, (n - 1) as nat);
    }
}

/// The `i`-th knight jump.
pub fn knight_offset(i: usize) -> (d: (i32, i32))
    requires
        i < 8,
    ensures
        (d.0 as int, d.1 as int) == knight_offsets()[i as int],
        -2 <= d.0 <= 2,
        -2 <= d.1 <= 2,
{
    if i == 0 {
        (-2, -1)
    } else if i == 1 {
        (-2, 1)
    } else if i == 2 {
        (2, -1)
    } else if i == 3 {
        (2, 1)
    } else if i == 4 {
        (-1, -2)
    } else if i == 5 {
        (1, -2)
    } else if i == 6 {
        (-1, 2)
    } else {
        (1, 2)
    }
}

/// The `i`-th step of a king.
pub fn king_offset(i: usize) -> (d: (i32, i32))
    requires
        i < 8,
    ensures
        (d.0 as int, d.1 as int) == king_offsets()[i as int],
        -1 <= d.0 <= 1,
        -1 <= d.1 <= 1,
{
    if i == 0 {
        (0, 1)
    } else if i == 1 {
        (0, -1)
    } else if i == 2 {
        (1, 0)
    } else if i == 3 {
        (-1, 0)
    } else if i == 4 {
        (1, 1)
    } else if i == 5 {
        (1, -1)
    } else if i == 6 {
        (-1, 1)
    } else {
        (-1, -1)
    }
}

/// The squares a knight on `piece_position` may jump to.
pub fn get_knight_moves(piece_position: &Position, friendly_positions: &[Position]) -> (moves:
    Vec<Position>)
    requires
        piece_position.on_board(),
    ensures
        moves@ == knight_moves(*piece_position, friendly_positions@),
{
    let (x, y) = piece_position.get_x_y_as_int();
    let mut moves: Vec<Position> = Vec::new();
    let mut i: usize = 0;
    while i < 8
        invariant
            i <= 8,
            x == piece_position.x,
            y == piece_position.y,
            piece_position.on_board(),
            moves@ == jumps(*piece_position, knight_offsets(), friendly_positions@, i as nat),
        decreases 8 - i,
    {
        let (move_x, move_y) = knight_offset(i);
        if let Some(new_position) = Position::get_valid_position(x + move_x, y + move_y) {
            if !contains_position(friendly_positions, new_position) {
                moves.push(new_position);
            }
        }
        i += 1;
    }
    moves
}

/// The neighbouring squares a king on `position` may step to.
pub fn get_king_steps(position: &Position, friendly_positions: &[Position]) -> (moves: Vec<
    Position,
>)
    requires
        position.on_board(),
    ensures
        moves@ == king_steps(*position, friendly_positions@),
{
    let (x, y) = position.get_x_y_as_int();
    let mut moves: Vec<Position> = Vec::new();
    let mut i: usize = 0;
    while i < 8
        invariant
            i <= 8,
            x == position.x,
            y == position.y,
            position.on_board(),
            moves@ == jumps(*position, king_offsets(), friendly_positions@, i as nat),
        decreases 8 - i,
    {
        let (move_x, move_y) = king_offset(i);
        if let Some(new_position) = Position::get_valid_position(x + move_x, y + move_y) {
            if !contains_position(friendly_positions, new_position) {
                moves.push(new_position);
            }
        }
        i += 1;
    }
    moves
}

/// Whether a square holds no piece of either list.
pub open spec fn is_free(q: Position, friendly: Seq<Position>, opponent: Seq<Position>) -> bool {
    !friendly.contains(q) && !opponent.contains(q)
}

/// The rank index from which pawns that advance by `move_direction` start.
pub open spec fn pawn_start_row(move_direction: int) -> int {
    if move_direction == 1 {
        1
    } else {
        6
    }
}

/// The forward moves of a pawn: one square if it is free, and a second one
/// from the starting rank if the pawn has not moved and that square is free too.
pub open spec fn pawn_advances(
    p: Position,
    has_moved: bool,
    friendly: Seq<Position>,
    opponent: Seq<Position>,
    move_direction: int,
) -> Seq<Position> {
    match shift(p, 0, move_direction) {
        None => Seq::empty(),
        Some(one) => if !is_free(one, friendly, opponent) {
            Seq::empty()
        } else {
            match shift(p, 0, 2 * move_direction) {
                None => seq![one],
                Some(two) => if !has_moved && p.y == pawn_start_row(move_direction) && is_free(
                    two,
                    friendly,
                    opponent,
                ) {
                    seq![one, two]
                } else {
                    seq![one]
                },
            }
        },
    }
}

/// The capture of a pawn towards file `p.x + dx`: the square diagonally ahead,
/// if it is not friendly and holds an opponent or is the en-passant target.
pub open spec fn pawn_capture(
    p: Position,
    dx: int,
    friendly: Seq<Position>,
    opponent: Seq<Position>,
    move_direction: int,
    en_passant: Option<Position>,
) -> Seq<Position> {
    match shift(p, dx, move_direction) {
        None => Seq::empty(),
        Some(q) => if !friendly.contains(q) && (opponent.contains(q) || en_passant == Some(q)) {
            seq![q]
        } else {
            Seq::empty()
        },
    }
}

/// The moves of a pawn: advances, then the capture towards the lower file
/// index, then the capture towards the higher one.
pub open spec fn pawn_moves(
    p: Position,
    has_moved: bool,
    friendly: Seq<Position>,
    opponent: Seq<Position>,
    move_direction: int,
    en_passant: Option<Position>,
) -> Seq<Position> {
    pawn_advances(p, has_moved, friendly, opponent, move_direction) + pawn_capture(
        p,
        -1,
        friendly,
        opponent,
        move_direction,
        en_passant,
    ) + pawn_capture(p, 1, friendly, opponent, move_direction, en_passant)
}

/// Every pawn move goes to a square on the board that is not friendly.
pub proof fn lemma_pawn_moves_safe(
    p: Position,
    has_moved: bool,
    friendly: Seq<Position>,
    opponent: Seq<Position>,
    move_direction: int,
    en_passant: Option<Position>,
)
    ensures
        clear_of(
            pawn_moves(p, has_moved, friendly, opponent, move_direction, en_passant),
            friendly,
        ),
{
    let a = pawn_advances(p, has_moved, friendly, opponent, move_direction);
    let b = pawn_capture(p, -1, friendly, opponent, move_direction, en_passant);
    let c = pawn_capture(p, 1, friendly, opponent, move_direction, en_passant);
    lemma_clear_concat(a, b, friendly);
    lemma_clear_concat(a + b, c, friendly);
}

/// The squares a pawn on `position` may move to. `move_direction` is 1 for
/// White and -1 for Black.
pub fn get_pawn_moves(
    position: &Position,
    has_moved: &bool,
    friendly_positions: &[Position],
    opponent_positions: &[Position],
    move_direction: i32,
    en_passant: &Option<Position>,
) -> (moves: Vec<Position>)
    requires
        position.on_board(),
        move_direction == 1 || move_direction == -1,
    ensures
        moves@ == pawn_moves(
            *position,
            *has_moved,
            friendly_positions@,
            opponent_positions@,
            move_direction as int,
            *en_passant,
        ),
{
    let mut moves: Vec<Position> = Vec::new();
    let (x, y) = position.get_x_y_as_int();
    let start_row: i32 = if move_direction == 1 {
        1
    } else {
        6
    };

    if let Some(one) = Position::get_valid_position(x, y + move_direction) {
        if !contains_position(friendly_positions, one) && !contains_position(
            opponent_positions,
            one,
        ) {
            moves.push(one);
            if let Some(two) = Position::get_valid_position(x, y + 2 * move_direction) {
                if !*has_moved && y == start_row && !contains_position(friendly_positions, two)
                    && !contains_position(opponent_positions, two) {
                    moves.push(two);
                }
            }
        }
    }
    proof {
        assert(moves@ =~= pawn_advances(
            *position,
            *has_moved,
            friendly_positions@,
            opponent_positions@,
            move_direction as int,
        ));
    }
    let ghost advances = moves@;

    if let Some(capture) = Position::get_valid_position(x - 1, y + move_direction) {
        if !contains_position(friendly_positions, capture) && (contains_position(
            opponent_positions,
            capture,
        ) || is_target(en_passant, capture)) {
            moves.push(capture);
        }
    }
    proof {
        assert(moves@ =~= advances + pawn_capture(
            *position,
            -1,
            friendly_positions@,
            opponent_positions@,
            move_direction as int,
            *en_passant,
        ));
    }
    let ghost with_first = moves@;

    if let Some(capture) = Position::get_valid_position(x + 1, y + move_direction) {
        if !contains_position(friendly_positions, capture) && (contains_position(
            opponent_positions,
            capture,
        ) || is_target(en_passant, capture)) {
            moves.push(capture);
        }
    }
    proof {
        assert(moves@ =~= with_first + pawn_capture(
            *position,
            1,
            friendly_positions@,
            opponent_positions@,
            move_direction as int,
            *en_passant,
        ));
    }
    moves
}

/// Whether `en_passant` is set and names `square`.
pub fn is_target(en_passant: &Option<Position>, square: Position) -> (hit: bool)
    ensures
        hit == (*en_passant == Some(square)),
{
    match en_passant {
        Some(target) => *target == square,
        None => false,
    }
}

/// Where the rook stands before and after castling, given the square that
/// the king castles to: from file h to file f when the king goes to file g,
/// and from file a to file d otherwise, on the king's rank.
pub open spec fn rook_castling_squares(king_new_position: Position) -> (Position, Position) {
    if king_new_position.x == 1 {
        (
            Position { x: 0, y: king_new_position.y },
            Position { x: 2, y: king_new_position.y },
        )
    } else {
        (
            Position { x: 7, y: king_new_position.y },
            Position { x: 4, y: king_new_position.y },
        )
    }
}

pub fn get_rook_old_and_new_castling_positions(king_new_position: &Position) -> (squares: (
    Position,
    Position,
))
    ensures
        squares == rook_castling_squares(*king_new_position),
{
    let old_x_position: usize;
    let new_x_position: usize;
    if king_new_position.x == 1 {
        old_x_position = 0;
        new_x_position = 2;
    } else {
        old_x_position = 7;
        new_x_position = 4;
    }
    let old_rook_position = Position::new(old_x_position, king_new_position.y);
    let new_rook_position = Position::new(new_x_position, king_new_position.y);

    (old_rook_position, new_rook_position)
}

} // verus!
