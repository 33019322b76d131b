use chess_core::helpers::{Direction, Position};
use chess_core::moves::{
    get_bishop_moves, get_king_steps, get_knight_moves, get_pawn_moves, get_queen_moves,
    get_rook_moves, get_rook_old_and_new_castling_positions, get_straight_moves,
};

#[test]
fn test_get_knight_moves() {
    let piece_position = Position::new(1, 6);
    let friendly_positions: Vec<Position> = vec![
        Position::new(0, 0),
        Position::new(2, 6),
        Position::new(3, 5),
    ];

    let output = get_knight_moves(&piece_position, &friendly_positions);
    let expected_output: Vec<Position> = vec![
        Position::new(3, 7),
        Position::new(0, 4),
        Position::new(2, 4),
    ];
    assert_eq!(expected_output, output);
}

#[test]
fn test_get_straight_moves() {
    let piece_position = Position::new(4, 4);
    let directions = vec![
        Direction::new(-1, 0),
        Direction::new(1, 0),
        Direction::new(0, 1),
        Direction::new(0, -1),
        Direction::new(-1, -1),
    ];
    let friendly_positions = vec![
        Position::new(4, 5),
        Position::new(2, 4),
        Position::new(6, 2),
    ];
    let opponent_positions = vec![Position::new(4, 3), Position::new(1, 1)];
    let expected_output = vec![
        Position::new(3, 4),
        Position::new(5, 4),
        Position::new(6, 4),
        Position::new(7, 4),
        Position::new(4, 3),
        Position::new(3, 3),
        Position::new(2, 2),
        Position::new(1, 1),
    ];

    let output: Vec<Position> = get_straight_moves(
        directions,
        &piece_position,
        &friendly_positions,
        &opponent_positions,
    )
    .into_iter()
    .flatten()
    .collect();
    assert_eq!(expected_output, output);
}

#[test]
fn test_get_pawn_moves_double() {
    let position = Position::new(1, 1);

    let output = get_pawn_moves(&position, &false, &Vec::new(), &Vec::new(), 1, &None);
    let expected_output = vec![Position::new(1, 2), Position::new(1, 3)];

    assert_eq!(expected_output, output);
}

#[test]
fn test_get_pawn_moves_single() {
    let position = Position::new(1, 1);

    let output = get_pawn_moves(&position, &true, &Vec::new(), &Vec::new(), 1, &None);
    let expected_output = vec![Position::new(1, 2)];
    assert_eq!(expected_output, output);
}

#[test]
fn test_get_pawn_moves_blocked_by_friendly() {
    let position = Position::new(1, 1);
    let output = get_pawn_moves(
        &position,
        &false,
        &[Position::new(1, 2)],
        &Vec::new(),
        1,
        &None,
    );
    let expected_output: Vec<Position> = Vec::new();
    assert_eq!(expected_output, output);
}

#[test]
fn test_get_pawn_moves_blocked_by_opponent() {
    let position = Position::new(1, 1);
    let output = get_pawn_moves(
        &position,
        &false,
        &Vec::new(),
        &[Position::new(1, 2)],
        1,
        &None,
    );
    let expected_output: Vec<Position> = Vec::new();
    assert_eq!(expected_output, output);
}

#[test]
fn test_get_pawn_moves_capture() {
    let position = Position::new(1, 1);
    let output = get_pawn_moves(
        &position,
        &false,
        &Vec::new(),
        &[
            Position::new(1, 2),
            Position::new(0, 2),
            Position::new(2, 2),
        ],
        1,
        &None,
    );
    let expected_output: Vec<Position> = vec![Position::new(0, 2), Position::new(2, 2)];
    assert_eq!(expected_output, output);
}

#[test]
fn test_get_pawn_moves_en_passant() {
    let position = Position::new(1, 1);
    let output = get_pawn_moves(
        &position,
        &false,
        &Vec::new(),
        &[Position::new(0, 1)],
        1,
        &Some(Position::new(0, 2)),
    );
    let expected_output: Vec<Position> = vec![
        Position::new(1, 2),
        Position::new(1, 3),
        Position::new(0, 2),
    ];
    assert_eq!(expected_output, output);
}

#[test]
fn pawn_double_step_only_from_start_rank() {
    let output = get_pawn_moves(&Position::new(1, 2), &false, &Vec::new(), &Vec::new(), 1, &None);
    assert_eq!(vec![Position::new(1, 3)], output);
    let output = get_pawn_moves(&Position::new(4, 6), &false, &Vec::new(), &Vec::new(), -1, &None);
    assert_eq!(vec![Position::new(4, 5), Position::new(4, 4)], output);
}

#[test]
fn pawn_double_step_needs_free_target() {
    let output = get_pawn_moves(
        &Position::new(1, 1),
        &false,
        &Vec::new(),
        &[Position::new(1, 3)],
        1,
        &None,
    );
    assert_eq!(vec![Position::new(1, 2)], output);
}

#[test]
fn pawn_on_last_rank_has_no_moves() {
    let output = get_pawn_moves(&Position::new(1, 7), &true, &Vec::new(), &Vec::new(), 1, &None);
    assert_eq!(Vec::<Position>::new(), output);
}

#[test]
fn pawn_does_not_capture_friendly_target() {
    let output = get_pawn_moves(
        &Position::new(1, 4),
        &true,
        &[Position::new(0, 5)],
        &Vec::new(),
        1,
        &Some(Position::new(0, 5)),
    );
    assert_eq!(vec![Position::new(1, 5)], output);
}

#[test]
fn rook_reaches_the_far_edge() {
    let output = get_rook_moves(&Position::new(0, 0), &[Position::new(0, 0)], &Vec::new());
    let mut expected: Vec<Position> = Vec::new();
    for y in 1..8 {
        expected.push(Position::new(0, y));
    }
    for x in 1..8 {
        expected.push(Position::new(x, 0));
    }
    assert_eq!(expected, output);
}

#[test]
fn bishop_stops_at_blockers() {
    let output = get_bishop_moves(
        &Position::new(2, 2),
        &[Position::new(4, 4)],
        &[Position::new(1, 3)],
    );
    let expected = vec![
        Position::new(3, 3),
        Position::new(3, 1),
        Position::new(4, 0),
        Position::new(1, 3),
        Position::new(1, 1),
        Position::new(0, 0),
    ];
    assert_eq!(expected, output);
}

#[test]
fn queen_lists_rook_moves_then_bishop_moves() {
    let friendly = vec![Position::new(3, 3)];
    let opponent: Vec<Position> = Vec::new();
    let position = Position::new(3, 3);
    let mut expected = get_rook_moves(&position, &friendly, &opponent);
    expected.extend(get_bishop_moves(&position, &friendly, &opponent));
    let output = get_queen_moves(&position, &friendly, &opponent);
    assert_eq!(output.len(), 27);
    assert_eq!(expected, output);
}

#[test]
fn king_steps_in_the_corner() {
    let output = get_king_steps(&Position::new(0, 0), &[Position::new(1, 1)]);
    assert_eq!(vec![Position::new(0, 1), Position::new(1, 0)], output);
}

#[test]
fn knight_in_the_corner() {
    let output = get_knight_moves(&Position::new(7, 7), &Vec::new());
    assert_eq!(vec![Position::new(5, 6), Position::new(6, 5)], output);
}

#[test]
fn castling_rook_squares() {
    assert_eq!(
        get_rook_old_and_new_castling_positions(&Position::new(1, 0)),
        (Position::new(0, 0), Position::new(2, 0))
    );
    assert_eq!(
        get_rook_old_and_new_castling_positions(&Position::new(5, 7)),
        (Position::new(7, 7), Position::new(4, 7))
    );
}
