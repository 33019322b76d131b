//! The text of the starting position.
use vstd::prelude::*;
use crate::board::{at, back_rank, BoardState, is_start, start_square, start_text};
use crate::fen::{blank_run, Cell, cell_of, data_of, fen_text, fields_of, grid_rows, row_text,
    row_texts};
use crate::helpers::Position;
use crate::pieces::{Color, PieceKind};
use crate::text::join;

verus! {

/// The text of a home rank.
pub open spec fn home_rank_text(color: Color) -> Seq<char> {
    match color {
        Color::White => seq!['R', 'N', 'B', 'Q', 'K', 'B', 'N', 'R'],
        Color::Black => seq!['r', 'n', 'b', 'q', 'k', 'b', 'n', 'r'],
    }
}

/// The text of a rank full of pawns.
pub open spec fn pawn_rank_text(color: Color) -> Seq<char> {
    match color {
        Color::White => seq!['P', 'P', 'P', 'P', 'P', 'P', 'P', 'P'],
        Color::Black => seq!['p', 'p', 'p', 'p', 'p', 'p', 'p', 'p'],
    }
}

/// The text of a rank on which the pieces stand as at the start of a game.
proof fn lemma_home_rank_text(cells: Seq<Cell>, color: Color)
    requires
        cells.len() == 8,
        forall|i: int| 0 <= i < 8 ==> cells[i] == Some((back_rank((7 - i) as usize), color)),
    ensures
        row_text(cells, 8) == home_rank_text(color),
{
    reveal_with_fuel(row_text, 9);
    assert(row_text(cells, 8) =~= home_rank_text(color));
}

/// The text of a rank full of pawns of one colour.
proof fn lemma_pawn_rank_text(cells: Seq<Cell>, color: Color)
    requires
        cells.len() == 8,
        forall|i: int| 0 <= i < 8 ==> cells[i] == Some((PieceKind::P, color)),
    ensures
        row_text(cells, 8) == pawn_rank_text(color),
{
    reveal_with_fuel(row_text, 9);
    assert(row_text(cells, 8) =~= pawn_rank_text(color));
}

/// The text of an empty rank.
proof fn lemma_empty_rank_text(cells: Seq<Cell>)
    requires
        cells.len() == 8,
        forall|i: int| 0 <= i < 8 ==> cells[i] is None,
    ensures
        row_text(cells, 8) == seq!['8'],
{
    reveal_with_fuel(blank_run, 9);
    reveal_with_fuel(row_text, 2);
    assert(blank_run(cells, 8) == 8);
    assert(row_text(cells, 8) =~= seq!['8']);
}

/// The texts of the eight ranks of the starting position, from rank 8 down.
pub open spec fn start_rows() -> Seq<Seq<char>> {
    seq![
        home_rank_text(Color::Black),
        pawn_rank_text(Color::Black),
        seq!['8'],
        seq!['8'],
        seq!['8'],
        seq!['8'],
        pawn_rank_text(Color::White),
        home_rank_text(Color::White),
    ]
}

/// The six fields of the text of the starting position.
pub open spec fn start_fields() -> Seq<Seq<char>> {
    seq![
        join(start_rows(), '/', 8),
        seq!['w'],
        seq!['K', 'Q', 'k', 'q'],
        seq!['-'],
        seq!['0'],
        seq!['1'],
    ]
}

/// The ranks of the starting position have the texts above.
proof fn lemma_start_rows(s: BoardState)
    requires
        is_start(s),
    ensures
        row_texts(grid_rows(s.board)) == start_rows(),
{
    let g = s.board;
    let rows = grid_rows(g);
    let texts = row_texts(rows);
    assert forall|k: int, i: int| 0 <= k < 8 && 0 <= i < 8 implies #[trigger] rows[k][i] == cell_of(
        start_square(Position { x: (7 - i) as usize, y: (7 - k) as usize }),
    ) by {
        let p = Position { x: (7 - i) as usize, y: (7 - k) as usize };
        assert(at(g, p) == start_square(p));
    }
    lemma_home_rank_text(rows[0], Color::Black);
    lemma_pawn_rank_text(rows[1], Color::Black);
    lemma_empty_rank_text(rows[2]);
    lemma_empty_rank_text(rows[3]);
    lemma_empty_rank_text(rows[4]);
    lemma_empty_rank_text(rows[5]);
    lemma_pawn_rank_text(rows[6], Color::White);
    lemma_home_rank_text(rows[7], Color::White);
    assert(texts =~= start_rows());
}

/// The fields of the text of the starting position are the fields above.
proof fn lemma_start_fields(s: BoardState)
    requires
        is_start(s),
    ensures
        fields_of(data_of(s)) == start_fields(),
{
    let d = data_of(s);
    let fields = fields_of(d);
    lemma_start_rows(s);
    assert(fields[0] == join(start_rows(), '/', 8));
    assert(fields[1] =~= seq!['w']);
    assert(fields[2] =~= seq!['K', 'Q', 'k', 'q']) by {
        assert(d.white == [true, true]);
        assert(d.black == [true, true]);
    }
    assert(fields[3] =~= seq!['-']);
    assert(fields[4] =~= seq!['0']);
    assert(fields[5] =~= seq!['1']);
    assert(fields =~= start_fields());
}

/// The fields above, joined, are the text of the starting position.
#[verifier::rlimit(40)]
proof fn lemma_start_fields_text()
    ensures
        join(start_fields(), ' ', 6) == start_text(),
{
    reveal_strlit("rnbqkbnr/pppppppp/8/8/8/8/PPPPPPPP/RNBQKBNR w KQkq - 0 1");
    reveal_with_fuel(join, 9);
    let placement = join(start_rows(), '/', 8);
    assert(placement.len() == 43);
    assert(join(start_fields(), ' ', 6) =~= start_text());
}

/// The text of the starting position is the text that its record holds.
pub proof fn lemma_start_text(s: BoardState)
    requires
        is_start(s),
    ensures
        fen_text(s) == start_text(),
        s.history == seq![fen_text(s)],
{
    lemma_start_fields(s);
    lemma_start_fields_text();
}

} // verus!
