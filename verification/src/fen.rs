//! Position text: six fields separated by single spaces. The first lists the
//! ranks from 8 down to 1, separated by '/', each from file a to file h, with
//! a letter for a piece and a digit for a run of empty squares. Then follow
//! the side to move, the castling rights, the en-passant target, the
//! half-move clock and the move number.
use vstd::prelude::*;
use crate::board::{at, Board, BoardState, Grid, grid_put, holds_king, lemma_put, locate_king,
    only_king, texts};
use crate::color_map::{key_of, table_insert, table_with_capacity};
use crate::errors::ChessError;
use crate::helpers::{file_char, Position, rank_char};
use crate::pieces::{Color, lemma_letter_round_trip, letter_piece, Piece, piece_letter, PieceKind};
use crate::text::{char_digit, char_of_digit, decimal, digit_char, digit_of_char, free_of, join,
    lemma_decimal, lemma_split_join, number, parse_number, push_char, push_number, split,
    split_chars, to_chars};
use crate::utils::{lemma_square_text_round_trip, lemma_text_square_exact, square_from_chars,
    text_square};

verus! {

/// What the text shows of one square: the kind and colour of its piece.
pub type Cell = Option<(PieceKind, Color)>;

/// What the text shows of a square of the board.
pub open spec fn cell_of(square: Option<Piece>) -> Cell {
    match square {
        Some(piece) => Some((piece.kind, piece.color)),
        None => None,
    }
}

/// The piece that a cell puts on square `p`: one that has not moved.
pub open spec fn piece_of(cell: Cell, p: Position) -> Option<Piece> {
    match cell {
        Some((kind, color)) => Some(Piece { color, kind, position: p, has_moved: false }),
        None => None,
    }
}

/// What a position text says.
pub struct FenData {
    /// The ranks from 8 down to 1, each from file a to file h.
    pub rows: Seq<Seq<Cell>>,
    pub turn: Color,
    /// White's right to castle on the king's side (index 0) and on the
    /// queen's side (index 1).
    pub white: [bool; 2],
    /// Black's rights, in the same order.
    pub black: [bool; 2],
    pub en_passant: Option<Position>,
    pub n_half_moves: u16,
    pub n_full_moves: u16,
}

/// The cell of square `p` in rows that run from rank 8 down and from file a
/// to file h.
pub open spec fn cell_at(rows: Seq<Seq<Cell>>, p: Position) -> Cell {
    rows[7 - p.y][7 - p.x]
}

/// Whether the rows are eight rows of eight cells.
pub open spec fn is_board(rows: Seq<Seq<Cell>>) -> bool {
    rows.len() == 8 && forall|k: int| 0 <= k < 8 ==> (#[trigger] rows[k]).len() == 8
}

/// Whether `p` is the one square whose cell is the king of colour `c`.
pub open spec fn is_lone_king(rows: Seq<Seq<Cell>>, p: Position, c: Color) -> bool {
    &&& p.on_board()
    &&& cell_at(rows, p) == Some((PieceKind::K, c))
    &&& forall|q: Position|
        q.on_board() && #[trigger] cell_at(rows, q) == Some((PieceKind::K, c)) ==> q == p
}

/// Whether the rows hold exactly one king of colour `c`.
pub open spec fn has_lone_king(rows: Seq<Seq<Cell>>, c: Color) -> bool {
    exists|p: Position| is_lone_king(rows, p, c)
}

/// The number of empty cells at the end of the first `n` cells.
pub open spec fn blank_run(cells: Seq<Cell>, n: nat) -> nat
    decreases n,
{
    if n == 0 || cells[n - 1] is Some {
        0
    } else {
        1 + blank_run(cells, (n - 1) as nat)
    }
}

/// The text of the first `n` cells of a row: a letter for each piece, and for
/// each run of empty cells the digit of its length.
pub open spec fn row_text(cells: Seq<Cell>, n: nat) -> Seq<char>
    decreases n,
{
    if n == 0 {
        Seq::empty()
    } else {
        match cells[n - 1] {
            Some((kind, color)) => row_text(cells, (n - 1) as nat).push(piece_letter(kind, color)),
            None => {
                let run = blank_run(cells, n);
                if 1 <= run <= n {
                    row_text(cells, (n - run) as nat).push(digit_char(run as int))
                } else {
                    Seq::empty()
                }
            },
        }
    }
}

/// The number of empty cells that a digit from 1 to 8 stands for.
pub open spec fn blank_count(c: char) -> Option<nat> {
    match char_digit(c) {
        Some(d) => if 1 <= d <= 8 {
            Some(d as nat)
        } else {
            None
        },
        None => None,
    }
}

/// `d` empty cells.
pub open spec fn blanks(d: nat) -> Seq<Cell> {
    Seq::new(d, |i: int| None)
}

/// The cells that a row's text lists, if every character is a piece letter
/// or a digit from 1 to 8.
pub open spec fn expand(t: Seq<char>) -> Option<Seq<Cell>>
    decreases t.len(),
{
    if t.len() == 0 {
        Some(Seq::empty())
    } else {
        match expand(t.drop_last()) {
            None => None,
            Some(cells) => if letter_piece(t.last()) is Some {
                Some(cells.push(letter_piece(t.last())))
            } else if blank_count(t.last()) is Some {
                Some(cells + blanks(blank_count(t.last())->0))
            } else {
                None
            },
        }
    }
}

/// The eight cells of a row, if its text lists exactly eight.
pub open spec fn row_of_text(t: Seq<char>) -> Option<Seq<Cell>> {
    match expand(t) {
        Some(cells) => if cells.len() == 8 {
            Some(cells)
        } else {
            None
        },
        None => None,
    }
}

/// The texts of the eight rows.
pub open spec fn row_texts(rows: Seq<Seq<Cell>>) -> Seq<Seq<char>> {
    Seq::new(8, |k: int| row_text(rows[k], 8))
}

/// The first field: the rows with '/' between them.
pub open spec fn placement_text(rows: Seq<Seq<Cell>>) -> Seq<char> {
    join(row_texts(rows), '/', 8)
}

/// The rows that the first field lists, if it has eight rows of eight cells.
pub open spec fn placement_of_text(t: Seq<char>) -> Option<Seq<Seq<Cell>>> {
    let parts = split(t, '/');
    if parts.len() == 8 && (forall|k: int| 0 <= k < 8 ==> row_of_text(#[trigger] parts[k]) is Some) {
        Some(Seq::new(8, |k: int| row_of_text(parts[k])->0))
    } else {
        None
    }
}

/// The second field: 'w' or 'b'.
pub open spec fn side_text(turn: Color) -> Seq<char> {
    match turn {
        Color::White => seq!['w'],
        Color::Black => seq!['b'],
    }
}

pub open spec fn side_of_text(t: Seq<char>) -> Option<Color> {
    if t == seq!['w'] {
        Some(Color::White)
    } else if t == seq!['b'] {
        Some(Color::Black)
    } else {
        None
    }
}

/// `t` followed by `c` if `flag` holds, and `t` otherwise.
pub open spec fn push_if(t: Seq<char>, flag: bool, c: char) -> Seq<char> {
    if flag {
        t.push(c)
    } else {
        t
    }
}

/// The third field: the letters of the rights in the order K, Q, k, q, or
/// '-' if there is none.
pub open spec fn castling_text(white: [bool; 2], black: [bool; 2]) -> Seq<char> {
    if !white[0] && !white[1] && !black[0] && !black[1] {
        seq!['-']
    } else {
        push_if(
            push_if(push_if(push_if(Seq::empty(), white[0], 'K'), white[1], 'Q'), black[0], 'k'),
            black[1],
            'q',
        )
    }
}

/// Whether a character is one of K, Q, k, q.
pub open spec fn is_right_letter(c: char) -> bool {
    c == 'K' || c == 'Q' || c == 'k' || c == 'q'
}

/// The rights that the third field grants, White's and Black's: none for
/// "-", and otherwise those whose letters occur in the field, which must be
/// non-empty and made of the letters K, Q, k, q.
pub open spec fn castling_of_text(t: Seq<char>) -> Option<([bool; 2], [bool; 2])> {
    if t == seq!['-'] {
        Some(([false, false], [false, false]))
    } else if t.len() > 0 && (forall|i: int| 0 <= i < t.len() ==> is_right_letter(#[trigger] t[i])) {
        Some(([t.contains('K'), t.contains('Q')], [t.contains('k'), t.contains('q')]))
    } else {
        None
    }
}

/// The fourth field: the text of the target square, or '-'.
pub open spec fn en_passant_text(en_passant: Option<Position>) -> Seq<char> {
    match en_passant {
        Some(p) => p.chess_text(),
        None => seq!['-'],
    }
}

pub open spec fn en_passant_of_text(t: Seq<char>) -> Option<Option<Position>> {
    if t == seq!['-'] {
        Some(None)
    } else if text_square(t) is Some {
        Some(text_square(t))
    } else {
        None
    }
}

/// The six fields of the text.
pub open spec fn fields_of(d: FenData) -> Seq<Seq<char>> {
    seq![
        placement_text(d.rows),
        side_text(d.turn),
        castling_text(d.white, d.black),
        en_passant_text(d.en_passant),
        decimal(d.n_half_moves as nat),
        decimal(d.n_full_moves as nat),
    ]
}

/// The text that says `d`.
pub open spec fn data_text(d: FenData) -> Seq<char> {
    join(fields_of(d), ' ', 6)
}

/// What a text says, if it is a position text: six fields, eight rows of
/// eight squares, known piece letters, a side, castling letters, an
/// en-passant square or '-', a half-move clock, a move number of at least 1,
/// and exactly one king of each colour.
pub open spec fn parse_fen(t: Seq<char>) -> Option<FenData> {
    let fields = split(t, ' ');
    if fields.len() != 6 {
        None
    } else {
        let rows = placement_of_text(fields[0]);
        let turn = side_of_text(fields[1]);
        let rights = castling_of_text(fields[2]);
        let en_passant = en_passant_of_text(fields[3]);
        let half = number(fields[4]);
        let full = number(fields[5]);
        if rows is Some && turn is Some && rights is Some && en_passant is Some && half is Some
            && full is Some && full->0 >= 1 && has_lone_king(rows->0, Color::White)
            && has_lone_king(rows->0, Color::Black) {
            Some(
                FenData {
                    rows: rows->0,
                    turn: turn->0,
                    white: rights.unwrap().0,
                    black: rights.unwrap().1,
                    en_passant: en_passant->0,
                    n_half_moves: half->0,
                    n_full_moves: full->0,
                },
            )
        } else {
            None
        }
    }
}

/// The cells of the rank with index `y`, from file a to file h.
pub open spec fn row_cells(g: Grid, y: int) -> Seq<Cell> {
    Seq::new(8, |i: int| cell_of(at(g, Position { x: (7 - i) as usize, y: y as usize })))
}

/// What the text of a position says.
pub open spec fn data_of(s: BoardState) -> FenData {
    FenData {
        rows: grid_rows(s.board),
        turn: s.turn,
        white: s.castling[key_of(Color::White)],
        black: s.castling[key_of(Color::Black)],
        en_passant: s.en_passant,
        n_half_moves: s.n_half_moves,
        n_full_moves: s.n_full_moves,
    }
}

/// The text of a position.
pub open spec fn fen_text(s: BoardState) -> Seq<char> {
    data_text(data_of(s))
}

impl BoardState {
    /// Whether this is the position that a text saying `d` sets up: the
    /// pieces of `d` stand unmoved on their squares, side, rights, target and
    /// counters are those of `d`, and the king squares are where the kings are.
    pub open spec fn shows(self, d: FenData) -> bool {
        &&& forall|p: Position|
            p.on_board() ==> #[trigger] at(self.board, p) == piece_of(cell_at(d.rows, p), p)
        &&& self.turn == d.turn
        &&& self.castling =~= map![0u8 => d.white, 1u8 => d.black]
        &&& self.en_passant == d.en_passant
        &&& self.n_half_moves == d.n_half_moves
        &&& self.n_full_moves == d.n_full_moves
        &&& self.king_positions.dom() =~= set![0u8, 1u8]
        &&& is_lone_king(d.rows, self.king_of(Color::White), Color::White)
        &&& is_lone_king(d.rows, self.king_of(Color::Black), Color::Black)
    }
}

/// A run of empty cells is no longer than the cells before it, is made of
/// empty cells, and is not preceded by an empty cell.
pub proof fn lemma_blank_run(cells: Seq<Cell>, n: nat)
    requires
        n <= cells.len(),
    ensures
        blank_run(cells, n) <= n,
        forall|i: int| n - blank_run(cells, n) <= i < n ==> cells[i] is None,
        blank_run(cells, n) < n ==> cells[n - blank_run(cells, n) - 1] is Some,
    decreases n,
{
    if n > 0 && cells[n - 1] is None {
        lemma_blank_run(cells, (n - 1) as nat);
    }
}

/// Whether every character of `t` is a piece letter or a digit from 1 to 8.
pub open spec fn is_row_text(t: Seq<char>) -> bool {
    forall|i: int|
        0 <= i < t.len() ==> letter_piece(#[trigger] t[i]) is Some || blank_count(t[i]) is Some
}

/// Reading the text of a row gives its cells back, and the text is made of
/// piece letters and digits from 1 to 8.
pub proof fn lemma_row_round_trip(cells: Seq<Cell>, n: nat)
    requires
        n <= cells.len(),
        n <= 8,
    ensures
        expand(row_text(cells, n)) == Some(cells.take(n as int)),
        is_row_text(row_text(cells, n)),
    decreases n,
{
    if n == 0 {
        assert(cells.take(0) =~= Seq::<Cell>::empty());
    } else {
        let t = row_text(cells, n);
        match cells[n - 1] {
            Some((kind, color)) => {
                let before = row_text(cells, (n - 1) as nat);
                lemma_row_round_trip(cells, (n - 1) as nat);
                lemma_letter_round_trip(kind, color);
                assert(t.drop_last() =~= before);
                assert(cells.take(n - 1).push(cells[n - 1]) =~= cells.take(n as int));
                assert forall|i: int| 0 <= i < t.len() implies letter_piece(#[trigger] t[i])
                    is Some || blank_count(t[i]) is Some by {
                    if i < before.len() {
                        assert(t[i] == before[i]);
                    }
                }
            },
            None => {
                let run = blank_run(cells, n);
                lemma_blank_run(cells, n);
                let before = row_text(cells, (n - run) as nat);
                lemma_row_round_trip(cells, (n - run) as nat);
                assert(t.drop_last() =~= before);
                assert(blank_count(digit_char(run as int)) == Some(run));
                assert(letter_piece(digit_char(run as int)) is None);
                assert(cells.take(n - run) + blanks(run) =~= cells.take(n as int));
                assert forall|i: int| 0 <= i < t.len() implies letter_piece(#[trigger] t[i])
                    is Some || blank_count(t[i]) is Some by {
                    if i < before.len() {
                        assert(t[i] == before[i]);
                    }
                }
            },
        }
    }
}

/// What is joined from parts without `c`, with another separator, is without `c`.
pub proof fn lemma_join_free(parts: Seq<Seq<char>>, sep: char, c: char, n: nat)
    requires
        n <= parts.len(),
        sep != c,
        forall|i: int| 0 <= i < n ==> free_of(#[trigger] parts[i], c),
    ensures
        free_of(join(parts, sep, n), c),
    decreases n,
{
    if n > 1 {
        lemma_join_free(parts, sep, c, (n - 1) as nat);
        assert(free_of(parts[n - 1], c));
    } else if n == 1 {
        assert(free_of(parts[0], c));
    }
}

/// A row's text holds neither '/' nor ' '.
pub proof fn lemma_row_text_free(t: Seq<char>)
    requires
        is_row_text(t),
    ensures
        free_of(t, '/'),
        free_of(t, ' '),
{
    assert forall|i: int| 0 <= i < t.len() implies t[i] != '/' && t[i] != ' ' by {
        assert(letter_piece(t[i]) is Some || blank_count(t[i]) is Some);
    }
}

/// Reading the first field gives the rows back, and the field holds no space.
pub proof fn lemma_placement_round_trip(rows: Seq<Seq<Cell>>)
    requires
        is_board(rows),
    ensures
        placement_of_text(placement_text(rows)) == Some(rows),
        free_of(placement_text(rows), ' '),
{
    let texts = row_texts(rows);
    assert forall|k: int| 0 <= k < 8 implies free_of(#[trigger] texts[k], '/') && free_of(
        texts[k],
        ' ',
    ) && row_of_text(texts[k]) == Some(rows[k]) by {
        lemma_row_round_trip(rows[k], 8);
        lemma_row_text_free(texts[k]);
        assert(rows[k].take(8) =~= rows[k]);
    }
    lemma_split_join(texts, '/', 8);
    lemma_join_free(texts, '/', ' ', 8);
    assert(texts.take(8) =~= texts);
    let parts = split(placement_text(rows), '/');
    assert(parts == texts);
    assert(Seq::new(8, |k: int| row_of_text(parts[k])->0) =~= rows);
}

/// Reading the third field gives the rights back, and the field holds no space.
pub proof fn lemma_castling_round_trip(white: [bool; 2], black: [bool; 2])
    ensures
        castling_of_text(castling_text(white, black)) == Some((white, black)),
        free_of(castling_text(white, black), ' '),
{
    let t = castling_text(white, black);
    let t1 = push_if(Seq::empty(), white[0], 'K');
    let t2 = push_if(t1, white[1], 'Q');
    let t3 = push_if(t2, black[0], 'k');
    let t4 = push_if(t3, black[1], 'q');
    if !white[0] && !white[1] && !black[0] && !black[1] {
        assert([false, false] =~= white);
        assert([false, false] =~= black);
    } else {
        assert(t == t4);
        assert(t.len() > 0);
        assert(t != seq!['-']) by {
            if t == seq!['-'] {
                assert(t[0] == '-');
            }
        }
        assert forall|i: int| 0 <= i < t.len() implies is_right_letter(#[trigger] t[i]) by {}
        assert(t.contains('K') == white[0]) by {
            if white[0] {
                assert(t[0] == 'K');
            }
        }
        assert(t.contains('Q') == white[1]) by {
            if white[1] {
                assert(t[t1.len() as int] == 'Q');
            }
        }
        assert(t.contains('k') == black[0]) by {
            if black[0] {
                assert(t[t2.len() as int] == 'k');
            }
        }
        assert(t.contains('q') == black[1]) by {
            if black[1] {
                assert(t[t3.len() as int] == 'q');
            }
        }
        assert([t.contains('K'), t.contains('Q')] =~= white);
        assert([t.contains('k'), t.contains('q')] =~= black);
    }
}

/// Reading the fourth field gives the target back, and the field holds no space.
pub proof fn lemma_en_passant_round_trip(en_passant: Option<Position>)
    requires
        en_passant is Some ==> en_passant->0.on_board(),
    ensures
        en_passant_of_text(en_passant_text(en_passant)) == Some(en_passant),
        free_of(en_passant_text(en_passant), ' '),
{
    match en_passant {
        Some(p) => {
            lemma_square_text_round_trip(p);
            assert(p.chess_text() != seq!['-']) by {
                assert(p.chess_text().len() == 2);
                assert(seq!['-'].len() == 1);
            }
        },
        None => {
            assert(seq!['-'][0] == '-');
        },
    }
}

/// The decimal text of a number holds no space.
pub proof fn lemma_decimal_free(n: nat)
    ensures
        free_of(decimal(n), ' '),
{
    lemma_decimal(n);
    assert forall|i: int| 0 <= i < decimal(n).len() implies decimal(n)[i] != ' ' by {
        assert(char_digit(decimal(n)[i]) is Some);
    }
}

/// Whether `d` is something a position text can say: eight rows of eight
/// cells with one king of each colour, a target that is on the board, and a
/// move number of at least 1.
pub open spec fn is_sound(d: FenData) -> bool {
    &&& is_board(d.rows)
    &&& has_lone_king(d.rows, Color::White)
    &&& has_lone_king(d.rows, Color::Black)
    &&& (d.en_passant is Some ==> d.en_passant->0.on_board())
    &&& d.n_full_moves >= 1
}

/// Reading the text that says `d` gives `d` back.
pub proof fn lemma_data_round_trip(d: FenData)
    requires
        is_sound(d),
    ensures
        parse_fen(data_text(d)) == Some(d),
{
    let fields = fields_of(d);
    lemma_placement_round_trip(d.rows);
    lemma_castling_round_trip(d.white, d.black);
    lemma_en_passant_round_trip(d.en_passant);
    lemma_decimal_free(d.n_half_moves as nat);
    lemma_decimal_free(d.n_full_moves as nat);
    lemma_decimal(d.n_half_moves as nat);
    lemma_decimal(d.n_full_moves as nat);
    assert(free_of(side_text(d.turn), ' '));
    assert(side_of_text(side_text(d.turn)) == Some(d.turn)) by {
        assert(seq!['w'][0] != seq!['b'][0]);
    }
    assert forall|i: int| 0 <= i < 6 implies free_of(#[trigger] fields[i], ' ') by {}
    lemma_split_join(fields, ' ', 6);
    assert(fields.take(6) =~= fields);
    assert(split(data_text(d), ' ') == fields);
}

/// The text of a well-formed position with one king of each colour can be
/// read back.
pub proof fn lemma_data_of_sound(s: BoardState)
    requires
        s.wf(),
        s.kings_ok(),
    ensures
        is_sound(data_of(s)),
{
    let d = data_of(s);
    assert forall|p: Position| p.on_board() implies #[trigger] cell_at(d.rows, p) == cell_of(
        at(s.board, p),
    ) by {
        assert(d.rows[7 - p.y] == row_cells(s.board, 7 - (7 - p.y)));
    }
    assert forall|c: Color| is_lone_king(d.rows, s.king_of(c), c) by {
        assert(s.king_ok(c));
        assert(holds_king(s.board, s.king_of(c), c));
        assert(cell_at(d.rows, s.king_of(c)) == cell_of(at(s.board, s.king_of(c))));
        assert forall|q: Position|
            q.on_board() && #[trigger] cell_at(d.rows, q) == Some(
                (PieceKind::K, c),
            ) implies q == s.king_of(c) by {
            assert(cell_at(d.rows, q) == cell_of(at(s.board, q)));
            assert(holds_king(s.board, q, c));
        }
    }
}

/// The position that a text sets up says what the text says.
pub proof fn lemma_shows_data(s: BoardState, d: FenData)
    requires
        is_board(d.rows),
        s.shows(d),
    ensures
        data_of(s) == d,
{
    let e = data_of(s);
    assert forall|k: int| 0 <= k < 8 implies #[trigger] e.rows[k] == d.rows[k] by {
        assert forall|i: int| 0 <= i < 8 implies e.rows[k][i] == d.rows[k][i] by {
            let p = Position { x: (7 - i) as usize, y: (7 - k) as usize };
            assert(at(s.board, p) == piece_of(cell_at(d.rows, p), p));
        }
        assert(e.rows[k] =~= d.rows[k]);
    }
    assert(e.rows =~= d.rows);
    assert(s.castling[0u8] == d.white);
    assert(s.castling[1u8] == d.black);
}

/// What is read of the beginning of a row's text stays when more is read:
/// an unreadable beginning makes the row unreadable, and the cells only
/// become more.
pub proof fn lemma_expand_prefix(t: Seq<char>, j: int)
    requires
        0 <= j <= t.len(),
    ensures
        expand(t.take(j)) is None ==> expand(t) is None,
        expand(t.take(j)) is Some && expand(t) is Some ==> expand(t.take(j))->0.len() <= expand(
            t,
        )->0.len(),
    decreases t.len() - j,
{
    if j < t.len() {
        lemma_expand_prefix(t, j + 1);
        assert(t.take(j + 1).drop_last() =~= t.take(j));
    } else {
        assert(t.take(j) =~= t);
    }
}

/// Appends the text of the rank with index `y` to `s`.
fn push_row(s: &mut String, grid: &Grid, y: usize)
    requires
        y < 8,
    ensures
        final(s)@ == old(s)@ + row_text(row_cells(*grid, y as int), 8),
{
    let ghost cells = row_cells(*grid, y as int);
    let mut blank_squares: u16 = 0;
    let mut i: usize = 0;
    proof {
        assert(old(s)@ + Seq::<char>::empty() =~= old(s)@);
    }
    while i < 8
        invariant
            i <= 8,
            y < 8,
            cells == row_cells(*grid, y as int),
            blank_squares == blank_run(cells, i as nat),
            blank_squares <= i,
            s@ == old(s)@ + row_text(cells, (i - blank_squares) as nat),
        decreases 8 - i,
    {
        proof {
            lemma_blank_run(cells, i as nat);
        }
        match grid[7 - i][y] {
            Some(piece) => {
                if blank_squares > 0 {
                    push_char(s, char_of_digit(blank_squares));
                    proof {
                        assert(s@ =~= old(s)@ + row_text(cells, i as nat));
                    }
                }
                push_char(s, piece.get_piece_kind_as_char());
                proof {
                    assert(cells[i as int] == Some((piece.kind, piece.color)));
                    assert(s@ =~= old(s)@ + row_text(cells, (i + 1) as nat));
                }
                blank_squares = 0;
            },
            None => {
                proof {
                    assert(cells[i as int] is None);
                }
                blank_squares += 1;
            },
        }
        i += 1;
    }
    if blank_squares > 0 {
        push_char(s, char_of_digit(blank_squares));
        proof {
            lemma_blank_run(cells, 8);
            assert(s@ =~= old(s)@ + row_text(cells, 8));
        }
    }
}

/// The number of empty squares that `c` stands for, if it is a digit from 1 to 8.
fn blank_count_of(c: char) -> (d: Option<usize>)
    ensures
        d is Some <==> blank_count(c) is Some,
        d is Some ==> d->0 == blank_count(c)->0,
        d is Some ==> 1 <= d->0 <= 8,
{
    match digit_of_char(c) {
        Some(d) => if 1 <= d && d <= 8 {
            Some(d as usize)
        } else {
            None
        },
        None => None,
    }
}

/// Reads a row's text and sets its pieces on the rank with index `y`, which
/// must be empty. Says whether the text lists exactly eight squares.
fn place_row(grid: &mut Grid, row: &Vec<char>, y: usize) -> (ok: bool)
    requires
        y < 8,
        forall|p: Position| p.on_board() && p.y == y ==> (#[trigger] at(*old(grid), p)) is None,
    ensures
        ok == (row_of_text(row@) is Some),
        ok ==> forall|p: Position|
            p.on_board() && p.y == y ==> #[trigger] at(*final(grid), p) == piece_of(
                row_of_text(row@)->0[7 - p.x],
                p,
            ),
        forall|p: Position|
            p.on_board() && p.y != y ==> #[trigger] at(*final(grid), p) == at(*old(grid), p),
{
    let ghost mut cells: Seq<Cell> = Seq::empty();
    let mut count: usize = 0;
    let mut j: usize = 0;
    proof {
        assert(row@.take(0) =~= Seq::<char>::empty());
    }
    while j < row.len()
        invariant
            j <= row.len(),
            y < 8,
            count <= 8,
            expand(row@.take(j as int)) == Some(cells),
            cells.len() == count,
            forall|p: Position|
                p.on_board() && p.y == y && 7 - p.x < count ==> #[trigger] at(*grid, p)
                    == piece_of(cells[7 - p.x], p),
            forall|p: Position|
                p.on_board() && p.y == y && 7 - p.x >= count ==> (#[trigger] at(*grid, p)) is None,
            forall|p: Position|
                p.on_board() && p.y != y ==> #[trigger] at(*grid, p) == at(*old(grid), p),
        decreases row.len() - j,
    {
        let c = row[j];
        proof {
            assert(row@.take(j + 1).drop_last() =~= row@.take(j as int));
            assert(row@.take(j + 1).last() == c);
            lemma_expand_prefix(row@, j + 1);
        }
        match Piece::parse_piece_letter(c) {
            Some((piece_kind, piece_color)) => {
                if count >= 8 {
                    return false;
                }
                let position = Position::new(7 - count, y);
                let ghost before = *grid;
                let piece = Piece::new(piece_color, piece_kind, position);
                grid_put(grid, position, Some(piece));
                proof {
                    lemma_put(before, position, Some(piece));
                    cells = cells.push(Some((piece_kind, piece_color)));
                }
                count += 1;
            },
            None => match blank_count_of(c) {
                Some(n_empty_spaces) => {
                    if count + n_empty_spaces > 8 {
                        return false;
                    }
                    proof {
                        cells = cells + blanks(n_empty_spaces as nat);
                    }
                    count += n_empty_spaces;
                },
                None => {
                    return false;
                },
            },
        }
        j += 1;
    }
    proof {
        assert(row@.take(j as int) =~= row@);
    }
    count == 8
}

/// Whether `text` is the single character `c`.
fn is_single(text: &Vec<char>, c: char) -> (yes: bool)
    ensures
        yes == (text@ == seq![c]),
{
    if text.len() == 1 && text[0] == c {
        proof {
            assert(text@ =~= seq![c]);
        }
        true
    } else {
        proof {
            if text@ == seq![c] {
                assert(seq![c].len() == 1);
                assert(seq![c][0] == c);
            }
        }
        false
    }
}

/// Whether `text` holds `c`.
fn holds_char(text: &Vec<char>, c: char) -> (yes: bool)
    ensures
        yes == text@.contains(c),
{
    let mut i: usize = 0;
    while i < text.len()
        invariant
            i <= text.len(),
            forall|k: int| 0 <= k < i ==> text@[k] != c,
        decreases text.len() - i,
    {
        if text[i] == c {
            return true;
        }
        i += 1;
    }
    false
}

/// Reads the field of castling rights.
fn parse_castling(text: &Vec<char>) -> (rights: Option<([bool; 2], [bool; 2])>)
    ensures
        rights == castling_of_text(text@),
{
    if is_single(text, '-') {
        return Some(([false, false], [false, false]));
    }
    if text.len() == 0 {
        return None;
    }
    let mut i: usize = 0;
    while i < text.len()
        invariant
            i <= text.len(),
            text@ != seq!['-'],
            forall|k: int| 0 <= k < i ==> is_right_letter(#[trigger] text@[k]),
        decreases text.len() - i,
    {
        let c = text[i];
        if !(c == 'K' || c == 'Q' || c == 'k' || c == 'q') {
            proof {
                assert(!is_right_letter(text@[i as int]));
            }
            return None;
        }
        i += 1;
    }
    Some(
        (
            [holds_char(text, 'K'), holds_char(text, 'Q')],
            [holds_char(text, 'k'), holds_char(text, 'q')],
        ),
    )
}

/// The rows of a grid, from rank 8 down to rank 1.
pub open spec fn grid_rows(g: Grid) -> Seq<Seq<Cell>> {
    Seq::new(8, |k: int| row_cells(g, 7 - k))
}

/// Appends the first field, the placement of the pieces, to `s`.
fn push_placement(s: &mut String, grid: &Grid)
    ensures
        final(s)@ == old(s)@ + placement_text(grid_rows(*grid)),
{
    let ghost rows = row_texts(grid_rows(*grid));
    let mut k: usize = 0;
    proof {
        assert(old(s)@ + Seq::<char>::empty() =~= old(s)@);
    }
    while k < 8
        invariant
            k <= 8,
            rows == row_texts(grid_rows(*grid)),
            s@ == old(s)@ + join(rows, '/', k as nat),
        decreases 8 - k,
    {
        if k > 0 {
            push_char(s, '/');
        }
        let ghost base = s@;
        push_row(s, grid, 7 - k);
        proof {
            assert(rows[k as int] == row_text(row_cells(*grid, 7 - k), 8));
            assert(s@ == base + rows[k as int]);
            if k == 0 {
                assert(s@ =~= old(s)@ + rows[0]);
            } else {
                assert(s@ =~= old(s)@ + (join(rows, '/', k as nat).push('/') + rows[k as int]));
            }
        }
        k += 1;
    }
}

/// Appends the field of castling rights to `s`.
fn push_castling(s: &mut String, white: [bool; 2], black: [bool; 2])
    ensures
        final(s)@ == old(s)@ + castling_text(white, black),
{
    if !white[0] && !white[1] && !black[0] && !black[1] {
        push_char(s, '-');
    } else {
        if white[0] {
            push_char(s, 'K');
        }
        if white[1] {
            push_char(s, 'Q');
        }
        if black[0] {
            push_char(s, 'k');
        }
        if black[1] {
            push_char(s, 'q');
        }
    }
    proof {
        assert(s@ =~= old(s)@ + castling_text(white, black));
    }
}

/// Appends the field of the en-passant target to `s`.
fn push_en_passant(s: &mut String, en_passant: &Option<Position>)
    requires
        en_passant is Some ==> en_passant->0.on_board(),
    ensures
        final(s)@ == old(s)@ + en_passant_text(*en_passant),
{
    match en_passant {
        Some(position) => {
            push_char(s, file_char(position.x));
            push_char(s, rank_char(position.y));
        },
        None => push_char(s, '-'),
    }
    proof {
        assert(s@ =~= old(s)@ + en_passant_text(*en_passant));
    }
}

impl Board {
    /// The text of the position.
    pub fn to_fen(&self) -> (fen_string: String)
        requires
            self@.wf(),
        ensures
            fen_string@ == fen_text(self@),
    {
        let ghost fields = fields_of(data_of(self@));
        let mut fen_string = String::new();
        push_placement(&mut fen_string, &self.board);
        proof {
            assert(fen_string@ =~= fields[0]);
            assert(fen_string@ == join(fields, ' ', 1));
        }
        push_char(&mut fen_string, ' ');
        match self.turn {
            Color::White => push_char(&mut fen_string, 'w'),
            Color::Black => push_char(&mut fen_string, 'b'),
        }
        proof {
            assert(fen_string@ =~= join(fields, ' ', 1).push(' ') + fields[1]);
        }
        push_char(&mut fen_string, ' ');
        push_castling(
            &mut fen_string,
            self.castling_rights(Color::White),
            self.castling_rights(Color::Black),
        );
        proof {
            assert(fen_string@ == join(fields, ' ', 2).push(' ') + fields[2]);
        }
        push_char(&mut fen_string, ' ');
        push_en_passant(&mut fen_string, &self.en_passant);
        proof {
            assert(fen_string@ == join(fields, ' ', 3).push(' ') + fields[3]);
        }
        push_char(&mut fen_string, ' ');
        push_number(&mut fen_string, self.n_half_moves);
        proof {
            assert(fen_string@ == join(fields, ' ', 4).push(' ') + fields[4]);
        }
        push_char(&mut fen_string, ' ');
        push_number(&mut fen_string, self.n_full_moves);
        proof {
            assert(fen_string@ == join(fields, ' ', 5).push(' ') + fields[5]);
        }
        fen_string
    }

    /// Reads a position text. The position has the text as the one entry of
    /// its record, and none of its pieces counts as moved.
    pub fn from_fen(fen: &str) -> (result: Result<Board, ChessError>)
        ensures
            result is Ok <==> parse_fen(fen@) is Some,
            result is Err ==> result->Err_0 == ChessError::InvalidText,
            result is Ok ==> {
                let board = result->Ok_0;
                &&& board@.shows(parse_fen(fen@)->0)
                &&& board@.history == seq![fen@]
                &&& board@.wf()
                &&& board@.kings_ok()
            },
    {
        let chars = to_chars(fen);
        let fen_parts = split_chars(chars.as_slice(), ' ');
        if fen_parts.len() != 6 {
            return Err(ChessError::InvalidText);
        }
        let board_rows = split_chars(fen_parts[0].as_slice(), '/');
        if board_rows.len() != 8 {
            return Err(ChessError::InvalidText);
        }
        let ghost row_parts = split(fen_parts[0]@, '/');

        let mut board: [[Option<Piece>; 8]; 8] = [[None; 8]; 8];
        let mut k: usize = 0;
        while k < 8
            invariant
                k <= 8,
                board_rows.len() == 8,
                row_parts.len() == 8,
                split(fen@, ' ').len() == 6,
                row_parts == split(split(fen@, ' ')[0], '/'),
                forall|i: int| 0 <= i < 8 ==> (#[trigger] board_rows[i])@ == row_parts[i],
                forall|i: int| 0 <= i < k ==> row_of_text(#[trigger] row_parts[i]) is Some,
                forall|p: Position|
                    p.on_board() && p.y > 7 - k ==> #[trigger] at(board, p) == piece_of(
                        row_of_text(row_parts[7 - p.y])->0[7 - p.x],
                        p,
                    ),
                forall|p: Position| p.on_board() && p.y <= 7 - k ==> (#[trigger] at(board, p)) is None,
            decreases 8 - k,
        {
            let y = 7 - k;
            let ghost before = board;
            assert(board_rows[k as int]@ == row_parts[k as int]);
            if !place_row(&mut board, &board_rows[k], y) {
                proof {
                    assert(row_of_text(row_parts[k as int]) is None);
                }
                return Err(ChessError::InvalidText);
            }
            proof {
                assert forall|p: Position| p.on_board() && p.y <= 7 - (k + 1) implies (#[trigger] at(
                    board,
                    p,
                )) is None by {
                    assert(at(board, p) == at(before, p));
                }
            }
            k += 1;
        }
        let ghost rows = placement_of_text(fen_parts[0]@)->0;

        let turn = if is_single(&fen_parts[1], 'w') {
            Color::White
        } else if is_single(&fen_parts[1], 'b') {
            Color::Black
        } else {
            return Err(ChessError::InvalidText);
        };

        let (white, black) = match parse_castling(&fen_parts[2]) {
            Some(rights) => rights,
            None => {
                return Err(ChessError::InvalidText);
            },
        };

        let en_passant = if is_single(&fen_parts[3], '-') {
            None
        } else {
            match square_from_chars(fen_parts[3].as_slice()) {
                Some(position) => Some(position),
                None => {
                    return Err(ChessError::InvalidText);
                },
            }
        };

        let n_half_moves = match parse_number(fen_parts[4].as_slice()) {
            Some(x) => x,
            None => {
                return Err(ChessError::InvalidText);
            },
        };
        let n_full_moves = match parse_number(fen_parts[5].as_slice()) {
            Some(x) => x,
            None => {
                return Err(ChessError::InvalidText);
            },
        };
        if n_full_moves == 0 {
            return Err(ChessError::InvalidText);
        }

        proof {
            assert forall|p: Position| p.on_board() implies #[trigger] at(board, p) == piece_of(
                cell_at(rows, p),
                p,
            ) by {
                assert(rows[7 - p.y] == row_of_text(row_parts[7 - p.y])->0);
            }
            assert forall|p: Position, c: Color|
                p.on_board() implies (#[trigger] holds_king(board, p, c) <==> cell_at(rows, p)
                == Some((PieceKind::K, c))) by {
                assert(at(board, p) == piece_of(cell_at(rows, p), p));
            }
        }
        let white_king = match locate_king(&board, Color::White) {
            Some(position) => position,
            None => {
                proof {
                    assert forall|p: Position| !is_lone_king(rows, p, Color::White) by {
                        if is_lone_king(rows, p, Color::White) {
                            assert(holds_king(board, p, Color::White));
                            assert forall|q: Position|
                                q.on_board() && #[trigger] holds_king(
                                    board,
                                    q,
                                    Color::White,
                                ) implies q == p by {
                                assert(cell_at(rows, q) == Some((PieceKind::K, Color::White)));
                            }
                            assert(only_king(board, p, Color::White));
                        }
                    }
                }
                return Err(ChessError::InvalidText);
            },
        };
        let black_king = match locate_king(&board, Color::Black) {
            Some(position) => position,
            None => {
                proof {
                    assert forall|p: Position| !is_lone_king(rows, p, Color::Black) by {
                        if is_lone_king(rows, p, Color::Black) {
                            assert(holds_king(board, p, Color::Black));
                            assert forall|q: Position|
                                q.on_board() && #[trigger] holds_king(
                                    board,
                                    q,
                                    Color::Black,
                                ) implies q == p by {
                                assert(cell_at(rows, q) == Some((PieceKind::K, Color::Black)));
                            }
                            assert(only_king(board, p, Color::Black));
                        }
                    }
                }
                return Err(ChessError::InvalidText);
            },
        };
        proof {
            assert forall|c: Color, k: Position| only_king(board, k, c) implies is_lone_king(
                rows,
                k,
                c,
            ) by {
                assert(holds_king(board, k, c));
                assert forall|q: Position|
                    q.on_board() && #[trigger] cell_at(rows, q) == Some(
                        (PieceKind::K, c),
                    ) implies q == k by {
                    assert(holds_king(board, q, c));
                }
            }
            assert(is_lone_king(rows, white_king, Color::White));
            assert(is_lone_king(rows, black_king, Color::Black));
        }

        let mut king_positions = table_with_capacity::<Position>(2);
        table_insert(&mut king_positions, 0, white_king);
        table_insert(&mut king_positions, 1, black_king);
        let mut castling = table_with_capacity::<[bool; 2]>(2);
        table_insert(&mut castling, 0, white);
        table_insert(&mut castling, 1, black);
        let mut history: Vec<String> = Vec::new();
        history.push(fen.to_owned());

        let result = Board {
            board,
            king_positions,
            turn,
            en_passant,
            castling,
            n_half_moves,
            n_full_moves,
            history,
        };
        proof {
            if en_passant is Some {
                lemma_text_square_exact(fen_parts[3]@);
            }
            assert(result@.history =~= seq![fen@]);
            assert(result@.king_positions.dom() =~= set![0u8, 1u8]);
            assert forall|p: Position| p.on_board() && (#[trigger] at(board, p)) is Some implies at(
                board,
                p,
            )->0.position == p by {
                assert(at(board, p) == piece_of(cell_at(rows, p), p));
            }
        }
        Ok(result)
    }
}

} // verus!
