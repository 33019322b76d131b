//! How a game stands: checkmate, stalemate, the draws, and the score that
//! the search gives a position.
use vstd::prelude::*;
use crate::board::{Board, BoardState, pieces_of, pieces_upto, texts};
use crate::legal::{in_check, legal_moves};
use crate::pieces::{Color, Piece, PieceKind};
use crate::text::{split, split_chars, to_chars};

verus! {

/// How a game stands.
#[derive(Clone, Copy, Debug, PartialEq, Eq, Structural)]
pub enum GameStatus {
    Ongoing,
    /// The side to move is mated; the colour is the winner's.
    Checkmate(Color),
    Stalemate,
    FiftyMoveDraw,
    RepetitionDraw,
    InsufficientMaterialDraw,
}

/// Whether every piece of the list is a king, a knight or a bishop.
pub open spec fn only_minor(pieces: Seq<Piece>) -> bool {
    forall|i: int|
        0 <= i < pieces.len() ==> {
            let kind = (#[trigger] pieces[i]).kind;
            kind == PieceKind::K || kind == PieceKind::N || kind == PieceKind::B
        }
}

/// Whether neither side can mate: each has at most two pieces, and none of
/// them is anything but a king, a knight or a bishop.
pub open spec fn material_draw(s: BoardState) -> bool {
    let white = pieces_of(s.board, Color::White);
    let black = pieces_of(s.board, Color::Black);
    white.len() <= 2 && black.len() <= 2 && only_minor(white) && only_minor(black)
}

/// The field with index `k` of a text whose fields are separated by single
/// spaces, and the empty text if it has no such field.
pub open spec fn field(t: Seq<char>, k: int) -> Seq<char> {
    let fields = split(t, ' ');
    if 0 <= k < fields.len() {
        fields[k]
    } else {
        Seq::empty()
    }
}

/// Whether two position texts show the same placement and side to move:
/// their first two fields agree.
pub open spec fn same_position(a: Seq<char>, b: Seq<char>) -> bool {
    field(a, 0) == field(b, 0) && field(a, 1) == field(b, 1)
}

/// How many of the entries from index `from` up to, not including, index
/// `to` show the same position as `current`.
pub open spec fn matches(history: Seq<Seq<char>>, current: Seq<char>, from: int, to: int) -> nat
    decreases to - from,
{
    if to <= from {
        0
    } else {
        matches(history, current, from, to - 1) + (if same_position(history[to - 1], current) {
            1nat
        } else {
            0nat
        })
    }
}

/// Whether the position of the last entry occurs at least twice among the
/// `window` entries before it, or among all entries before it if they are fewer.
pub open spec fn repeats_within(history: Seq<Seq<char>>, window: int) -> bool {
    let last = history.len() - 1;
    let from = if window >= last {
        0
    } else {
        last - window
    };
    matches(history, history[last], from, last) >= 2
}

/// Whether the position of the last entry of the record occurs three times
/// in the record.
pub open spec fn threefold(s: BoardState) -> bool {
    repeats_within(s.history, s.history.len() as int)
}

/// How the game stands in position `s`. The side to move is mated or
/// stalemated if it has no legal move; otherwise the game is drawn once the
/// half-move clock has reached 100, or by insufficient material, or by a
/// threefold repetition, in this order; otherwise it goes on.
pub open spec fn status_of(s: BoardState) -> GameStatus {
    if legal_moves(s).len() == 0 {
        if in_check(s, s.turn) {
            GameStatus::Checkmate(s.turn.other())
        } else {
            GameStatus::Stalemate
        }
    } else if s.n_half_moves >= 100 {
        GameStatus::FiftyMoveDraw
    } else if material_draw(s) {
        GameStatus::InsufficientMaterialDraw
    } else if threefold(s) {
        GameStatus::RepetitionDraw
    } else {
        GameStatus::Ongoing
    }
}

/// The material value of the first `n` pieces.
pub open spec fn material(pieces: Seq<Piece>, n: nat) -> int
    decreases n,
{
    if n == 0 {
        0
    } else {
        material(pieces, (n - 1) as nat) + pieces[n - 1].kind.value()
    }
}

/// White's material minus Black's.
pub open spec fn balance(s: BoardState) -> int {
    let white = pieces_of(s.board, Color::White);
    let black = pieces_of(s.board, Color::Black);
    material(white, white.len()) - material(black, black.len())
}

/// The score of a position, as White sees it: 1000 if Black is mated, -1000
/// if White is mated, 0 for a stalemate or a draw, and the balance of
/// material while the game goes on.
pub open spec fn score(s: BoardState) -> int {
    match status_of(s) {
        GameStatus::Checkmate(winner) => if winner == Color::White {
            1000
        } else {
            -1000
        },
        GameStatus::Ongoing => balance(s),
        _ => 0,
    }
}

/// A colour has at most as many pieces as squares were walked.
pub proof fn lemma_pieces_count(s: BoardState, c: Color, n: nat)
    ensures
        pieces_upto(s.board, c, n).len() <= n,
    decreases n,
{
    if n > 0 {
        lemma_pieces_count(s, c, (n - 1) as nat);
    }
}

/// The material of `n` pieces lies between 0 and 9 times `n`.
pub proof fn lemma_material_bound(pieces: Seq<Piece>, n: nat)
    ensures
        0 <= material(pieces, n) <= 9 * n,
    decreases n,
{
    if n > 0 {
        lemma_material_bound(pieces, (n - 1) as nat);
    }
}

/// The score of a position lies between -1000 and 1000.
pub proof fn lemma_score_bound(s: BoardState)
    ensures
        -1000 <= score(s) <= 1000,
{
    let white = pieces_of(s.board, Color::White);
    let black = pieces_of(s.board, Color::Black);
    lemma_pieces_count(s, Color::White, 64);
    lemma_pieces_count(s, Color::Black, 64);
    lemma_material_bound(white, white.len());
    lemma_material_bound(black, black.len());
}

/// The count of matching entries grows with the range.
pub proof fn lemma_matches_grows(
    history: Seq<Seq<char>>,
    current: Seq<char>,
    from: int,
    mid: int,
    to: int,
)
    requires
        from <= mid <= to,
    ensures
        matches(history, current, from, mid) <= matches(history, current, from, to),
    decreases to - mid,
{
    if mid < to {
        lemma_matches_grows(history, current, from, mid, to - 1);
    }
}

/// Whether two lists of characters are the same.
fn chars_equal(a: &Vec<char>, b: &Vec<char>) -> (same: bool)
    ensures
        same == (a@ == b@),
{
    if a.len() != b.len() {
        return false;
    }
    let mut i: usize = 0;
    while i < a.len()
        invariant
            i <= a.len(),
            a.len() == b.len(),
            forall|k: int| 0 <= k < i ==> a@[k] == b@[k],
        decreases a.len() - i,
    {
        if a[i] != b[i] {
            return false;
        }
        i += 1;
    }
    proof {
        assert(a@ =~= b@);
    }
    true
}

/// Whether the fields with index `k` of two split texts agree, a missing
/// field counting as empty.
fn fields_equal(
    a: &Vec<Vec<char>>,
    b: &Vec<Vec<char>>,
    k: usize,
    Ghost(s): Ghost<Seq<char>>,
    Ghost(t): Ghost<Seq<char>>,
) -> (same: bool)
    requires
        a.len() == split(s, ' ').len(),
        forall|i: int| 0 <= i < a.len() ==> (#[trigger] a[i])@ == split(s, ' ')[i],
        b.len() == split(t, ' ').len(),
        forall|i: int| 0 <= i < b.len() ==> (#[trigger] b[i])@ == split(t, ' ')[i],
    ensures
        same == (field(s, k as int) == field(t, k as int)),
{
    if k < a.len() && k < b.len() {
        chars_equal(&a[k], &b[k])
    } else if k < a.len() {
        proof {
            assert(a[k as int]@.len() == 0 <==> a[k as int]@ =~= Seq::<char>::empty());
        }
        a[k].len() == 0
    } else if k < b.len() {
        proof {
            assert(b[k as int]@.len() == 0 <==> b[k as int]@ =~= Seq::<char>::empty());
        }
        b[k].len() == 0
    } else {
        true
    }
}

impl Board {
    /// Whether neither side has the material to mate.
    pub fn is_material_draw(&self) -> (draw: bool)
        ensures
            draw == material_draw(self@),
    {
        let all_pieces = self.get_pieces();
        if all_pieces[0].len() > 2 || all_pieces[1].len() > 2 {
            return false;
        }
        let mut side: usize = 0;
        while side < 2
            invariant
                side <= 2,
                all_pieces[0]@ == pieces_of(self.board, Color::White),
                all_pieces[1]@ == pieces_of(self.board, Color::Black),
                all_pieces[0].len() <= 2,
                all_pieces[1].len() <= 2,
                side >= 1 ==> only_minor(all_pieces[0]@),
                side >= 2 ==> only_minor(all_pieces[1]@),
            decreases 2 - side,
        {
            let color_pieces = &all_pieces[side];
            let mut i: usize = 0;
            while i < color_pieces.len()
                invariant
                    i <= color_pieces.len(),
                    side < 2,
                    color_pieces@ == all_pieces[side as int]@,
                    all_pieces[0]@ == pieces_of(self.board, Color::White),
                    all_pieces[1]@ == pieces_of(self.board, Color::Black),
                    all_pieces[0].len() <= 2,
                    all_pieces[1].len() <= 2,
                    side >= 1 ==> only_minor(all_pieces[0]@),
                    forall|k: int|
                        0 <= k < i ==> {
                            let kind = (#[trigger] color_pieces@[k]).kind;
                            kind == PieceKind::K || kind == PieceKind::N || kind == PieceKind::B
                        },
                decreases color_pieces.len() - i,
            {
                let kind = color_pieces[i].kind;
                if !(kind == PieceKind::K || kind == PieceKind::N || kind == PieceKind::B) {
                    proof {
                        assert(!only_minor(color_pieces@));
                    }
                    return false;
                }
                i += 1;
            }
            side += 1;
        }
        true
    }

    /// Whether the position of the last entry of the record occurs at least
    /// twice among the `window` entries before it.
    pub fn repeats(&self, window: usize) -> (repeated: bool)
        requires
            self@.wf(),
        ensures
            repeated == repeats_within(self@.history, window as int),
    {
        let last = self.history.len() - 1;
        let from = if window >= last {
            0
        } else {
            last - window
        };
        let ghost history = self@.history;
        let current = split_chars(to_chars(self.history[last].as_str()).as_slice(), ' ');
        let mut repetition_count: u8 = 0;
        let mut i: usize = from;
        while i < last
            invariant
                from <= i <= last,
                last == self.history.len() - 1,
                from == (if window >= last {
                    0
                } else {
                    last - window
                }),
                history == self@.history,
                current.len() == split(history[last as int], ' ').len(),
                forall|k: int|
                    0 <= k < current.len() ==> (#[trigger] current[k])@ == split(
                        history[last as int],
                        ' ',
                    )[k],
                repetition_count == matches(history, history[last as int], from as int, i as int),
                repetition_count < 2,
            decreases last - i,
        {
            let historical = split_chars(to_chars(self.history[i].as_str()).as_slice(), ' ');
            assert(history[i as int] == self.history[i as int]@);
            let same = fields_equal(
                &historical,
                &current,
                0,
                Ghost(history[i as int]),
                Ghost(history[last as int]),
            ) && fields_equal(
                &historical,
                &current,
                1,
                Ghost(history[i as int]),
                Ghost(history[last as int]),
            );
            if same {
                repetition_count += 1;
                if repetition_count >= 2 {
                    proof {
                        assert(matches(history, history[last as int], from as int, i + 1) >= 2);
                        lemma_matches_grows(
                            history,
                            history[last as int],
                            from as int,
                            i + 1,
                            last as int,
                        );
                    }
                    return true;
                }
            }
            i += 1;
        }
        false
    }

    /// Whether the position of the last entry of the record occurs at least
    /// twice among the `n_moves` entries before it.
    pub fn is_repetition(&self, n_moves: u16) -> (repeated: bool)
        requires
            self@.wf(),
        ensures
            repeated == repeats_within(self@.history, n_moves as int),
    {
        self.repeats(n_moves as usize)
    }

    /// How the game stands.
    pub fn status(&self) -> (status: GameStatus)
        requires
            self@.wf(),
        ensures
            status == status_of(self@),
    {
        if self.no_possible_moves() {
            if self.is_king_in_check(&self.turn) {
                GameStatus::Checkmate(self.turn.opponent())
            } else {
                GameStatus::Stalemate
            }
        } else if self.n_half_moves >= 100 {
            GameStatus::FiftyMoveDraw
        } else if self.is_material_draw() {
            GameStatus::InsufficientMaterialDraw
        } else if self.repeats(self.history.len()) {
            GameStatus::RepetitionDraw
        } else {
            GameStatus::Ongoing
        }
    }

    /// The sum of the material values of `pieces`.
    fn count_material(pieces: &Vec<Piece>) -> (points: i32)
        requires
            pieces.len() <= 64,
        ensures
            points == material(pieces@, pieces.len() as nat),
            0 <= points <= 576,
    {
        let mut points: i32 = 0;
        let mut i: usize = 0;
        while i < pieces.len()
            invariant
                i <= pieces.len(),
                pieces.len() <= 64,
                points == material(pieces@, i as nat),
                0 <= points <= 9 * i,
            decreases pieces.len() - i,
        {
            points = points + pieces[i].points();
            i += 1;
        }
        points
    }

    /// The score of the position, as White sees it.
    pub fn count_points(&self) -> (points: i32)
        requires
            self@.wf(),
        ensures
            points == score(self@),
            -1000 <= points <= 1000,
    {
        proof {
            lemma_score_bound(self@);
        }
        match self.status() {
            GameStatus::Checkmate(winner) => match winner {
                Color::White => 1000,
                Color::Black => -1000,
            },
            GameStatus::Ongoing => {
                let all_pieces = self.get_pieces();
                proof {
                    lemma_pieces_count(self@, Color::White, 64);
                    lemma_pieces_count(self@, Color::Black, 64);
                }
                Board::count_material(&all_pieces[0]) - Board::count_material(&all_pieces[1])
            },
            _ => 0,
        }
    }
}

} // verus!
