//! The search bot: a fixed-depth minimax search with alpha-beta pruning.
use vstd::prelude::*;
use vstd::seq_lib::{to_multiset_contains, to_multiset_len};
use rand::SeedableRng;
use rand::rngs::StdRng;
use rand::seq::SliceRandom;
use crate::apply::after_move;
use crate::board::{admissible, Board, BoardState};
use crate::helpers::Move;
use crate::legal::{legal_moves, lemma_legal_move};
use crate::pieces::Color;
use crate::status::{lemma_score_bound, score};

verus! {

/// The better of two values for the side `turn`: the greater for White, the
/// smaller for Black.
pub open spec fn better(turn: Color, a: int, b: int) -> int {
    match turn {
        Color::White => if a >= b {
            a
        } else {
            b
        },
        Color::Black => if a <= b {
            a
        } else {
            b
        },
    }
}

/// The value of position `s` searched `depth` plies deep: its score if
/// `depth` is 0 or the side to move has no legal move, and otherwise the best
/// value, for the side to move, of the positions after its legal moves,
/// searched one ply less deep.
pub open spec fn minimax(s: BoardState, depth: nat) -> int
    decreases depth, 0nat, 0nat,
{
    if depth == 0 || legal_moves(s).len() == 0 {
        score(s)
    } else {
        best_value(s, legal_moves(s), (depth - 1) as nat, legal_moves(s).len())
    }
}

/// The best value, for the side to move in `s`, of the positions after the
/// first `n` of `moves`, each searched `depth` plies deep.
pub open spec fn best_value(s: BoardState, moves: Seq<Move>, depth: nat, n: nat) -> int
    decreases depth, 1nat, n,
{
    if n == 0 {
        0
    } else if n == 1 {
        minimax(after_move(s, moves[0]), depth)
    } else {
        better(
            s.turn,
            best_value(s, moves, depth, (n - 1) as nat),
            minimax(after_move(s, moves[n - 1]), depth),
        )
    }
}

/// The index, among the first `n` of `moves`, of the move with the best
/// value for the side to move in `s`; of several such moves, the first.
pub open spec fn best_index(s: BoardState, moves: Seq<Move>, depth: nat, n: nat) -> int
    decreases n,
{
    if n <= 1 {
        0
    } else {
        let before = best_index(s, moves, depth, (n - 1) as nat);
        let old_value = minimax(after_move(s, moves[before]), depth);
        let new_value = minimax(after_move(s, moves[n - 1]), depth);
        if new_value != old_value && better(s.turn, old_value, new_value) == new_value {
            n - 1
        } else {
            before
        }
    }
}

/// The move that the search picks among `moves`, searching `depth` plies
/// deep: the first of those whose position has the best value for the side
/// to move, and nothing if there is no move.
#[verifier::opaque]
pub open spec fn pick(s: BoardState, moves: Seq<Move>, depth: nat) -> Option<Move> {
    if moves.len() == 0 || depth == 0 {
        None
    } else {
        Some(moves[best_index(s, moves, (depth - 1) as nat, moves.len())])
    }
}

/// `v` limited to the window from `lo` to `hi`.
pub open spec fn clamp(v: int, lo: int, hi: int) -> int {
    if v <= lo {
        lo
    } else if v >= hi {
        hi
    } else {
        v
    }
}

/// The value of a position lies between -1000 and 1000.
pub proof fn lemma_minimax_bound(s: BoardState, depth: nat)
    ensures
        -1000 <= minimax(s, depth) <= 1000,
    decreases depth, 0nat, 0nat,
{
    lemma_score_bound(s);
    if depth > 0 && legal_moves(s).len() > 0 {
        lemma_best_value_bound(s, legal_moves(s), (depth - 1) as nat, legal_moves(s).len());
    }
}

/// The best value of at least one move lies between -1000 and 1000.
pub proof fn lemma_best_value_bound(s: BoardState, moves: Seq<Move>, depth: nat, n: nat)
    requires
        n >= 1,
    ensures
        -1000 <= best_value(s, moves, depth, n) <= 1000,
    decreases depth, 1nat, n,
{
    if n == 1 {
        lemma_minimax_bound(after_move(s, moves[0]), depth);
    } else {
        lemma_best_value_bound(s, moves, depth, (n - 1) as nat);
        lemma_minimax_bound(after_move(s, moves[n - 1]), depth);
    }
}

/// The best value of more moves is at least as good as that of fewer.
pub proof fn lemma_best_value_improves(s: BoardState, moves: Seq<Move>, depth: nat, n: nat, m: nat)
    requires
        1 <= n <= m,
    ensures
        better(s.turn, best_value(s, moves, depth, n), best_value(s, moves, depth, m))
            == best_value(s, moves, depth, m),
    decreases m,
{
    if n < m {
        lemma_best_value_improves(s, moves, depth, n, (m - 1) as nat);
    }
}

/// The best index is one of the indices considered, and its move has the
/// best value.
pub proof fn lemma_best_index(s: BoardState, moves: Seq<Move>, depth: nat, n: nat)
    requires
        n >= 1,
    ensures
        0 <= best_index(s, moves, depth, n) < n,
        minimax(after_move(s, moves[best_index(s, moves, depth, n)]), depth) == best_value(
            s,
            moves,
            depth,
            n,
        ),
    decreases n,
{
    if n > 1 {
        lemma_best_index(s, moves, depth, (n - 1) as nat);
    }
}

/// A name for the order in which `rand` leaves `items` when a generator
/// seeded with `seed` shuffles them.
pub uninterp spec fn seeded_shuffle(seed: u64, items: Seq<usize>) -> Seq<usize>;

/// Shuffles `order` with `SliceRandom::shuffle`, driven by a `StdRng` that
/// `SeedableRng::seed_from_u64` made from `seed`. The result holds the same
/// items as before, each as often as before; its order depends on the seed
/// and on the items alone.
#[verifier::external_body]
fn shuffle_with_seed(order: &mut Vec<usize>, seed: u64)
    ensures
        final(order)@ == seeded_shuffle(seed, old(order)@),
        final(order)@.to_multiset() == old(order)@.to_multiset(),
{
    let mut rng = StdRng::seed_from_u64(seed);
    order.shuffle(&mut rng);
}

/// The indices from 0 up to, not including, `n`.
pub open spec fn indices(n: nat) -> Seq<usize> {
    Seq::new(n, |i: int| i as usize)
}

/// `moves` in the order in which a shuffle with `seed` leaves them.
pub open spec fn shuffled(moves: Seq<Move>, seed: u64) -> Seq<Move> {
    let order = seeded_shuffle(seed, indices(moves.len()));
    Seq::new(order.len(), |i: int| moves[order[i] as int])
}

/// The move that the bot plays in `s` with the given depth and seed: what
/// the search picks among the legal moves in shuffled order.
pub open spec fn choice(s: BoardState, depth: nat, seed: u64) -> Option<Move> {
    pick(s, shuffled(legal_moves(s), seed), depth)
}

/// `moves` in the order in which a shuffle with `seed` leaves them.
pub fn shuffle_moves(moves: &Vec<Move>, seed: u64) -> (result: Vec<Move>)
    ensures
        result@ == shuffled(moves@, seed),
        result.len() == moves.len(),
        forall|k: int| 0 <= k < result.len() ==> moves@.contains(#[trigger] result@[k]),
{
    let mut order: Vec<usize> = Vec::new();
    let mut i: usize = 0;
    while i < moves.len()
        invariant
            i <= moves.len(),
            order@ == indices(i as nat),
        decreases moves.len() - i,
    {
        order.push(i);
        i += 1;
        proof {
            assert(order@ =~= indices(i as nat));
        }
    }
    let ghost before = order@;
    shuffle_with_seed(&mut order, seed);
    proof {
        to_multiset_len(before);
        to_multiset_len(order@);
        assert forall|k: int| 0 <= k < order.len() implies (#[trigger] order@[k]) < moves.len() by {
            let item = order@[k];
            assert(order@.contains(item));
            to_multiset_contains(order@, item);
            to_multiset_contains(before, item);
            assert(before.contains(item));
            let j = choose|j: int| 0 <= j < before.len() && before[j] == item;
            assert(before[j] == j as usize);
        }
    }
    let mut result: Vec<Move> = Vec::new();
    let mut k: usize = 0;
    while k < order.len()
        invariant
            k <= order.len(),
            order.len() == moves.len(),
            forall|j: int| 0 <= j < order.len() ==> (#[trigger] order@[j]) < moves.len(),
            result.len() == k,
            forall|j: int| 0 <= j < k ==> result@[j] == moves@[order@[j] as int],
        decreases order.len() - k,
    {
        result.push(moves[order[k]]);
        k += 1;
    }
    proof {
        assert(result@ =~= shuffled(moves@, seed));
    }
    result
}

/// The outcome of a search: a move and the value of the position after it.
pub struct AlphaBetaResult {
    pub le_move: Option<Move>,
    pub score: i32,
}

impl AlphaBetaResult {
    pub fn new(le_move: Move, score: i32) -> (result: AlphaBetaResult)
        ensures
            result.le_move == Some(le_move),
            result.score == score,
    {
        AlphaBetaResult { le_move: Some(le_move), score }
    }

    /// The outcome of a search that found no move.
    pub fn default() -> (result: AlphaBetaResult)
        ensures
            result.le_move is None,
            result.score == i32::MAX,
    {
        AlphaBetaResult { le_move: None, score: i32::MAX }
    }
}

/// Whether `best` is the outcome of the search over the first `n` of
/// `moves`: the first of the moves with the best value, and that value.
#[verifier::opaque]
pub open spec fn found_best(
    s: BoardState,
    moves: Seq<Move>,
    depth: nat,
    n: nat,
    best: AlphaBetaResult,
) -> bool {
    let index = best_index(s, moves, depth, n);
    &&& 0 <= index < n
    &&& best.le_move == Some(moves[index])
    &&& best.score == minimax(after_move(s, moves[index]), depth)
}

/// One step of the search over the moves: the outcome changes exactly when
/// the next move is strictly better for the side to move.
pub proof fn lemma_found_best_step(
    s: BoardState,
    moves: Seq<Move>,
    depth: nat,
    n: nat,
    before: AlphaBetaResult,
    after: AlphaBetaResult,
)
    requires
        n < moves.len(),
        n == 0 ==> after.le_move == Some(moves[0]) && after.score == minimax(
            after_move(s, moves[0]),
            depth,
        ),
        n > 0 ==> found_best(s, moves, depth, n, before),
        n > 0 ==> {
            let value = minimax(after_move(s, moves[n as int]), depth);
            if value != before.score && better(s.turn, before.score as int, value) == value {
                after.le_move == Some(moves[n as int]) && after.score == value
            } else {
                after == before
            }
        },
    ensures
        found_best(s, moves, depth, n + 1, after),
{
    reveal(found_best);
}

/// The outcome of the search over all of `moves` is the move that [`pick`] names.
pub proof fn lemma_pick(s: BoardState, moves: Seq<Move>, depth: nat, best: AlphaBetaResult)
    requires
        depth >= 1,
        moves.len() == 0 ==> best.le_move is None,
        moves.len() > 0 ==> found_best(s, moves, (depth - 1) as nat, moves.len(), best),
    ensures
        best.le_move == pick(s, moves, depth),
        best.le_move is Some ==> best.score == minimax(
            after_move(s, best.le_move->0),
            (depth - 1) as nat,
        ),
{
    reveal(pick);
    reveal(found_best);
}

/// The search picks a move exactly if there is one, and it picks one of them.
pub proof fn lemma_pick_is_a_move(s: BoardState, moves: Seq<Move>, depth: nat)
    requires
        depth >= 1,
    ensures
        pick(s, moves, depth) is Some <==> moves.len() > 0,
        pick(s, moves, depth) is Some ==> moves.contains(pick(s, moves, depth)->0),
{
    reveal(pick);
    if moves.len() > 0 {
        lemma_best_index(s, moves, (depth - 1) as nat, moves.len());
    }
}

/// Legal moves can be played.
pub proof fn lemma_all_playable(s: BoardState, moves: Seq<Move>)
    requires
        s.wf(),
        forall|k: int| 0 <= k < moves.len() ==> legal_moves(s).contains(#[trigger] moves[k]),
    ensures
        forall|k: int|
            0 <= k < moves.len() ==> admissible(s.board, s.en_passant, #[trigger] moves[k]),
{
    assert forall|k: int| 0 <= k < moves.len() implies admissible(
        s.board,
        s.en_passant,
        #[trigger] moves[k],
    ) by {
        lemma_legal_move(s, moves[k]);
    }
}

/// A bot that searches a fixed number of plies deep.
pub struct ChessBot {
    pub color: Color,
    /// The number of positions scored by the last search.
    pub n_calculations: usize,
    pub max_depth: u8,
}

/// Whether the counters of `s` leave room for `depth` more moves.
pub open spec fn room_for(s: BoardState, depth: int) -> bool {
    s.n_half_moves + depth <= u16::MAX && s.n_full_moves + depth <= u16::MAX
}

impl ChessBot {
    pub fn new(color: Color, max_depth: u8) -> (bot: ChessBot)
        ensures
            bot.color == color,
            bot.n_calculations == 0,
            bot.max_depth == max_depth,
    {
        ChessBot { color, n_calculations: 0, max_depth }
    }

    /// Counts one more scored position. The count stays at the largest
    /// value that it can hold once it has reached it.
    fn count_calculation(&mut self)
        ensures
            final(self).color == old(self).color,
            final(self).max_depth == old(self).max_depth,
            final(self).n_calculations == (if old(self).n_calculations < usize::MAX {
                old(self).n_calculations + 1
            } else {
                old(self).n_calculations as int
            }),
    {
        if self.n_calculations < usize::MAX {
            self.n_calculations += 1;
        }
    }

    /// The value of a position with White to move, searched `depth_left`
    /// plies deep and limited to the window from `alpha` to `beta`.
    pub fn alpha_beta_max(&mut self, board: Board, depth_left: u8, alpha: i32, beta: i32) -> (value:
        i32)
        requires
            board@.wf(),
            board.turn == Color::White,
            alpha < beta,
            room_for(board@, depth_left as int),
        ensures
            value == clamp(minimax(board@, depth_left as nat), alpha as int, beta as int),
            final(self).color == old(self).color,
            final(self).max_depth == old(self).max_depth,
        decreases depth_left, 1nat,
    {
        if depth_left == 0 {
            self.count_calculation();
            return Self::limit(board.count_points(), alpha, beta);
        }
        let all_moves = board.get_all_moves_of_color(board.turn);
        if all_moves.is_empty() {
            self.count_calculation();
            return Self::limit(board.count_points(), alpha, beta);
        }
        let ghost s = board@;
        let ghost depth = (depth_left - 1) as nat;
        let mut low = alpha;
        let mut score: i32 = i32::MIN;
        let mut i: usize = 0;
        proof {
            assert forall|k: int| 0 <= k < all_moves.len() implies legal_moves(s).contains(
                #[trigger] all_moves@[k],
            ) by {}
            lemma_all_playable(s, all_moves@);
        }
        while i < all_moves.len()
            invariant
                i <= all_moves.len(),
                all_moves@ == legal_moves(s),
                all_moves.len() > 0,
                s == board@,
                s.wf(),
                s.turn == Color::White,
                depth == depth_left - 1,
                room_for(s, depth_left as int),
                forall|k: int|
                    0 <= k < all_moves.len() ==> admissible(
                        s.board,
                        s.en_passant,
                        #[trigger] all_moves@[k],
                    ),
                alpha <= low < beta,
                score <= low,
                i == 0 ==> low == alpha,
                i > 0 ==> low == better(
                    Color::White,
                    alpha as int,
                    best_value(s, all_moves@, depth, i as nat),
                ),
                self.color == old(self).color,
                self.max_depth == old(self).max_depth,
            decreases all_moves.len() - i,
        {
            let move_to_try = all_moves[i];
            let child = board.try_move(move_to_try);
            let result = self.alpha_beta_min(child, depth_left - 1, low, beta);
            if result > score {
                score = result;
            }
            if score >= beta {
                proof {
                    let here = minimax(after_move(s, all_moves@[i as int]), depth);
                    assert(here >= beta);
                    assert(best_value(s, all_moves@, depth, (i + 1) as nat) >= here);
                    assert(minimax(s, depth_left as nat) == best_value(
                        s,
                        all_moves@,
                        depth,
                        all_moves.len() as nat,
                    ));
                    lemma_best_value_improves(
                        s,
                        all_moves@,
                        depth,
                        (i + 1) as nat,
                        all_moves.len() as nat,
                    );
                }
                return beta;
            }
            if score > low {
                low = score;
            }
            i += 1;
        }
        low
    }

    /// The value of a position with Black to move, searched `depth_left`
    /// plies deep and limited to the window from `alpha` to `beta`.
    pub fn alpha_beta_min(&mut self, board: Board, depth_left: u8, alpha: i32, beta: i32) -> (value:
        i32)
        requires
            board@.wf(),
            board.turn == Color::Black,
            alpha < beta,
            room_for(board@, depth_left as int),
        ensures
            value == clamp(minimax(board@, depth_left as nat), alpha as int, beta as int),
            final(self).color == old(self).color,
            final(self).max_depth == old(self).max_depth,
        decreases depth_left, 1nat,
    {
        if depth_left == 0 {
            self.count_calculation();
            return Self::limit(board.count_points(), alpha, beta);
        }
        let all_moves = board.get_all_moves_of_color(board.turn);
        if all_moves.is_empty() {
            self.count_calculation();
            return Self::limit(board.count_points(), alpha, beta);
        }
        let ghost s = board@;
        let ghost depth = (depth_left - 1) as nat;
        let mut high = beta;
        let mut score: i32 = i32::MAX;
        let mut i: usize = 0;
        proof {
            assert forall|k: int| 0 <= k < all_moves.len() implies legal_moves(s).contains(
                #[trigger] all_moves@[k],
            ) by {}
            lemma_all_playable(s, all_moves@);
        }
        while i < all_moves.len()
            invariant
                i <= all_moves.len(),
                all_moves@ == legal_moves(s),
                all_moves.len() > 0,
                s == board@,
                s.wf(),
                s.turn == Color::Black,
                depth == depth_left - 1,
                room_for(s, depth_left as int),
                forall|k: int|
                    0 <= k < all_moves.len() ==> admissible(
                        s.board,
                        s.en_passant,
                        #[trigger] all_moves@[k],
                    ),
                alpha < high <= beta,
                score >= high,
                i == 0 ==> high == beta,
                i > 0 ==> high == better(
                    Color::Black,
                    beta as int,
                    best_value(s, all_moves@, depth, i as nat),
                ),
                self.color == old(self).color,
                self.max_depth == old(self).max_depth,
            decreases all_moves.len() - i,
        {
            let move_to_try = all_moves[i];
            let child = board.try_move(move_to_try);
            let result = self.alpha_beta_max(child, depth_left - 1, alpha, high);
            if result < score {
                score = result;
            }
            if score <= alpha {
                proof {
                    let here = minimax(after_move(s, all_moves@[i as int]), depth);
                    assert(here <= alpha);
                    assert(best_value(s, all_moves@, depth, (i + 1) as nat) <= here);
                    assert(minimax(s, depth_left as nat) == best_value(
                        s,
                        all_moves@,
                        depth,
                        all_moves.len() as nat,
                    ));
                    lemma_best_value_improves(
                        s,
                        all_moves@,
                        depth,
                        (i + 1) as nat,
                        all_moves.len() as nat,
                    );
                }
                return alpha;
            }
            if score < high {
                high = score;
            }
            i += 1;
        }
        high
    }

    /// The value of the position after `m`, searched one ply less deep than
    /// the bot searches and limited to the window from `alpha` to `beta`.
    fn search_after(&mut self, board: &Board, m: Move, alpha: i32, beta: i32) -> (value: i32)
        requires
            board@.wf(),
            admissible(board.board, board.en_passant, m),
            old(self).max_depth >= 1,
            room_for(board@, old(self).max_depth as int),
            alpha < beta,
        ensures
            value == clamp(
                minimax(after_move(board@, m), (old(self).max_depth - 1) as nat),
                alpha as int,
                beta as int,
            ),
            -1000 <= minimax(after_move(board@, m), (old(self).max_depth - 1) as nat) <= 1000,
            final(self).color == old(self).color,
            final(self).max_depth == old(self).max_depth,
    {
        let child = board.try_move(m);
        proof {
            lemma_minimax_bound(child@, (self.max_depth - 1) as nat);
        }
        match board.turn {
            Color::White => self.alpha_beta_min(child, self.max_depth - 1, alpha, beta),
            Color::Black => self.alpha_beta_max(child, self.max_depth - 1, alpha, beta),
        }
    }

    /// Searches the positions after each of `candidates`, which are legal
    /// moves of `board`, and picks the first of those with the best value for
    /// the side to move.
    pub fn alpha_beta_outer(&mut self, board: Board, candidates: Vec<Move>) -> (result:
        AlphaBetaResult)
        requires
            board@.wf(),
            old(self).max_depth >= 1,
            room_for(board@, old(self).max_depth as int),
            forall|k: int|
                0 <= k < candidates.len() ==> legal_moves(board@).contains(
                    #[trigger] candidates@[k],
                ),
        ensures
            result.le_move == pick(board@, candidates@, old(self).max_depth as nat),
            result.le_move is Some ==> result.score == minimax(
                after_move(board@, result.le_move->0),
                (old(self).max_depth - 1) as nat,
            ),
            final(self).color == old(self).color,
            final(self).max_depth == old(self).max_depth,
    {
        let ghost s = board@;
        let ghost depth = (self.max_depth - 1) as nat;
        let mut best_move = AlphaBetaResult::default();
        let mut alpha: i32 = i32::MIN;
        let mut beta: i32 = i32::MAX;
        let mut i: usize = 0;
        proof {
            lemma_all_playable(s, candidates@);
        }
        while i < candidates.len()
            invariant
                i <= candidates.len(),
                s == board@,
                s.wf(),
                self.max_depth >= 1,
                depth == self.max_depth - 1,
                room_for(s, self.max_depth as int),
                forall|k: int|
                    0 <= k < candidates.len() ==> admissible(
                        s.board,
                        s.en_passant,
                        #[trigger] candidates@[k],
                    ),
                alpha < beta,
                i == 0 ==> alpha == i32::MIN && beta == i32::MAX && best_move.le_move is None,
                i > 0 ==> found_best(s, candidates@, depth, i as nat, best_move),
                i > 0 ==> -1000 <= best_move.score <= 1000 && best_move.le_move is Some,
                i > 0 && s.turn == Color::White ==> alpha == best_move.score && beta == i32::MAX,
                i > 0 && s.turn == Color::Black ==> beta == best_move.score && alpha == i32::MIN,
                self.color == old(self).color,
                self.max_depth == old(self).max_depth,
            decreases candidates.len() - i,
        {
            let move_to_try = candidates[i];
            let ghost before = best_move;
            let score = self.search_after(&board, move_to_try, alpha, beta);
            match board.turn {
                Color::White => {
                    if score > alpha {
                        alpha = score;
                        best_move = AlphaBetaResult::new(move_to_try, score);
                    }
                },
                Color::Black => {
                    if score < beta {
                        beta = score;
                        best_move = AlphaBetaResult::new(move_to_try, score);
                    }
                },
            }
            proof {
                lemma_found_best_step(s, candidates@, depth, i as nat, before, best_move);
            }
            i += 1;
        }
        proof {
            lemma_pick(s, candidates@, self.max_depth as nat, best_move);
        }
        best_move
    }

    /// The move that the bot plays on `board`: the legal moves are shuffled
    /// with `seed`, and the search picks the first of those with the best
    /// value. There is no move to play only if the side to move has no legal
    /// move.
    pub fn get_bot_move(&mut self, board: &Board, seed: u64) -> (chosen: Option<Move>)
        requires
            board@.wf(),
            old(self).max_depth >= 1,
            room_for(board@, old(self).max_depth as int),
        ensures
            chosen == choice(board@, old(self).max_depth as nat, seed),
            chosen is Some <==> legal_moves(board@).len() > 0,
            chosen is Some ==> legal_moves(board@).contains(chosen->0),
            final(self).color == board.turn,
            final(self).max_depth == old(self).max_depth,
    {
        self.color = board.turn;
        self.n_calculations = 0;
        let all_moves = board.get_all_moves_of_color(board.turn);
        let candidates = shuffle_moves(&all_moves, seed);
        proof {
            lemma_pick_is_a_move(board@, candidates@, self.max_depth as nat);
        }
        let best_move = self.alpha_beta_outer(board.duplicate(), candidates);
        proof {
            if best_move.le_move is Some {
                let chosen = best_move.le_move->0;
                let k = choose|k: int| 0 <= k < candidates.len() && candidates@[k] == chosen;
                assert(all_moves@.contains(candidates@[k]));
            }
        }
        best_move.le_move
    }

    /// `points` limited to the window from `alpha` to `beta`.
    fn limit(points: i32, alpha: i32, beta: i32) -> (value: i32)
        requires
            alpha < beta,
        ensures
            value == clamp(points as int, alpha as int, beta as int),
    {
        if points <= alpha {
            alpha
        } else if points >= beta {
            beta
        } else {
            points
        }
    }
}

} // verus!
