//! Move application: what a move changes in a position.
use vstd::prelude::*;
use crate::board::{admissible, after_capture_in_passing, after_rook, at, Board, BoardState,
    capture_in_passing, castles, Grid, grid_put, grid_relocate, holds_color, lemma_placement_agrees,
    placement_after, play_on_grid};
use crate::color_map::{color_key, key_of, table_insert};
use crate::errors::ChessError;
use crate::fen::fen_text;
use crate::helpers::{Move, Position};
use crate::legal::{in_check, legal_moves, lemma_legal_move, plain_move};
use crate::moves::{get_rook_old_and_new_castling_positions, rook_castling_squares};
use crate::pieces::{Color, Piece, PieceKind};
use crate::sound::{law_kings_stay_recorded, law_play_keeps_sound, law_played_move_leaves_king_safe,
    sound};
use crate::utils::was_en_passant_played;
use crate::utils::{en_passant_after, get_en_passant};

verus! {

/// The square on which a rook of colour `c` starts: file h on the king's
/// side if `short`, file a on the queen's side otherwise.
pub open spec fn rook_home(c: Color, short: bool) -> Position {
    Position { x: if short { 0usize } else { 7usize }, y: c.home_row() }
}

/// Whether `m` takes a piece, on the square it goes to or in passing.
pub open spec fn is_capture(s: BoardState, m: Move) -> bool {
    at(s.board, m.to) is Some || capture_in_passing(s.board, s.en_passant, m) is Some
}

/// The castling rights of colour `c` after `m`. A right is only ever lost:
/// both when the own king moves, one when the own rook leaves its home
/// square, and one when a piece is taken on that rook's home square.
pub open spec fn rights_after(s: BoardState, m: Move, c: Color) -> [bool; 2] {
    let mover = at(s.board, m.from)->0;
    let before = s.castling[key_of(c)];
    if mover.color == c {
        if mover.kind == PieceKind::K {
            [false, false]
        } else {
            [
                before[0] && !(mover.kind == PieceKind::R && m.from == rook_home(c, true)),
                before[1] && !(mover.kind == PieceKind::R && m.from == rook_home(c, false)),
            ]
        }
    } else {
        [
            before[0] && !(at(s.board, m.to) is Some && m.to == rook_home(c, true)),
            before[1] && !(at(s.board, m.to) is Some && m.to == rook_home(c, false)),
        ]
    }
}

/// The half-move clock after `m`: 0 after a pawn move or a capture, and one
/// more than before otherwise.
pub open spec fn clock_after(s: BoardState, m: Move) -> int {
    if at(s.board, m.from)->0.kind == PieceKind::P || is_capture(s, m) {
        0
    } else {
        s.n_half_moves + 1
    }
}

/// The position once `m` has been played on the board: the pieces stand as
/// [`placement_after`] says, a king that moved is recorded on its new square,
/// castling rights, en-passant target and half-move clock are updated. The
/// side to move, the move number and the record are still those of before.
pub open spec fn moved(s: BoardState, m: Move) -> BoardState {
    let mover = at(s.board, m.from)->0;
    BoardState {
        board: placement_after(s.board, s.en_passant, m),
        king_positions: if mover.kind == PieceKind::K {
            s.king_positions.insert(key_of(mover.color), m.to)
        } else {
            s.king_positions
        },
        castling: s.castling.insert(0u8, rights_after(s, m, Color::White)).insert(
            1u8,
            rights_after(s, m, Color::Black),
        ),
        en_passant: en_passant_after(mover.kind, m.from, m.to),
        n_half_moves: clock_after(s, m) as u16,
        ..s
    }
}

/// The position once the turn has passed: the move number is one higher
/// after Black's move, and the other side is to move.
pub open spec fn turned(s: BoardState) -> BoardState {
    BoardState {
        n_full_moves: if s.turn == Color::Black {
            (s.n_full_moves + 1) as u16
        } else {
            s.n_full_moves
        },
        turn: s.turn.other(),
        ..s
    }
}

/// The position after `m`, with the record left as it was.
pub open spec fn after_move(s: BoardState, m: Move) -> BoardState {
    turned(moved(s, m))
}

/// The position with its own text added to the record.
pub open spec fn recorded(s: BoardState) -> BoardState {
    BoardState { history: s.history.push(fen_text(s)), ..s }
}

/// The position after `m`, with its text added to the record.
pub open spec fn played(s: BoardState, m: Move) -> BoardState {
    recorded(after_move(s, m))
}

/// Whether the counters leave room for one more move.
pub open spec fn has_room(s: BoardState) -> bool {
    s.n_half_moves < u16::MAX && s.n_full_moves < u16::MAX
}

/// Whether `m` may be played: the move from `m.from` to `m.to` is a legal
/// move of the side to move, and if `m` names a kind to promote to, it brings
/// a pawn to the last rank and the kind is queen, rook, bishop or knight.
pub open spec fn is_playable(s: BoardState, m: Move) -> bool {
    &&& legal_moves(s).contains(plain_move(m.from, m.to))
    &&& match m.promotion {
        None => true,
        Some(kind) => crate::board::promotes(s.board, m) && kind != PieceKind::K && kind
            != PieceKind::P,
    }
}

/// What keeps `m` from being played on `g`, if anything: a square off the
/// board, no piece where a relocation starts, or a piece of the same colour
/// where it ends.
pub open spec fn move_fault(g: Grid, en_passant: Option<Position>, m: Move) -> Option<ChessError> {
    let rook_from = rook_castling_squares(m.to).0;
    let rook_to = rook_castling_squares(m.to).1;
    let g1 = after_capture_in_passing(g, en_passant, m);
    let g2 = after_rook(g, en_passant, m);
    if !m.from.on_board() || !m.to.on_board() {
        Some(ChessError::OutOfRange)
    } else if at(g, m.from) is None {
        Some(ChessError::NoPiece)
    } else if castles(g, m) && at(g1, rook_from) is None {
        Some(ChessError::NoPiece)
    } else if castles(g, m) && holds_color(g1, rook_to, at(g1, rook_from)->0.color) {
        Some(ChessError::OwnCapture)
    } else if at(g2, m.from) is None {
        Some(ChessError::NoPiece)
    } else if holds_color(g2, m.to, at(g2, m.from)->0.color) {
        Some(ChessError::OwnCapture)
    } else {
        None
    }
}

/// A move can be played exactly if nothing keeps it from being played.
pub proof fn lemma_move_fault(g: Grid, en_passant: Option<Position>, m: Move)
    ensures
        move_fault(g, en_passant, m) is None <==> admissible(g, en_passant, m),
{
}

/// A move that can be played leaves a well-formed position.
pub proof fn lemma_moved_wf(s: BoardState, m: Move)
    requires
        s.wf(),
        admissible(s.board, s.en_passant, m),
        s.n_half_moves < u16::MAX,
    ensures
        moved(s, m).wf(),
{
    lemma_placement_agrees(s.board, s.en_passant, m);
}

impl Board {
    pub fn increase_half_move(&mut self)
        requires
            old(self).n_half_moves < u16::MAX,
        ensures
            final(self)@ == (BoardState {
                n_half_moves: (old(self).n_half_moves + 1) as u16,
                ..old(self)@
            }),
    {
        self.n_half_moves += 1;
    }

    pub fn increase_full_move(&mut self)
        requires
            old(self).n_full_moves < u16::MAX,
        ensures
            final(self)@ == (BoardState {
                n_full_moves: (old(self).n_full_moves + 1) as u16,
                ..old(self)@
            }),
    {
        self.n_full_moves += 1;
    }

    pub fn reset_half_move(&mut self)
        ensures
            final(self)@ == (BoardState { n_half_moves: 0, ..old(self)@ }),
    {
        self.n_half_moves = 0;
    }

    /// Plays `piece_move` on the board: moves the pieces and updates king
    /// squares, castling rights, en-passant target and half-move clock. The
    /// turn does not pass yet.
    pub fn bust_a_move(&mut self, piece_move: Move)
        requires
            old(self)@.wf(),
            admissible(old(self).board, old(self).en_passant, piece_move),
            old(self).n_half_moves < u16::MAX,
        ensures
            final(self)@ == moved(old(self)@, piece_move),
            final(self)@.wf(),
    {
        let ghost before = self@;
        let piece = match self.board[piece_move.from.x][piece_move.from.y] {
            Some(piece) => piece,
            None => Piece::new(Color::White, PieceKind::P, piece_move.from),
        };
        let taken = self.board[piece_move.to.x][piece_move.to.y];
        let is_capture = taken.is_some();
        let reset_half_moves = is_capture || piece.kind == PieceKind::P;

        let white = self.castling_rights(Color::White);
        let black = self.castling_rights(Color::Black);
        let new_white = Board::rights_after_move(white, Color::White, piece, piece_move, is_capture);
        let new_black = Board::rights_after_move(black, Color::Black, piece, piece_move, is_capture);
        table_insert(&mut self.castling, 0, new_white);
        table_insert(&mut self.castling, 1, new_black);

        if piece.kind == PieceKind::K {
            table_insert(&mut self.king_positions, color_key(piece.color), piece_move.to);
        }

        play_on_grid(&mut self.board, &self.en_passant, piece_move);
        self.en_passant = get_en_passant(&piece.kind, &piece_move.from, &piece_move.to);
        if reset_half_moves {
            self.reset_half_move();
        } else {
            self.increase_half_move();
        }
        proof {
            assert(before.castling == old(self)@.castling);
            lemma_moved_wf(before, piece_move);
            assert(new_white =~= rights_after(before, piece_move, Color::White));
            assert(new_black =~= rights_after(before, piece_move, Color::Black));
            assert(self@.castling =~= moved(before, piece_move).castling);
            assert(self@.king_positions =~= moved(before, piece_move).king_positions);
            assert(self@ == moved(before, piece_move));
        }
    }

    /// The rights of `color` after `piece` has made `piece_move`.
    fn rights_after_move(
        rights: [bool; 2],
        color: Color,
        piece: Piece,
        piece_move: Move,
        is_capture: bool,
    ) -> (after: [bool; 2])
        ensures
            after[0] == (if piece.color == color {
                piece.kind != PieceKind::K && rights[0] && !(piece.kind == PieceKind::R
                    && piece_move.from == rook_home(color, true))
            } else {
                rights[0] && !(is_capture && piece_move.to == rook_home(color, true))
            }),
            after[1] == (if piece.color == color {
                piece.kind != PieceKind::K && rights[1] && !(piece.kind == PieceKind::R
                    && piece_move.from == rook_home(color, false))
            } else {
                rights[1] && !(is_capture && piece_move.to == rook_home(color, false))
            }),
    {
        let row: usize = match color {
            Color::White => 0,
            Color::Black => 7,
        };
        if piece.color == color {
            if piece.kind == PieceKind::K {
                [false, false]
            } else {
                let is_rook = piece.kind == PieceKind::R;
                [
                    rights[0] && !(is_rook && piece_move.from.x == 0 && piece_move.from.y == row),
                    rights[1] && !(is_rook && piece_move.from.x == 7 && piece_move.from.y == row),
                ]
            }
        } else {
            [
                rights[0] && !(is_capture && piece_move.to.x == 0 && piece_move.to.y == row),
                rights[1] && !(is_capture && piece_move.to.x == 7 && piece_move.to.y == row),
            ]
        }
    }

    /// Passes the turn: the move number goes up after Black's move and the
    /// other side is to move. With `save_history` the text of the new
    /// position is added to the record.
    pub fn set_values_at_the_end(&mut self, save_history: bool)
        requires
            old(self)@.wf(),
            old(self).n_full_moves < u16::MAX,
        ensures
            final(self)@ == (if save_history {
                recorded(turned(old(self)@))
            } else {
                turned(old(self)@)
            }),
            final(self)@.wf(),
    {
        if self.turn == Color::Black {
            self.increase_full_move();
        }
        self.turn = self.turn.opponent();
        if save_history {
            let text = self.to_fen();
            self.history.push(text);
            proof {
                assert(self@.history =~= turned(old(self)@).history.push(fen_text(turned(old(self)@))));
            }
        } else {
            proof {
                assert(self@.history =~= old(self)@.history);
            }
        }
    }

    /// A copy of this position that shares nothing with it.
    pub fn duplicate(&self) -> (copy: Board)
        ensures
            copy@ == self@,
    {
        let mut history: Vec<String> = Vec::new();
        let mut i: usize = 0;
        while i < self.history.len()
            invariant
                i <= self.history.len(),
                history.len() == i,
                forall|k: int| 0 <= k < i ==> (#[trigger] history[k])@ == self.history[k]@,
            decreases self.history.len() - i,
        {
            history.push(self.history[i].clone());
            i += 1;
        }
        let copy = Board {
            board: self.board,
            king_positions: self.king_positions.clone(),
            turn: self.turn,
            en_passant: self.en_passant,
            castling: self.castling.clone(),
            n_half_moves: self.n_half_moves,
            n_full_moves: self.n_full_moves,
            history,
        };
        proof {
            assert(copy@.history =~= self@.history);
        }
        copy
    }

    /// The position after `move_to_try`, with the record left as it was.
    /// This position itself is not changed.
    pub fn try_move(&self, move_to_try: Move) -> (board: Board)
        requires
            self@.wf(),
            admissible(self.board, self.en_passant, move_to_try),
            has_room(self@),
        ensures
            board@ == after_move(self@, move_to_try),
            board@.wf(),
    {
        let mut board = self.duplicate();
        board.bust_a_move(move_to_try);
        board.set_values_at_the_end(false);
        board
    }

    /// Whether `m` is one of the legal moves of the side to move, the kind
    /// to promote to aside.
    pub fn is_legal_move(&self, m: Move) -> (legal: bool)
        requires
            self@.wf(),
        ensures
            legal == legal_moves(self@).contains(plain_move(m.from, m.to)),
    {
        let all_moves = self.get_all_moves_of_color(self.turn);
        let mut i: usize = 0;
        while i < all_moves.len()
            invariant
                i <= all_moves.len(),
                all_moves@ == legal_moves(self@),
                forall|k: int| 0 <= k < i ==> all_moves@[k] != plain_move(m.from, m.to),
            decreases all_moves.len() - i,
        {
            let candidate = all_moves[i];
            if candidate.from == m.from && candidate.to == m.to && candidate.promotion.is_none() {
                return true;
            }
            i += 1;
        }
        false
    }

    /// Says what keeps `m` from being played, if anything. A move that
    /// passes can be handed to [`Board::bust_a_move`] and [`Board::try_move`].
    pub fn check_move(&self, m: Move) -> (result: Result<(), ChessError>)
        ensures
            result is Ok <==> admissible(self.board, self.en_passant, m),
            match result {
                Ok(_) => move_fault(self.board, self.en_passant, m) is None,
                Err(e) => move_fault(self.board, self.en_passant, m) == Some(e),
            },
    {
        proof {
            lemma_move_fault(self.board, self.en_passant, m);
        }
        if m.from.x >= 8 || m.from.y >= 8 || m.to.x >= 8 || m.to.y >= 8 {
            return Err(ChessError::OutOfRange);
        }
        let mover = match self.board[m.from.x][m.from.y] {
            Some(piece) => piece,
            None => {
                return Err(ChessError::NoPiece);
            },
        };
        let mut grid = self.board;
        if was_en_passant_played(&mover.kind, &m.to, &self.en_passant) {
            let victim = Position::new(m.to.x, m.from.y);
            if let Some(taken) = grid[victim.x][victim.y] {
                if taken.color != mover.color && taken.kind == PieceKind::P {
                    grid_put(&mut grid, victim, None);
                }
            }
        }
        if mover.kind == PieceKind::K && (m.to.x == m.from.x + 2 || m.from.x == m.to.x + 2) {
            let (rook_from, rook_to) = get_rook_old_and_new_castling_positions(&m.to);
            let rook = match grid[rook_from.x][rook_from.y] {
                Some(piece) => piece,
                None => {
                    return Err(ChessError::NoPiece);
                },
            };
            if let Some(blocker) = grid[rook_to.x][rook_to.y] {
                if blocker.color == rook.color {
                    return Err(ChessError::OwnCapture);
                }
            }
            grid_relocate(&mut grid, rook_from, rook_to);
        }
        let piece = match grid[m.from.x][m.from.y] {
            Some(piece) => piece,
            None => {
                return Err(ChessError::NoPiece);
            },
        };
        if let Some(target) = grid[m.to.x][m.to.y] {
            if target.color == piece.color {
                return Err(ChessError::OwnCapture);
            }
        }
        Ok(())
    }

    /// Plays a legal move: the pieces move, the turn passes and the text of
    /// the new position is added to the record. Any other move is refused
    /// and leaves the position as it was.
    pub fn apply_move(&mut self, m: Move) -> (result: Result<(), ChessError>)
        requires
            old(self)@.wf(),
            has_room(old(self)@),
        ensures
            result is Ok <==> is_playable(old(self)@, m),
            result is Ok ==> final(self)@ == played(old(self)@, m),
            result is Err ==> final(self)@ == old(self)@ && result->Err_0 == ChessError::IllegalMove,
            final(self)@.wf(),
            result is Ok ==> !in_check(final(self)@, old(self).turn),
            sound(old(self)@) ==> sound(final(self)@),
            old(self)@.kings_ok() && m.to != old(self)@.king_of(old(self).turn.other())
                ==> final(self)@.kings_ok(),
    {
        proof {
            if is_playable(self@, m) {
                law_played_move_leaves_king_safe(self@, m);
                if sound(self@) {
                    law_play_keeps_sound(self@, m);
                }
                if self@.kings_ok() && m.to != self@.king_of(self.turn.other()) {
                    law_kings_stay_recorded(self@, m);
                }
            }
        }
        if !self.is_legal_move(m) {
            return Err(ChessError::IllegalMove);
        }
        proof {
            lemma_legal_move(self@, plain_move(m.from, m.to));
        }
        if let Some(kind) = m.promotion {
            let promotes = match self.board[m.from.x][m.from.y] {
                Some(piece) => piece.kind == PieceKind::P && (m.to.y == 0 || m.to.y == 7),
                None => false,
            };
            if !promotes || kind == PieceKind::K || kind == PieceKind::P {
                return Err(ChessError::IllegalMove);
            }
        }
        self.bust_a_move(m);
        self.set_values_at_the_end(true);
        Ok(())
    }
}

} // verus!
