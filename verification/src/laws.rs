//! Laws that relate the operations of the library to each other.
use vstd::prelude::*;
use crate::apply::{after_move, has_room, is_playable, moved, played, rights_after};
use crate::board::{at, BoardState, holds_king, is_start};
use crate::color_map::key_of;
use crate::fen::{data_of, fen_text, lemma_data_of_sound, lemma_data_round_trip, lemma_shows_data,
    parse_fen};
use crate::helpers::{Move, Position};
use crate::legal::{in_check, legal_moves, lemma_legal_move};
use crate::pieces::Color;
use crate::sound::{law_play_keeps_sound, law_start_is_sound, sound};
use crate::start::lemma_start_text;

verus! {

/// Reading the text of a position and writing the result gives the same
/// text: the text of a well-formed position with one king of each colour can
/// be read, it says what the position holds, and the position `t` that it
/// sets up has the same text.
pub proof fn law_text_round_trip(s: BoardState, t: BoardState)
    requires
        s.wf(),
        s.kings_ok(),
        parse_fen(fen_text(s)) is Some ==> t.shows(parse_fen(fen_text(s))->0),
    ensures
        parse_fen(fen_text(s)) == Some(data_of(s)),
        fen_text(t) == fen_text(s),
{
    lemma_data_of_sound(s);
    lemma_data_round_trip(data_of(s));
    lemma_shows_data(t, data_of(s));
}

/// After a legal move of the side to move, the other side is to move and the
/// king of the side that moved is not attacked.
pub proof fn law_legal_move_leaves_king_safe(s: BoardState, m: Move)
    requires
        s.wf(),
        legal_moves(s).contains(m),
    ensures
        after_move(s, m).turn == s.turn.other(),
        !in_check(after_move(s, m), s.turn),
        played(s, m).turn == s.turn.other(),
        !in_check(played(s, m), s.turn),
{
    lemma_legal_move(s, m);
    assert(at(s.board, m.from)->0.color == s.turn);
}

/// Playing a move adds one entry to the record, and that entry is the text
/// of the new position.
pub proof fn law_move_is_recorded(s: BoardState, m: Move)
    ensures
        played(s, m).history.len() == s.history.len() + 1,
        played(s, m).history.last() == fen_text(played(s, m)),
{
    assert(data_of(played(s, m)) == data_of(after_move(s, m)));
}

/// In a position as it arises in play, the recorded king square of a colour
/// is the one square that holds the king of that colour.
pub proof fn law_king_square_is_the_kings(s: BoardState, c: Color, p: Position)
    requires
        sound(s),
        p.on_board(),
    ensures
        holds_king(s.board, p, c) <==> p == s.king_of(c),
{
    assert(s.king_ok(c));
}

/// A move never gives a castling right back.
pub proof fn law_rights_are_only_lost(s: BoardState, m: Move, c: Color, side: int)
    requires
        0 <= side < 2,
    ensures
        rights_after(s, m, c)[side] ==> s.castling[key_of(c)][side],
        moved(s, m).castling[key_of(c)] == rights_after(s, m, c),
{
}

/// The position after the first `n` moves of `line` have been played from `s`.
pub open spec fn after_line(s: BoardState, line: Seq<Move>, n: nat) -> BoardState
    decreases n,
{
    if n == 0 {
        s
    } else {
        played(after_line(s, line, (n - 1) as nat), line[n - 1])
    }
}

/// Whether `line` can be played from `s`: each move may be played in the
/// position that the moves before it lead to, and the counters have room for it.
pub open spec fn is_line_of_play(s: BoardState, line: Seq<Move>) -> bool {
    forall|i: int|
        0 <= i < line.len() ==> {
            let before = #[trigger] after_line(s, line, i as nat);
            has_room(before) && is_playable(before, line[i])
        }
}

/// Every position reached from the starting position by legal play is a
/// position as it arises in play: its kings are where it says, and the side
/// that has just moved is not in check.
pub proof fn law_play_from_start_is_sound(s: BoardState, line: Seq<Move>, n: nat)
    requires
        is_start(s),
        is_line_of_play(s, line),
        n <= line.len(),
    ensures
        sound(after_line(s, line, n)),
    decreases n,
{
    if n == 0 {
        law_start_is_sound(s);
    } else {
        law_play_from_start_is_sound(s, line, (n - 1) as nat);
        let before = after_line(s, line, (n - 1) as nat);
        assert(has_room(before) && is_playable(before, line[n - 1]));
        law_play_keeps_sound(before, line[n - 1]);
    }
}

/// The record of a game that started in the starting position holds the
/// text of the position after each move, the starting position included.
pub proof fn law_record_of_a_game(s: BoardState, line: Seq<Move>, n: nat, k: nat)
    requires
        is_start(s),
        k <= n,
    ensures
        after_line(s, line, n).history.len() == n + 1,
        after_line(s, line, n).history[k as int] == fen_text(after_line(s, line, k)),
    decreases n,
{
    if n == 0 {
        lemma_start_text(s);
    } else {
        let before = after_line(s, line, (n - 1) as nat);
        law_move_is_recorded(before, line[n - 1]);
        if k < n {
            law_record_of_a_game(s, line, (n - 1) as nat, k);
        } else {
            law_record_of_a_game(s, line, (n - 1) as nat, (n - 1) as nat);
        }
    }
}

/// The text of a position reached from the starting position by legal play
/// can be read, and the position `t` that it sets up has the same text.
pub proof fn law_text_round_trip_in_play(s: BoardState, line: Seq<Move>, n: nat, t: BoardState)
    requires
        is_start(s),
        is_line_of_play(s, line),
        n <= line.len(),
        parse_fen(fen_text(after_line(s, line, n))) is Some ==> t.shows(
            parse_fen(fen_text(after_line(s, line, n)))->0,
        ),
    ensures
        parse_fen(fen_text(after_line(s, line, n))) == Some(data_of(after_line(s, line, n))),
        fen_text(t) == fen_text(after_line(s, line, n)),
{
    law_play_from_start_is_sound(s, line, n);
    law_text_round_trip(after_line(s, line, n), t);
}

} // verus!
