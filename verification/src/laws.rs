//! The engine's invariants and round-trip laws, stated once, in one place,
//! over the board model that every contract speaks of.

use vstd::prelude::*;

use crate::codec::{
    board_entries, chars_of, hash_board, lemma_encode_ascii, lemma_parse_game_wf,
    lemma_parse_render, lemma_render_board_bytes, lemma_replay_matches, parse_game, render_board,
};
use crate::adversary_minimax::{
    board_score_upto, expectimax_spec, fam_count, fam_score_upto, line_score_upto, line_seq,
    line_windows, win_cells, win_state, window_score_spec,
};
use crate::game::{Coords, GameError, Player, Side, Turn};
use crate::model::{
    count_occupied, lemma_occupancy, lemma_push_pop_identity, lemma_wins_at_ignores_cache, Board,
};

verus! {

/// Exactly as many cells are occupied as moves were played.
pub proof fn law_occupancy(b: Board)
    requires
        b.wf(),
    ensures
        count_occupied(b.field) == b.hist.len(),
{
    lemma_occupancy(b);
}

/// Undoing a just-applied turn restores the state bit for bit.  (The
/// winner cache needs no special case here: a push is only legal while
/// the cache is `None`, and the undo clears it back to `None`.)
pub proof fn law_push_then_pop(b: Board, t: Turn)
    requires
        b.wf(),
        b.push_ok(t),
    ensures
        b.after_push(t).after_pop() == b,
{
    lemma_push_pop_identity(b, t);
}

/// A won game offers no moves and is no stalemate.
pub proof fn law_winner_stops_play(b: Board)
    requires
        b.wf(),
        b.winner is Some,
    ensures
        b.possible_moves() == Seq::<crate::game::Move>::empty(),
        !b.is_stalemate(),
{
}

/// A stalemate is a full board without a winner.
pub proof fn law_stalemate_is_full_draw(b: Board)
    requires
        b.wf(),
        b.is_stalemate(),
    ensures
        b.hist.len() == b.cells(),
        b.winner is None,
{
}

/// The position-only hash reads the final board configuration alone:
/// two states with the same cells hash alike, however their moves were
/// ordered.
pub proof fn law_hash_ignores_history(a: Board, b: Board)
    requires
        a.wf_board(),
        b.wf_board(),
        a.size_x == b.size_x,
        a.size_y == b.size_y,
        a.field == b.field,
    ensures
        hash_board(a) == hash_board(b),
{
    let rows_a = Seq::new(
        a.size_y as nat,
        |y: int|
            crate::codec::join_bytes(
                Seq::new(
                    a.size_x as nat,
                    |x: int| seq![crate::codec::hash_cell_byte(a.cell_at(x, y))],
                ),
                32,
            ),
    );
    let rows_b = Seq::new(
        b.size_y as nat,
        |y: int|
            crate::codec::join_bytes(
                Seq::new(
                    b.size_x as nat,
                    |x: int| seq![crate::codec::hash_cell_byte(b.cell_at(x, y))],
                ),
                32,
            ),
    );
    assert forall|y: int| 0 <= y < a.size_y implies rows_a[y] == rows_b[y] by {
        assert(Seq::new(
            a.size_x as nat,
            |x: int| seq![crate::codec::hash_cell_byte(a.cell_at(x, y))],
        ) =~= Seq::new(
            b.size_x as nat,
            |x: int| seq![crate::codec::hash_cell_byte(b.cell_at(x, y))],
        ));
    }
    assert(rows_a =~= rows_b);
}

proof fn lemma_moves_upto_no_full_rows(b: Board, n: int)
    requires
        b.wf_board(),
        0 <= n <= b.size_y,
        forall|y: int| 0 <= y < b.size_y ==> !b.row_full(y),
    ensures
        b.moves_upto(n) == Seq::new(
            (2 * n) as nat,
            |k: int|
                (
                    (b.order_y(k / 2)) as u8,
                    if k % 2 == 0 {
                        Side::Left
                    } else {
                        Side::Right
                    },
                ),
        ),
    decreases n,
{
    if n > 0 {
        lemma_moves_upto_no_full_rows(b, n - 1);
        crate::model::lemma_order_y_range(b, n - 1);
        assert(!b.row_full(b.order_y(n - 1)));
        assert(b.moves_upto(n) =~= Seq::new(
            (2 * n) as nat,
            |k: int|
                (
                    (b.order_y(k / 2)) as u8,
                    if k % 2 == 0 {
                        Side::Left
                    } else {
                        Side::Right
                    },
                ),
        ));
    } else {
        assert(b.moves_upto(0) =~= Seq::new(
            0,
            |k: int|
                (
                    (b.order_y(k / 2)) as u8,
                    if k % 2 == 0 {
                        Side::Left
                    } else {
                        Side::Right
                    },
                ),
        ));
    }
}

/// The move-ordering heuristic, written out: while no row is full and
/// nobody has won, the legal moves visit the rows center-out — the middle
/// row, one above, one below, two above, two below, and so on — with
/// `Left` immediately before `Right` inside each row.
pub proof fn law_move_ordering(b: Board)
    requires
        b.wf(),
        b.winner is None,
        forall|y: int| 0 <= y < b.size_y ==> !b.row_full(y),
    ensures
        b.possible_moves() == Seq::new(
            (2 * b.size_y) as nat,
            |k: int|
                (
                    (b.order_y(k / 2)) as u8,
                    if k % 2 == 0 {
                        Side::Left
                    } else {
                        Side::Right
                    },
                ),
        ),
{
    lemma_moves_upto_no_full_rows(b, b.size_y);
}

/// Decoding an encoded state gives the state back: `serialize` writes the
/// exact text whose parse rebuilds the same dimensions, cells, history and
/// winner.  It holds for every state whose winner cache is the one the
/// last move determines — which every `new`, `push` and `deserialize`
/// establishes.  (After an undo of a stale deserialized win the cache can
/// understate the board, and re-decoding would resurface that win.)
pub proof fn law_deserialize_inverts_serialize(b: Board)
    requires
        b.wf(),
        b.winner == b.computed_winner(),
    ensures
        vstd::utf8::encode_utf8(chars_of(render_board(b))) == render_board(b),
        parse_game(vstd::utf8::encode_utf8(chars_of(render_board(b)))) == Ok::<Board, GameError>(
            b,
        ),
{
    lemma_render_board_bytes(b);
    assert forall|i: int|
        0 <= i < render_board(b).len() implies (#[trigger] render_board(b)[i]) < 128 by {
        assert(crate::codec::codec_byte(render_board(b)[i]));
    }
    lemma_encode_ascii(render_board(b));
    lemma_parse_render(b);
    lemma_replay_matches(b);
    let raw = crate::codec::replayed(b.size_x, b.size_y, board_entries(b));
    let m = parse_game(render_board(b))->Ok_0;
    assert(m == Board { winner: raw.computed_winner(), ..raw });
    assert(raw.computed_winner() == b.computed_winner()) by {
        if b.depth() > 0 {
            let lc = b.last_coords();
            lemma_wins_at_ignores_cache(raw, b, b.last_mover(), lc.0 as int, lc.1 as int);
        }
    }
    assert(m =~= b);
}

proof fn lemma_window_flips(b: Board, line: Seq<Coords>, a: int)
    ensures
        window_score_spec(b, Player::Red, line, a) == -window_score_spec(b, Player::Blue, line, a),
{
    let st = win_state(win_cells(b, line, a));
    if !st.2 {
        match st.1 {
            Some(q) => {
                assert(st.0 * 1int == st.0);
                assert(st.0 * (-1int) == -st.0) by (nonlinear_arith);
            },
            None => {},
        }
    }
}

proof fn lemma_line_flips(b: Board, line: Seq<Coords>, n: int)
    ensures
        line_score_upto(b, Player::Red, line, n) == -line_score_upto(b, Player::Blue, line, n),
    decreases n,
{
    if n > 0 {
        lemma_line_flips(b, line, n - 1);
        lemma_window_flips(b, line, n - 1);
    }
}

proof fn lemma_fam_flips(b: Board, s: int, fam: int, n: int)
    ensures
        fam_score_upto(b, Player::Red, s, fam, n) == -fam_score_upto(b, Player::Blue, s, fam, n),
    decreases n,
{
    if n > 0 {
        lemma_fam_flips(b, s, fam, n - 1);
        lemma_line_flips(b, line_seq(s, fam, n - 1), line_windows(line_seq(s, fam, n - 1)));
    }
}

proof fn lemma_board_flips(b: Board, s: int, nfam: int)
    ensures
        board_score_upto(b, Player::Red, s, nfam) == -board_score_upto(b, Player::Blue, s, nfam),
    decreases nfam,
{
    if nfam > 0 {
        lemma_board_flips(b, s, nfam - 1);
        lemma_fam_flips(b, s, nfam - 1, fam_count(s, nfam - 1));
    }
}

/// The window-sum heuristic is a zero-sum judgement: what it credits one
/// player it debits the other, and the clamp is symmetric about zero.
pub proof fn law_expectimax_antisymmetry(b: Board)
    requires
        b.wf(),
        b.size_x == b.size_y,
    ensures
        expectimax_spec(b, Player::Red) == -expectimax_spec(b, Player::Blue),
{
    lemma_board_flips(b, b.size_x, 4);
    assert(b.cells() + 1 > 0) by (nonlinear_arith)
        requires
            b.size_x >= 1,
            b.size_y >= 1,
    ;
}

/// Re-encoding a decoded text is stable: whatever whitespace the input
/// carried, the decoded state writes the one canonical text, and that text
/// decodes to the same state again.
pub proof fn law_reencode_decoded_text(t: Seq<u8>)
    requires
        parse_game(t) is Ok,
    ensures
        parse_game(render_board(parse_game(t)->Ok_0)) == parse_game(t),
        vstd::utf8::encode_utf8(chars_of(render_board(parse_game(t)->Ok_0))) == render_board(
            parse_game(t)->Ok_0,
        ),
{
    lemma_parse_game_wf(t);
    law_deserialize_inverts_serialize(parse_game(t)->Ok_0);
}

} // verus!
