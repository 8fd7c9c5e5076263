//! What the search states and keeps: the meaning of a result for a window,
//! of an entry of the table, and of the order of the columns.

use crate::bitboard::column_mask_spec;
use crate::board::{half, Board};
use crate::game::{
    lemma_losing_reply, lemma_value_bounds, lemma_value_is_best_reply, outcome, reply, value,
};
use crate::move_sorter::ScoredMove;
use crate::position::{Column, Position};
use crate::transposition_table::{
    is_table_key, lemma_lookup_after_store, lemma_lookup_empty, lemma_slot_and_partial_key,
    partial_key, slot_index, TableEntry, TableView,
};
use vstd::prelude::*;

verus! {

/// The count of positions once one more is counted; it starts again at
/// zero after the largest count.
pub open spec fn next_count(nodes: u64) -> u64 {
    if nodes == u64::MAX {
        0
    } else {
        (nodes + 1) as u64
    }
}

/// Whether a searcher that has counted `nodes` positions gives up at the
/// next one: it is asked to, and its count, that position included, is a
/// multiple of 1024.
pub open spec fn gives_up(nodes: u64, abort_requested: bool) -> bool {
    abort_requested && next_count(nodes) % 1024 == 0
}

/// What a search with the window `alpha .. beta` says of a position of
/// score `v` by returning `r`: `v` itself inside the window, an upper
/// bound of `v` at or below `alpha`, a lower bound at or above `beta`.
pub open spec fn score_bound(r: int, alpha: int, beta: int, v: int) -> bool {
    &&& r <= alpha ==> v <= r
    &&& r >= beta ==> v >= r
    &&& alpha < r < beta ==> v == r
}

/// What a search knows of the score `v` once it has narrowed the window
/// `alpha0 .. beta0` to `alpha .. beta`: a bound that it moved is a bound
/// of `v`.
pub open spec fn window_known(alpha0: int, beta0: int, alpha: int, beta: int, v: int) -> bool {
    &&& alpha > alpha0 ==> v >= alpha
    &&& beta < beta0 ==> v <= beta
}

/// Whether no reply of the columns `done` scores above `alpha`.
pub open spec fn replies_below(board: Board, done: Set<int>, alpha: int) -> bool {
    forall|col: int| done.contains(col) ==> reply(board, col) <= alpha
}

/// What the search of a reply says of the position: the negated result
/// `score` is a lower bound of the score if it reaches `beta`, the score
/// of the reply if it lies inside the window, and an upper bound of it
/// otherwise.
pub proof fn lemma_child_searched(
    board: Board,
    col: int,
    done: Set<int>,
    alpha: int,
    beta: int,
    score: int,
)
    requires
        board.wf(),
        !board.can_win_next(),
        board.moves < 42,
        0 <= col < 7,
        board.can_play(col),
        reply(board, col) == -value(board.play_col(col)),
        alpha < beta,
        score_bound(-score, -beta, -alpha, value(board.play_col(col))),
        replies_below(board, done, alpha),
    ensures
        score >= beta ==> value(board) >= score,
        alpha < score < beta ==> value(board) >= score && replies_below(
            board,
            done.insert(col),
            score,
        ),
        score <= alpha ==> replies_below(board, done.insert(col), alpha),
{
    lemma_value_is_best_reply(board);
    assert(reply(board, col) <= value(board));
}

/// Once no reply among the non-losing moves scores above `alpha`, the
/// position does not either.
pub proof fn lemma_search_exhausted(board: Board, done: Set<int>, alpha: int)
    requires
        board.wf(),
        !board.can_win_next(),
        board.moves < 42,
        -half(40 - board.moves) <= alpha,
        replies_below(board, done, alpha),
        forall|col: int|
            0 <= col < 7 && board.non_losing_moves() & column_mask_spec(col as u64) != 0
                ==> done.contains(col),
    ensures
        value(board) <= alpha,
{
    lemma_value_is_best_reply(board);
    assert forall|c: int| 0 <= c < 7 implies reply(board, c) <= alpha by {
        if board.non_losing_moves() & column_mask_spec(c as u64) != 0 {
            assert(done.contains(c));
        } else {
            lemma_losing_reply(board, c);
        }
    }
}

/// Whether a table entry is true of a position: its column holds a
/// non-losing move, and its score bounds the score of the position. A
/// stored score above 37 says that the score is at least the stored one
/// less 56, any other that it is at most the stored one less 19.
pub open spec fn entry_sound(entry: TableEntry, board: Board) -> bool {
    &&& entry.column < 7
    &&& board.non_losing_moves() & column_mask_spec(entry.column as u64) != 0
    &&& if entry.score > 37 {
        value(board) >= entry.score - 56
    } else {
        value(board) <= entry.score - 19
    }
}

/// Whether all that a table holds for legal positions is true of them.
pub open spec fn table_sound(table: TableView) -> bool {
    forall|board: Board|
        board.wf() ==> match #[trigger] table.lookup(board.key()) {
            Some(entry) => entry_sound(entry, board),
            None => true,
        }
}

/// A table in which nothing is stored holds nothing false.
pub proof fn lemma_empty_table_sound(table: TableView)
    requires
        table.wf(),
        table.is_empty(),
    ensures
        table_sound(table),
{
    assert forall|board: Board| board.wf() implies (#[trigger] table.lookup(
        board.key(),
    )) is None by {
        board.lemma_key(board);
        lemma_lookup_empty(table, board.key());
    }
}

/// Storing what is true of a position keeps a table free of anything
/// false.
pub proof fn lemma_store_sound(table: TableView, board: Board, entry: TableEntry)
    requires
        table.wf(),
        table_sound(table),
        board.wf(),
        entry_sound(entry, board),
    ensures
        table.store(board.key(), entry).wf(),
        table_sound(table.store(board.key(), entry)),
{
    let after = table.store(board.key(), entry);
    lemma_lookup_after_store(table, board.key(), entry, board.key());
    assert forall|other: Board| other.wf() implies match #[trigger] after.lookup(other.key()) {
        Some(e) => entry_sound(e, other),
        None => true,
    } by {
        lemma_lookup_after_store(table, board.key(), entry, other.key());
        board.lemma_key(other);
        other.lemma_key(board);
        if slot_index(other.key()) == slot_index(board.key()) && partial_key(other.key())
            == partial_key(board.key()) {
            lemma_slot_and_partial_key(board.key(), other.key());
        } else if slot_index(other.key()) != slot_index(board.key()) {
            assert(after.lookup(other.key()) == table.lookup(other.key()));
        }
    }
}

/// The columns in the order in which a search tries them: from the centre
/// outwards, the left neighbour first for an even searcher number, the
/// right one first for an odd one.
pub open spec fn column_order(thread_id: u8) -> Seq<Column> {
    if thread_id % 2 == 0 {
        seq![3u8, 2u8, 4u8, 1u8, 5u8, 0u8, 6u8]
    } else {
        seq![3u8, 4u8, 2u8, 5u8, 1u8, 6u8, 0u8]
    }
}

/// The place of column `col` in the order of searcher `thread_id`.
pub open spec fn order_place(thread_id: u8, col: int) -> int {
    if col == 3 {
        0
    } else if thread_id % 2 == 0 {
        if col == 2 {
            1
        } else if col == 4 {
            2
        } else if col == 1 {
            3
        } else if col == 5 {
            4
        } else if col == 0 {
            5
        } else {
            6
        }
    } else {
        if col == 4 {
            1
        } else if col == 2 {
            2
        } else if col == 5 {
            3
        } else if col == 1 {
            4
        } else if col == 6 {
            5
        } else {
            6
        }
    }
}

/// Every column has its place in the order.
pub proof fn lemma_column_order(thread_id: u8)
    ensures
        column_order(thread_id).len() == 7,
        forall|i: int| 0 <= i < 7 ==> #[trigger] column_order(thread_id)[i] < 7,
        forall|col: int|
            0 <= col < 7 ==> 0 <= #[trigger] order_place(thread_id, col) < 7 && column_order(
                thread_id,
            )[order_place(thread_id, col)] == col,
{
}

/// Whether `moves` holds a move of column `col`.
pub open spec fn holds_column(moves: Seq<ScoredMove>, col: int) -> bool {
    exists|k: int| 0 <= k < moves.len() && #[trigger] moves[k].col == col
}

/// Whether each of `moves` is the move of its column among `possible`.
pub open spec fn moves_among(moves: Seq<ScoredMove>, possible: u64) -> bool {
    forall|k: int|
        0 <= k < moves.len() ==> {
            &&& (#[trigger] moves[k]).col < 7
            &&& moves[k].bmove == possible & column_mask_spec(moves[k].col as u64)
            &&& moves[k].bmove != 0
        }
}

pub proof fn lemma_moves_insert(moves: Seq<ScoredMove>, at: int, m: ScoredMove, possible: u64)
    requires
        0 <= at <= moves.len(),
        moves_among(moves, possible),
        m.col < 7,
        m.bmove == possible & column_mask_spec(m.col as u64),
        m.bmove != 0,
    ensures
        moves_among(moves.insert(at, m), possible),
        holds_column(moves.insert(at, m), m.col as int),
        forall|col: int| #[trigger]
            holds_column(moves, col) ==> holds_column(moves.insert(at, m), col),
{
    let after = moves.insert(at, m);
    assert forall|k: int| 0 <= k < after.len() implies {
        &&& (#[trigger] after[k]).col < 7
        &&& after[k].bmove == possible & column_mask_spec(after[k].col as u64)
        &&& after[k].bmove != 0
    } by {
        if k < at {
            assert(after[k] == moves[k]);
        } else if k > at {
            assert(after[k] == moves[k - 1]);
        }
    }
    assert(after[at].col == m.col);
    assert forall|col: int| #[trigger] holds_column(moves, col) implies holds_column(
        after,
        col,
    ) by {
        let k = choose|k: int| 0 <= k < moves.len() && #[trigger] moves[k].col == col;
        if k < at {
            assert(after[k].col == col);
        } else {
            assert(after[k + 1].col == col);
        }
    }
}

pub proof fn lemma_moves_drop_last(moves: Seq<ScoredMove>, possible: u64)
    requires
        moves.len() > 0,
        moves_among(moves, possible),
    ensures
        moves_among(moves.drop_last(), possible),
        forall|col: int|
            holds_column(moves, col) ==> (col == moves.last().col || holds_column(
                moves.drop_last(),
                col,
            )),
{
    let rest = moves.drop_last();
    assert forall|k: int| 0 <= k < rest.len() implies {
        &&& (#[trigger] rest[k]).col < 7
        &&& rest[k].bmove == possible & column_mask_spec(rest[k].col as u64)
        &&& rest[k].bmove != 0
    } by {
        assert(rest[k] == moves[k]);
    }
    assert forall|col: int| holds_column(moves, col) implies (col == moves.last().col
        || holds_column(rest, col)) by {
        let k = choose|k: int| 0 <= k < moves.len() && #[trigger] moves[k].col == col;
        if k < rest.len() {
            assert(rest[k].col == col);
        }
    }
}

/// Whether `score` is what a weak search may return for a position of
/// score `v`: minus one for a loss, zero for a draw, and for a win a
/// positive score that the side to move reaches at least.
pub open spec fn weak_solution(v: int, score: int) -> bool {
    &&& v < 0 ==> score == -1
    &&& v == 0 ==> score == 0
    &&& v > 0 ==> 1 <= score <= v
}

/// Whether `score` is what a search returns for a position of score `v`:
/// `v` itself, or in weak mode any score that `weak_solution` accepts.
pub open spec fn is_solution(v: int, weak: bool, score: int) -> bool {
    if weak {
        weak_solution(v, score)
    } else {
        score == v
    }
}

/// What the search finds lies between the lowest and the highest score,
/// and a weak search agrees with a full one on win, draw and loss.
pub proof fn lemma_solution_range(board: Board, weak: bool, score: int)
    requires
        board.wf(),
        is_solution(value(board), weak, score),
    ensures
        Position::MIN_SCORE <= score <= Position::MAX_SCORE,
        outcome(score) == outcome(value(board)),
        !weak ==> score == value(board),
{
    lemma_value_bounds(board);
}

} // verus!
