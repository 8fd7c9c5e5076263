//! The score of a position under best play, and what follows for the
//! search from the rules of the game alone.

use crate::bitboard::{
    column_mask_spec, lemma_can_play_count, lemma_non_losing_subset, lemma_some_column,
};
use crate::board::{half, Board};
use vstd::prelude::*;

verus! {

/// The larger of two scores.
pub open spec fn max_score(a: int, b: int) -> int {
    if a >= b {
        a
    } else {
        b
    }
}

/// The score of the side to move if it plays column `col`: what the move
/// leaves the opponent, negated. A column that cannot be played counts as
/// a loss at the next move, which no playable column scores below.
pub open spec fn reply(board: Board, col: int) -> int
    decreases 42 - board.moves, 0int,
{
    if board.moves < 42 && board.can_play(col) {
        -value(board.play_col(col))
    } else {
        -half(42 - board.moves)
    }
}

/// The score of a position under best play by both sides.
///
/// It is zero for a draw. It is positive if the side to move wins, and the
/// earlier it wins the higher: one for a win with its last stone, two for a
/// win with the stone before that, and so on. It is negative in the same
/// way if the opponent wins.
pub open spec fn value(board: Board) -> int
    decreases 42 - board.moves, 1int,
{
    if board.moves >= 42 {
        0
    } else if board.can_win_next() {
        half(43 - board.moves)
    } else {
        max_score(
            reply(board, 0),
            max_score(
                reply(board, 1),
                max_score(
                    reply(board, 2),
                    max_score(
                        reply(board, 3),
                        max_score(reply(board, 4), max_score(reply(board, 5), reply(board, 6))),
                    ),
                ),
            ),
        )
    }
}

/// The sign of a score: what is left of it when only win, draw and loss
/// count.
pub open spec fn outcome(score: int) -> int {
    if score > 0 {
        1
    } else if score < 0 {
        -1
    } else {
        0
    }
}

/// The score of a position that is not won at once is the best of the
/// seven replies.
pub proof fn lemma_value_is_best_reply(board: Board)
    requires
        board.moves < 42,
        !board.can_win_next(),
    ensures
        forall|col: int| 0 <= col < 7 ==> reply(board, col) <= value(board),
        exists|col: int| 0 <= col < 7 && reply(board, col) == value(board),
{
    let v = value(board);
    if reply(board, 0) == v {
    } else if reply(board, 1) == v {
    } else if reply(board, 2) == v {
    } else if reply(board, 3) == v {
    } else if reply(board, 4) == v {
    } else if reply(board, 5) == v {
    } else {
        assert(reply(board, 6) == v);
    }
}

/// The score of a legal position lies between a loss at the next move and
/// a win at this one.
pub proof fn lemma_value_bounds(board: Board)
    requires
        board.wf(),
    ensures
        -half(42 - board.moves) <= value(board) <= half(43 - board.moves),
        board.moves < 42 && !board.can_win_next() ==> value(board) <= half(41 - board.moves),
        -18 <= value(board) <= 18,
    decreases 42 - board.moves,
{
    board.lemma_moves_bound();
    if board.moves < 42 && !board.can_win_next() {
        lemma_value_is_best_reply(board);
        assert forall|col: int| 0 <= col < 7 implies -half(42 - board.moves) <= #[trigger] reply(
            board,
            col,
        ) <= half(41 - board.moves) && -18 <= reply(board, col) <= 18 by {
            if board.can_play(col) {
                board.lemma_play_col(col);
                lemma_value_bounds(board.play_col(col));
            }
        }
    }
}

/// The replies that are not among the non-losing moves all lose at the
/// next move.
pub proof fn lemma_losing_reply(board: Board, col: int)
    requires
        board.wf(),
        0 <= col < 7,
        board.non_losing_moves() & column_mask_spec(col as u64) == 0,
    ensures
        reply(board, col) == -half(42 - board.moves),
{
    if board.moves < 42 && board.can_play(col) {
        board.lemma_play_col(col);
        let child = board.play_col(col);
        let b = board.move_bit(col);
        let p = board.non_losing_moves();
        let possible = board.possible();
        let c = col as u64;
        assert(b & p == 0) by (bit_vector)
            requires
                p & column_mask_spec(c) == 0,
                b == possible & column_mask_spec(c),
        ;
        child.lemma_moves_bound();
    }
}

/// After a non-losing move the opponent cannot win at once.
pub proof fn lemma_non_losing_reply(board: Board, col: int)
    requires
        board.wf(),
        0 <= col < 7,
        board.non_losing_moves() & column_mask_spec(col as u64) != 0,
    ensures
        board.can_play(col),
        board.move_bit(col) == board.non_losing_moves() & column_mask_spec(
            col as u64,
        ),
        board.is_move(board.move_bit(col)),
        board.play_col(col).wf(),
        !board.play_col(col).can_win_next(),
        board.moves < 42,
        reply(board, col) == -value(board.play_col(col)),
        reply(board, col) >= -half(40 - board.moves),
{
    lemma_can_play_count(board.current, board.mask, col as u64);
    board.lemma_play_col(col);
    let child = board.play_col(col);
    let b = board.move_bit(col);
    let p = board.non_losing_moves();
    let c = col as u64;
    assert(b & p != 0) by (bit_vector)
        requires
            b == p & column_mask_spec(c),
            b != 0,
    ;
    lemma_value_bounds(child);
    child.lemma_moves_bound();
}

/// A reply in the mirror image scores as the mirrored reply does.
pub proof fn lemma_reply_mirror(board: Board, col: int)
    requires
        board.wf(),
        0 <= col < 7,
    ensures
        reply(board.mirror(), 6 - col) == reply(board, col),
    decreases 42 - board.moves, 0int,
{
    board.lemma_mirror_wf();
    board.lemma_mirror_play(col);
    if board.moves < 42 && board.can_play(col) {
        board.lemma_play_col(col);
        lemma_value_mirror(board.play_col(col));
    }
}

/// A position and its mirror image have the same score.
pub proof fn lemma_value_mirror(board: Board)
    requires
        board.wf(),
    ensures
        value(board.mirror()) == value(board),
    decreases 42 - board.moves, 1int,
{
    board.lemma_mirror_wf();
    if board.moves < 42 && !board.can_win_next() {
        lemma_reply_mirror(board, 0);
        lemma_reply_mirror(board, 1);
        lemma_reply_mirror(board, 2);
        lemma_reply_mirror(board, 3);
        lemma_reply_mirror(board, 4);
        lemma_reply_mirror(board, 5);
        lemma_reply_mirror(board, 6);
    }
}

/// Where every move lets the opponent win at once, the position is lost
/// at the next move; so is one without a move, if a full board counts as
/// lost at no move.
pub proof fn lemma_all_moves_lose(board: Board)
    requires
        board.wf(),
        !board.can_win_next(),
        board.non_losing_moves() == 0,
    ensures
        value(board) == -half(42 - board.moves),
{
    board.lemma_moves_bound();
    if board.moves < 42 {
        assert forall|col: int| 0 <= col < 7 implies #[trigger] reply(board, col) == -half(
            42 - board.moves,
        ) by {
            lemma_non_losing_subset(
                board.current,
                board.mask,
                column_mask_spec(col as u64),
            );
            lemma_losing_reply(board, col);
        }
        lemma_value_is_best_reply(board);
    }
}

/// Where the opponent cannot win at once after some move, some column
/// holds such a move, and the position is not lost before the move after
/// next.
pub proof fn lemma_some_move_holds(board: Board) -> (col: int)
    requires
        board.wf(),
        !board.can_win_next(),
        board.non_losing_moves() != 0,
    ensures
        0 <= col < 7,
        board.non_losing_moves() & column_mask_spec(col as u64) != 0,
        board.moves < 42,
        value(board) >= -half(40 - board.moves),
        value(board) <= half(41 - board.moves),
        board.moves >= 40 ==> value(board) == 0,
{
    let p = board.non_losing_moves();
    lemma_non_losing_subset(board.current, board.mask, 0);
    lemma_some_column(p);
    let col: int = if p & column_mask_spec(0) != 0 {
        0
    } else if p & column_mask_spec(1) != 0 {
        1
    } else if p & column_mask_spec(2) != 0 {
        2
    } else if p & column_mask_spec(3) != 0 {
        3
    } else if p & column_mask_spec(4) != 0 {
        4
    } else if p & column_mask_spec(5) != 0 {
        5
    } else {
        6
    };
    lemma_non_losing_reply(board, col);
    lemma_value_is_best_reply(board);
    lemma_value_bounds(board);
    if board.moves >= 40 {
        let child = board.play_col(col);
        lemma_value_bounds(child);
    }
    col
}

} // verus!
