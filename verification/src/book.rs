//! What holds of a book of scores: when its scores are true, when it holds
//! all that play reaches, and what the solver then returns.

use crate::board::Board;
use crate::canonical_key::KEY3_MAX_MOVES;
use crate::game::{lemma_value_bounds, lemma_value_mirror, outcome, value};
use crate::opening_book::{book_score_of, has_key, score_of, ScoredKey};
use crate::position::Position;
use crate::search::is_solution;
use vstd::prelude::*;

verus! {

/// Whether `score` is what `solve` returns for the position `board`, the
/// book holding `book_score` for it: the score of the win for a position
/// that is won at once, be the search weak or not; the score from the book
/// for any other position that is in the book; and otherwise what the
/// search finds.
pub open spec fn is_solve_score(
    book_score: Option<isize>,
    board: Board,
    weak: bool,
    score: int,
) -> bool {
    if board.can_win_next() {
        score == board.stones_left(1)
    } else if book_score is Some {
        score == book_score->0
    } else {
        is_solution(value(board), weak, score)
    }
}

/// Whether `score` is what `analyze` gives the move into column `col`:
/// -1000 for a full column, the score of the win for a move that wins at
/// once, and for any other move what `solve` returns for the position
/// after it, negated. Where the scores of the book are true, that is the
/// negated score of that position, or in a weak search a score that tells
/// win, draw and loss as it does.
pub open spec fn is_move_score(
    entries: Seq<ScoredKey>,
    board: Board,
    weak: bool,
    col: int,
    score: int,
) -> bool {
    if !board.can_play(col) {
        score == -1000
    } else if board.is_winning_move(col) {
        score == board.stones_left(1)
    } else {
        let child = board.play_col(col);
        &&& is_solve_score(book_score_of(entries, child), child, weak, -score)
        &&& book_sound(entries) ==> {
            &&& outcome(-score) == outcome(value(child))
            &&& !weak ==> score == -value(child)
        }
    }
}

/// The search finds for the mirror image of a position what it finds for
/// the position.
pub proof fn lemma_solution_mirror(board: Board, weak: bool, score: int)
    requires
        board.wf(),
    ensures
        board.mirror().wf(),
        board.mirror().key3() == board.key3(),
        board.mirror().can_win_next() == board.can_win_next(),
        is_solution(value(board.mirror()), weak, score) == is_solution(value(board), weak, score),
        forall|book_score: Option<isize>|
            is_solve_score(book_score, board.mirror(), weak, score) == #[trigger] is_solve_score(
                book_score,
                board,
                weak,
                score,
            ),
{
    board.lemma_mirror_wf();
    board.lemma_key3_mirror();
    lemma_value_mirror(board);
}

/// Whether every score of a book is the score of the legal positions that
/// have its key.
pub open spec fn book_sound(entries: Seq<ScoredKey>) -> bool {
    forall|board: Board|
        board.wf() ==> match #[trigger] book_score_of(entries, board) {
            Some(score) => score == value(board),
            None => true,
        }
}

/// With a book whose scores are true, what `solve` returns lies between
/// the lowest and the highest score, is the score of the position unless
/// the search is weak, and tells win, draw and loss in any case.
pub proof fn lemma_solve_score(entries: Seq<ScoredKey>, board: Board, weak: bool, score: int)
    requires
        board.wf(),
        book_sound(entries),
        is_solve_score(book_score_of(entries, board), board, weak, score),
    ensures
        Position::MIN_SCORE <= score <= Position::MAX_SCORE,
        outcome(score) == outcome(value(board)),
        !weak ==> score == value(board),
{
    lemma_value_bounds(board);
    assert(book_score_of(entries, board) matches Some(s) ==> s == value(board));
}

/// A book without entries holds no score.
pub proof fn lemma_no_score(entries: Seq<ScoredKey>)
    requires
        entries.len() == 0,
    ensures
        forall|k: u64| (#[trigger] score_of(entries, k)) is None,
{
    assert forall|k: u64| (#[trigger] score_of(entries, k)) is None by {
        if has_key(entries, k) {
            let i = choose|i: int| 0 <= i < entries.len() && #[trigger] entries[i].pos == k;
        }
    }
}

/// A book without entries is true, and closed for every depth.
pub proof fn lemma_empty_book_sound(entries: Seq<ScoredKey>)
    requires
        entries.len() == 0,
    ensures
        book_sound(entries),
        forall|depth: int| #[trigger] closed(entries, depth),
{
    lemma_no_score(entries);
}

/// With a book whose scores are true, every score that `solve` may return
/// for a position is in range and tells win, draw and loss.
pub proof fn lemma_solve_score_range(entries: Seq<ScoredKey>, board: Board)
    requires
        board.wf(),
        book_sound(entries),
    ensures
        forall|weak: bool, score: int| #[trigger]
            is_solve_score(book_score_of(entries, board), board, weak, score) ==> {
                &&& Position::MIN_SCORE <= score <= Position::MAX_SCORE
                &&& outcome(score) == outcome(value(board))
                &&& !weak ==> score == value(board)
            },
{
    assert forall|weak: bool, score: int| #[trigger]
        is_solve_score(book_score_of(entries, board), board, weak, score) implies {
        &&& Position::MIN_SCORE <= score <= Position::MAX_SCORE
        &&& outcome(score) == outcome(value(board))
        &&& !weak ==> score == value(board)
    } by {
        lemma_solve_score(entries, board, weak, score);
    }
}

/// A book stays true when the score of a position is stored for the key
/// of the position.
pub proof fn lemma_book_stays_sound(
    before: Seq<ScoredKey>,
    after: Seq<ScoredKey>,
    board: Board,
    key: u64,
    score: isize,
)
    requires
        book_sound(before),
        board.wf(),
        board.moves <= KEY3_MAX_MOVES,
        key == board.key3(),
        score == value(board),
        forall|k: u64|
            score_of(after, k) == (if k == key {
                Some(score)
            } else {
                score_of(before, k)
            }),
    ensures
        book_sound(after),
{
    assert forall|other: Board| other.wf() implies match #[trigger] book_score_of(after, other) {
        Some(s) => s == value(other),
        None => true,
    } by {
        if other.moves <= KEY3_MAX_MOVES {
            other.lemma_key3_fits();
            board.lemma_key3_fits();
            let k = other.key3() as u64;
            if k == key {
                board.lemma_key3_canonical(other);
                lemma_value_mirror(board);
            } else {
                assert(book_score_of(before, other) == score_of(before, k));
            }
        }
    }
}

/// Whether play leads from `root` to `board` through the move into
/// column `col`, which does not complete four in a row, and on without
/// such a move.
pub open spec fn reaches_through(root: Board, col: int, board: Board) -> bool
    decreases 42 - root.moves, 0int,
{
    root.moves < 42 && root.can_play(col) && !root.is_winning_move(col) && reaches(
        root.play_col(col),
        board,
    )
}

/// Whether play leads from `root` to `board` without a move that
/// completes four in a row.
pub open spec fn reaches(root: Board, board: Board) -> bool
    decreases 42 - root.moves, 1int,
{
    root == board || (root.moves < 42 && (reaches_through(root, 0, board) || reaches_through(
        root,
        1,
        board,
    ) || reaches_through(root, 2, board) || reaches_through(root, 3, board) || reaches_through(
        root,
        4,
        board,
    ) || reaches_through(root, 5, board) || reaches_through(root, 6, board)))
}

/// What play reaches has no fewer stones.
pub proof fn lemma_reaches_grows(root: Board, board: Board)
    requires
        reaches(root, board),
    ensures
        root.moves <= board.moves,
    decreases 42 - root.moves,
{
    if root != board {
        if reaches_through(root, 0, board) {
            lemma_reaches_grows(root.play_col(0), board);
        } else if reaches_through(root, 1, board) {
            lemma_reaches_grows(root.play_col(1), board);
        } else if reaches_through(root, 2, board) {
            lemma_reaches_grows(root.play_col(2), board);
        } else if reaches_through(root, 3, board) {
            lemma_reaches_grows(root.play_col(3), board);
        } else if reaches_through(root, 4, board) {
            lemma_reaches_grows(root.play_col(4), board);
        } else if reaches_through(root, 5, board) {
            lemma_reaches_grows(root.play_col(5), board);
        } else {
            lemma_reaches_grows(root.play_col(6), board);
        }
    }
}

/// Whether `key` and `score` are the base-3 key and the score of a legal
/// position of at most `depth` stones that play reaches from `root`.
pub open spec fn is_entry_below(root: Board, depth: int, key: u64, score: isize) -> bool {
    exists|board: Board|
        #![trigger reaches(root, board)]
        reaches(root, board) && board.wf() && board.moves <= depth && board.key3() == key
            && score == value(board)
}

/// What play reaches from the position after a move, it reaches from the
/// position before it.
pub proof fn lemma_entry_below_child(root: Board, col: int, depth: int, key: u64, score: isize)
    requires
        root.moves < 42,
        0 <= col < 7,
        root.can_play(col),
        !root.is_winning_move(col),
        is_entry_below(root.play_col(col), depth, key, score),
    ensures
        is_entry_below(root, depth, key, score),
{
    let child = root.play_col(col);
    let board = choose|board: Board|
        #![trigger reaches(child, board)]
        reaches(child, board) && board.wf() && board.moves <= depth && board.key3() == key
            && score == value(board);
    assert(reaches_through(root, col, board));
    assert(reaches(root, board));
}

/// Whether the book holds every position that a move which does not win
/// leads to from `board`, as far as such a position has at most `depth`
/// stones.
pub open spec fn expanded(entries: Seq<ScoredKey>, depth: int, board: Board) -> bool {
    forall|col: int|
        0 <= col < 7 && board.can_play(col) && !board.is_winning_move(col) && board.moves + 1
            <= depth ==> (#[trigger] book_score_of(entries, board.play_col(col))) is Some
}

/// Whether the book holds, with every legal position that it holds and
/// whose key is not among `exempt`, the positions that the moves from it
/// lead to, up to those of `depth` stones.
pub open spec fn closed_but(entries: Seq<ScoredKey>, depth: int, exempt: Set<u64>) -> bool {
    forall|board: Board|
        board.wf() && book_score_of(entries, board) is Some && !exempt.contains(
            board.key3() as u64,
        ) ==> #[trigger] expanded(entries, depth, board)
}

/// Whether the book holds, with every legal position that it holds, the
/// positions that the moves from it lead to, up to those of `depth`
/// stones.
pub open spec fn closed(entries: Seq<ScoredKey>, depth: int) -> bool {
    closed_but(entries, depth, Set::empty())
}

/// A closed book that holds a position holds all that play reaches from
/// it, up to the positions of `depth` stones.
pub proof fn lemma_closed_book_holds(
    entries: Seq<ScoredKey>,
    depth: int,
    root: Board,
    board: Board,
)
    requires
        closed(entries, depth),
        root.wf(),
        book_score_of(entries, root) is Some,
        reaches(root, board),
        board.moves <= depth,
    ensures
        book_score_of(entries, board) is Some,
    decreases 42 - root.moves,
{
    if root != board {
        let col: int = if reaches_through(root, 0, board) {
            0
        } else if reaches_through(root, 1, board) {
            1
        } else if reaches_through(root, 2, board) {
            2
        } else if reaches_through(root, 3, board) {
            3
        } else if reaches_through(root, 4, board) {
            4
        } else if reaches_through(root, 5, board) {
            5
        } else {
            6
        };
        let child = root.play_col(col);
        root.lemma_play_col(col);
        lemma_reaches_grows(child, board);
        assert(expanded(entries, depth, root));
        assert(book_score_of(entries, child) is Some);
        lemma_closed_book_holds(entries, depth, child, board);
    }
}

/// A book that holds the positions after the moves from a position holds
/// those after the moves from its mirror image.
pub proof fn lemma_expanded_mirror(entries: Seq<ScoredKey>, depth: int, board: Board)
    requires
        board.wf(),
        expanded(entries, depth, board),
    ensures
        expanded(entries, depth, board.mirror()),
{
    let m = board.mirror();
    assert forall|col: int|
        0 <= col < 7 && m.can_play(col) && !m.is_winning_move(col) && m.moves + 1
            <= depth implies (#[trigger] book_score_of(entries, m.play_col(col))) is Some by {
        board.lemma_mirror_play(6 - col);
        let child = board.play_col(6 - col);
        board.lemma_play_col(6 - col);
        child.lemma_key3_mirror();
        assert(book_score_of(entries, child) is Some);
        assert(m.play_col(col) == child.mirror());
    }
}

/// A book to which a position was added holds what it held, and with the
/// positions that it held their moves as before.
pub proof fn lemma_closed_after_put(
    before: Seq<ScoredKey>,
    after: Seq<ScoredKey>,
    depth: int,
    key: u64,
    exempt: Set<u64>,
)
    requires
        closed_but(before, depth, exempt),
        forall|k: u64| k != key ==> score_of(after, k) == score_of(before, k),
        score_of(after, key) is Some,
    ensures
        closed_but(after, depth, exempt.insert(key)),
{
    assert forall|board: Board|
        board.wf() && book_score_of(after, board) is Some && !exempt.insert(key).contains(
            board.key3() as u64,
        ) implies #[trigger] expanded(after, depth, board) by {
        assert(book_score_of(before, board) is Some);
        assert(expanded(before, depth, board));
        assert forall|col: int|
            0 <= col < 7 && board.can_play(col) && !board.is_winning_move(col) && board.moves + 1
                <= depth implies (#[trigger] book_score_of(after, board.play_col(col))) is Some by {
            assert(book_score_of(before, board.play_col(col)) is Some);
        }
    }
}

/// Once the book holds the positions after the moves from a position, the
/// key of the position need not be exempt.
pub proof fn lemma_closed_with_root(
    entries: Seq<ScoredKey>,
    depth: int,
    root: Board,
    key: u64,
    exempt: Set<u64>,
)
    requires
        root.wf(),
        root.moves <= KEY3_MAX_MOVES,
        key == root.key3(),
        closed_but(entries, depth, exempt.insert(key)),
        expanded(entries, depth, root),
    ensures
        closed_but(entries, depth, exempt),
{
    assert forall|board: Board|
        board.wf() && book_score_of(entries, board) is Some && !exempt.contains(
            board.key3() as u64,
        ) implies #[trigger] expanded(entries, depth, board) by {
        if board.key3() as u64 == key {
            board.lemma_key3_fits();
            root.lemma_key3_fits();
            root.lemma_key3_canonical(board);
            lemma_expanded_mirror(entries, depth, root);
        }
    }
}

} // verus!
