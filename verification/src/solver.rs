//! The search for the score of a position, and the solver around it.

use crate::bitboard::{column_mask_spec, lemma_mirror_non_losing};
use crate::board::{half, Board};
use crate::book::{
    book_sound, closed_but, expanded, is_entry_below, is_move_score, is_solve_score,
    lemma_book_stays_sound, lemma_closed_after_put, lemma_closed_with_root, lemma_empty_book_sound,
    lemma_entry_below_child, lemma_no_score, lemma_solve_score_range, reaches,
};
use crate::canonical_key::KEY3_MAX_MOVES;
use crate::game::{
    lemma_all_moves_lose, lemma_non_losing_reply, lemma_some_move_holds, lemma_value_bounds,
    lemma_value_mirror, outcome, value,
};
use crate::move_sorter::{insertion_point, lemma_insertion_point, MoveSorter, ScoredMove};
use crate::opening_book::{book_score_of, score_of, OpeningBook, ScoredKey};
use crate::position::{Column, Position};
use crate::search::{
    column_order, entry_sound, gives_up, holds_column, is_solution, lemma_child_searched,
    lemma_column_order, lemma_empty_table_sound, lemma_moves_drop_last, lemma_moves_insert,
    lemma_search_exhausted, lemma_store_sound, moves_among, next_count, order_place, replies_below,
    score_bound, table_sound, window_known,
};
use crate::transposition_table::{TableEntry, TableView, TranspositionTable};
use vstd::prelude::*;

verus! {

/// What a searcher keeps for itself: whether it gave up, and the number of
/// positions it has looked at.
pub struct LocalContext {
    abort: bool,
    nodes: u64,
    tt_hits: u64,
}

impl LocalContext {
    /// Whether the searcher gave up.
    pub closed spec fn aborted(&self) -> bool {
        self.abort
    }

    /// The number of positions looked at, modulo 2^64.
    pub closed spec fn node_count(&self) -> u64 {
        self.nodes
    }

    /// A context of a searcher that has not begun.
    pub fn new() -> (r: LocalContext)
        ensures
            !r.aborted(),
            r.node_count() == 0,
    {
        LocalContext { abort: false, nodes: 0, tt_hits: 0 }
    }

    /// Sets the number of positions back to zero.
    pub fn reset_nodes(&mut self)
        ensures
            final(self).node_count() == 0,
            final(self).aborted() == old(self).aborted(),
    {
        self.nodes = 0;
    }

    /// Counts one more position.
    pub fn increment_nodes(&mut self)
        ensures
            final(self).node_count() == if old(self).node_count() == u64::MAX {
                0
            } else {
                (old(self).node_count() + 1) as u64
            },
            final(self).aborted() == old(self).aborted(),
    {
        self.nodes = self.nodes.wrapping_add(1);
    }

    /// The number of positions looked at.
    pub fn nodes(&self) -> (r: u64)
        ensures
            r == self.node_count(),
    {
        self.nodes
    }
}

/// What the searchers of one search have in common: the request to give
/// up, and the score once it is found.
pub struct SharedContext {
    abort_search: bool,
    score: isize,
}

impl SharedContext {
    /// Whether the searchers are asked to give up.
    pub closed spec fn abort_requested(&self) -> bool {
        self.abort_search
    }

    /// The score that was found.
    pub closed spec fn found_score(&self) -> isize {
        self.score
    }

    /// Whether the searchers are asked to give up.
    pub fn abort_search(&self) -> (r: bool)
        ensures
            r == self.abort_requested(),
    {
        self.abort_search
    }

    /// Asks the searchers to give up.
    pub fn abort_now(&mut self)
        ensures
            final(self).abort_requested(),
            final(self).found_score() == old(self).found_score(),
    {
        self.abort_search = true;
    }
}

/// One search of one position.
pub struct Searcher {
    shared_context: SharedContext,
    local_context: LocalContext,
}

impl Searcher {
    /// The score that `analyze` gives a column that cannot be played.
    pub const INVALID_MOVE: isize = -1000;

    /// The order of the columns for searchers of even number.
    pub const COLUMN_ORDER1: [Column; 7] = [3, 2, 4, 1, 5, 0, 6];

    /// The order of the columns for searchers of odd number.
    pub const COLUMN_ORDER2: [Column; 7] = [3, 4, 2, 5, 1, 6, 0];

    /// Fills the places of `temp_order` from `i` on with the columns from
    /// the centre outwards, the left neighbour before the right one: place
    /// `j` gets the column `WIDTH / 2 + (1 - 2 * (j % 2)) * (j + 1) / 2`.
    pub fn column_order1(i: u8, temp_order: [Column; 7]) -> (r: [Column; 7])
        requires
            i <= 7,
        ensures
            forall|j: int| 0 <= j < i ==> r[j] == temp_order[j],
            forall|j: int| i <= j < 7 ==> r[j] == column_order(0)[j],
        decreases 7 - i,
    {
        if i == Position::WIDTH {
            return temp_order;
        }
        let mut order = temp_order;
        let sign: isize = 1 - 2 * ((i % 2) as isize);
        let step: isize = if sign == 1 {
            (i as isize + 1) / 2
        } else {
            -(i as isize + 1) / 2
        };
        order[i as usize] = (Position::WIDTH as isize / 2 + step) as Column;
        Self::column_order1(i + 1, order)
    }

    /// Fills the places of `temp_order` from `i` on with the columns from
    /// the centre outwards, the right neighbour before the left one: place
    /// `j` gets the column `WIDTH / 2 - (1 - 2 * (j % 2)) * (j + 1) / 2`.
    pub fn column_order2(i: u8, temp_order: [Column; 7]) -> (r: [Column; 7])
        requires
            i <= 7,
        ensures
            forall|j: int| 0 <= j < i ==> r[j] == temp_order[j],
            forall|j: int| i <= j < 7 ==> r[j] == column_order(1)[j],
        decreases 7 - i,
    {
        if i == Position::WIDTH {
            return temp_order;
        }
        let mut order = temp_order;
        let sign: isize = 1 - 2 * ((i % 2) as isize);
        let step: isize = if sign == 1 {
            (i as isize + 1) / 2
        } else {
            -(i as isize + 1) / 2
        };
        order[i as usize] = (Position::WIDTH as isize / 2 - step) as Column;
        Self::column_order2(i + 1, order)
    }

    /// The column at place `i` of the order of searcher `thread_id`.
    fn column_at(thread_id: u8, i: usize) -> (col: Column)
        requires
            i < 7,
        ensures
            col == column_order(thread_id)[i as int],
            col < 7,
    {
        if thread_id % 2 == 0 {
            Self::COLUMN_ORDER1[i]
        } else {
            Self::COLUMN_ORDER2[i]
        }
    }

    /// Whether the searcher has neither been asked to give up nor given
    /// up.
    pub closed spec fn is_running(&self) -> bool {
        !self.shared_context.abort_search && !self.local_context.abort
    }

    /// The score that the searchers of this search have found; zero until
    /// one of them has found it.
    pub closed spec fn found_score(&self) -> isize {
        self.shared_context.score
    }

    /// The number of positions that the searcher has looked at.
    pub closed spec fn node_count(&self) -> u64 {
        self.local_context.nodes
    }

    /// A searcher that has not begun: it is not asked to give up and has
    /// not given up, no score is found, and no position is counted.
    pub fn new() -> (r: Searcher)
        ensures
            r.is_running(),
            r.found_score() == 0,
            r.node_count() == 0,
    {
        Searcher {
            shared_context: SharedContext { abort_search: false, score: 0 },
            local_context: LocalContext::new(),
        }
    }

    /// Fills a sorter with the moves of `possible`, the non-losing moves of
    /// the position: the move of column `best_column` on top, if one is
    /// given, and below it the others by their score.
    fn sorted_moves(
        pos: &Position,
        possible: u64,
        best_column: Option<Column>,
        thread_id: u8,
    ) -> (r: MoveSorter)
        requires
            pos@.wf(),
            possible == pos@.non_losing_moves(),
            best_column matches Some(col) ==> col < 7 && possible & column_mask_spec(col as u64)
                != 0,
        ensures
            r.wf(),
            moves_among(r@, possible),
            forall|col: int|
                0 <= col < 7 && possible & column_mask_spec(col as u64) != 0 ==> holds_column(
                    r@,
                    col,
                ),
    {
        let mut moves = MoveSorter::new();
        let mut i: usize = Position::WIDTH as usize;
        let ghost mut skipped: int = 0;
        proof {
            lemma_column_order(thread_id);
        }
        while i > 0
            invariant
                i <= 7,
                pos@.wf(),
                moves.wf(),
                moves_among(moves@, possible),
                best_column matches Some(h) ==> h < 7 && possible & column_mask_spec(h as u64) != 0,
                0 <= skipped <= 1,
                moves@.len() + skipped <= 7 - i,
                best_column is None ==> skipped == 0,
                best_column matches Some(h) ==> (skipped == 1 <==> i <= order_place(
                    thread_id,
                    h as int,
                )),
                forall|j: int|
                    i <= j < 7 && possible & column_mask_spec(
                        column_order(thread_id)[j] as u64,
                    ) != 0 ==> best_column == Some(#[trigger] column_order(thread_id)[j])
                        || holds_column(moves@, column_order(thread_id)[j] as int),
            decreases i,
        {
            i -= 1;
            let col = Self::column_at(thread_id, i);
            let bmove = possible & Position::column_mask(col);
            let is_hint = match best_column {
                Some(h) => h == col,
                None => false,
            };
            let ghost before = moves@;
            proof {
                lemma_column_order(thread_id);
                assert(order_place(thread_id, col as int) == i);
            }
            if bmove != 0 && !is_hint {
                let score = pos.move_score(bmove);
                proof {
                    moves.lemma_capacity();
                    lemma_insertion_point(before, ScoredMove { bmove, col, score });
                    lemma_moves_insert(
                        before,
                        insertion_point(before, score),
                        ScoredMove { bmove, col, score },
                        possible,
                    );
                }
                moves.add(bmove, col, score);
                assert(holds_column(moves@, col as int));
            } else if is_hint {
                proof {
                    skipped = 1;
                }
            }
            assert forall|j: int|
                i <= j < 7 && possible & column_mask_spec(
                    column_order(thread_id)[j] as u64,
                ) != 0 implies best_column == Some(#[trigger] column_order(thread_id)[j])
                || holds_column(moves@, column_order(thread_id)[j] as int) by {
                let c = column_order(thread_id)[j];
                if j > i {
                    if holds_column(before, c as int) {
                        assert(holds_column(moves@, c as int));
                    }
                }
            }
        }
        match best_column {
            Some(col) => {
                let bmove = possible & Position::column_mask(col);
                let ghost before = moves@;
                proof {
                    lemma_column_order(thread_id);
                    moves.lemma_capacity();
                    let score = (Position::WIDTH + 1) as u8;
                    lemma_insertion_point(before, ScoredMove { bmove, col, score });
                    lemma_moves_insert(
                        before,
                        insertion_point(before, score),
                        ScoredMove { bmove, col, score },
                        possible,
                    );
                }
                moves.add(bmove, col, Position::WIDTH + 1);
                proof {
                    assert(holds_column(moves@, col as int));
                    assert forall|c: int|
                        0 <= c < 7 && possible & column_mask_spec(c as u64)
                            != 0 implies holds_column(moves@, c) by {
                        let j = order_place(thread_id, c);
                        assert(column_order(thread_id)[j] == c);
                        if c != col {
                            assert(holds_column(before, c));
                        }
                    }
                }
            },
            None => {
                proof {
                    lemma_column_order(thread_id);
                    assert forall|c: int|
                        0 <= c < 7 && possible & column_mask_spec(c as u64)
                            != 0 implies holds_column(moves@, c) by {
                        let j = order_place(thread_id, c);
                        assert(column_order(thread_id)[j] == c);
                    }
                }
            },
        }
        moves
    }

    /// The score of a position in which the side to move cannot win at
    /// once, as far as the window `alpha .. beta` asks for it: the score
    /// itself if it lies inside the window, else a bound on the side of
    /// the window on which it lies.
    ///
    /// The search counts the position, and gives up, with the result zero
    /// that says nothing, if it is asked to when the count is a multiple of
    /// 1024. Where every move lets the opponent win at once it returns the
    /// score of that loss, and where a move holds and at most two cells are
    /// empty it returns zero; in both cases it looks at no other position
    /// and leaves the table as it is. Otherwise it takes bounds from the
    /// table and stores what it finds; once it has given up it stores
    /// nothing.
    #[verifier::rlimit(50)]
    fn negamax(
        local_context: &mut LocalContext,
        shared_context: &SharedContext,
        table: &mut TranspositionTable,
        pos: &Position,
        alpha: isize,
        beta: isize,
        can_be_symmetric: bool,
        thread_id: u8,
    ) -> (r: isize)
        requires
            pos@.wf(),
            !pos@.can_win_next(),
            alpha < beta,
            old(table)@.wf(),
            table_sound(old(table)@),
        ensures
            final(table)@.wf(),
            table_sound(final(table)@),
            old(local_context).abort ==> final(local_context).abort,
            !shared_context.abort_search ==> final(local_context).abort == old(
                local_context,
            ).abort,
            !final(local_context).abort ==> score_bound(
                r as int,
                alpha as int,
                beta as int,
                value(pos@),
            ),
            -21 <= r <= 21,
            gives_up(old(local_context).nodes, shared_context.abort_search) ==> {
                &&& r == 0
                &&& final(local_context).abort
                &&& final(local_context).nodes == next_count(old(local_context).nodes)
                &&& final(table)@ == old(table)@
            },
            !gives_up(old(local_context).nodes, shared_context.abort_search)
                && pos@.non_losing_moves() == 0 ==> {
                &&& r == -pos@.stones_left(0)
                &&& final(local_context).abort == old(local_context).abort
                &&& final(local_context).nodes == next_count(old(local_context).nodes)
                &&& final(table)@ == old(table)@
            },
            !gives_up(old(local_context).nodes, shared_context.abort_search)
                && pos@.non_losing_moves() != 0 && pos@.moves >= 40 ==> {
                &&& r == 0
                &&& final(local_context).abort == old(local_context).abort
                &&& final(local_context).nodes == next_count(old(local_context).nodes)
                &&& final(table)@ == old(table)@
            },
        decreases 42 - pos@.moves,
    {
        let ghost board = pos@;
        let ghost v = value(board);
        let mut lower = alpha;
        let mut upper = beta;
        proof {
            lemma_value_bounds(board);
            board.lemma_moves_bound();
        }
        local_context.increment_nodes();
        if local_context.nodes() % 1024 == 0 && shared_context.abort_search() {
            local_context.abort = true;
            return 0;
        }
        let possible = pos.possible_non_losing_moves();
        if possible == 0 {
            proof {
                lemma_all_moves_lose(board);
            }
            return -pos.num_stones_left(0);
        }
        proof {
            lemma_some_move_holds(board);
        }
        if pos.nb_moves() >= Position::WIDTH * Position::HEIGHT - 2 {
            return 0;
        }
        // the opponent cannot win with its next stone
        let min = -pos.num_stones_left(-2);
        if lower < min {
            lower = min;
            if lower >= upper {
                return lower;
            }
        }
        // the side to move cannot win with its next stone
        let max = pos.num_stones_left(-1);
        if upper > max {
            upper = max;
            if lower >= upper {
                return upper;
            }
        }
        let key = pos.key();
        let mut best_column: Option<Column> = None;
        match table.get(key) {
            Some(posinfo) => {
                assert(entry_sound(posinfo@, board));
                local_context.tt_hits = local_context.tt_hits.wrapping_add(1);
                let val = posinfo.score();
                if val > Position::MAX_SCORE - Position::MIN_SCORE + 1 {
                    // a lower bound was stored
                    let min = val + 2 * Position::MIN_SCORE - Position::MAX_SCORE - 2;
                    if lower < min {
                        lower = min;
                        if lower >= upper {
                            return lower;
                        }
                    }
                } else {
                    // an upper bound was stored
                    let max = val + Position::MIN_SCORE - 1;
                    if upper > max {
                        upper = max;
                        if lower >= upper {
                            return upper;
                        }
                    }
                }
                best_column = Some(posinfo.column());
            },
            None => {},
        }
        let mut moves = Self::sorted_moves(pos, possible, best_column, thread_id);
        let ghost mut done: Set<int> = Set::empty();
        let mut highest_score: Option<isize> = None;
        proof {
            let c = lemma_some_move_holds(board);
            assert(holds_column(moves@, c));
        }
        loop
            invariant_except_break
                moves@.len() == 0 ==> highest_score is Some,
            invariant
                pos@ == board,
                board.wf(),
                !board.can_win_next(),
                board.moves < 40,
                v == value(board),
                possible == board.non_losing_moves(),
                possible != 0,
                !gives_up(old(local_context).nodes, shared_context.abort_search),
                key == board.key(),
                table@.wf(),
                table_sound(table@),
                moves.wf(),
                moves_among(moves@, possible),
                old(local_context).abort ==> local_context.abort,
                !shared_context.abort_search ==> local_context.abort == old(local_context).abort,
                highest_score is Some ==> best_column is Some && !local_context.abort,
                best_column matches Some(best) ==> best < 7 && possible & column_mask_spec(
                    best as u64,
                ) != 0,
                alpha <= lower < upper <= beta,
                -half(40 - board.moves) <= lower,
                upper <= half(41 - board.moves),
                !local_context.abort ==> window_known(
                    alpha as int,
                    beta as int,
                    lower as int,
                    upper as int,
                    v,
                ),
                !local_context.abort ==> replies_below(board, done, lower as int),
                forall|col: int|
                    0 <= col < 7 && possible & column_mask_spec(col as u64) != 0 ==> done.contains(
                        col,
                    ) || holds_column(moves@, col),
            ensures
                best_column matches Some(best) && best < 7 && possible & column_mask_spec(
                    best as u64,
                ) != 0,
                !local_context.abort,
                highest_score is Some,
                table@.wf(),
                table_sound(table@),
                !shared_context.abort_search ==> local_context.abort == old(local_context).abort,
                alpha <= lower < upper <= beta,
                -half(40 - board.moves) <= lower,
                upper <= half(41 - board.moves),
                window_known(alpha as int, beta as int, lower as int, upper as int, v),
                v <= lower,
            decreases moves@.len(),
        {
            let ghost before = moves@;
            let (bmove, col) = match moves.next() {
                Some(m) => m,
                None => {
                    proof {
                        lemma_search_exhausted(board, done, lower as int);
                    }
                    break ;
                },
            };
            proof {
                lemma_moves_drop_last(before, possible);
                lemma_non_losing_reply(board, col as int);
            }
            let mut pos2 = *pos;
            pos2.play(bmove);
            let child_score = Self::negamax(
                local_context,
                shared_context,
                table,
                &pos2,
                -upper,
                -lower,
                can_be_symmetric,
                thread_id,
            );
            let score = -child_score;
            if local_context.abort {
                return 0;
            }
            proof {
                lemma_child_searched(
                    board,
                    col as int,
                    done,
                    lower as int,
                    upper as int,
                    score as int,
                );
                done = done.insert(col as int);
            }
            if score > lower {
                if score >= upper {
                    let stored = score + Position::MAX_SCORE - 2 * Position::MIN_SCORE + 2;
                    proof {
                        lemma_value_bounds(board);
                        let entry = TableEntry { score: stored as u8, column: col };
                        lemma_store_sound(table@, board, entry);
                    }
                    table.put(key, stored as u8, col);
                    if can_be_symmetric && pos.nb_moves() < 10 {
                        proof {
                            board.lemma_mirror_wf();
                            lemma_value_mirror(board);
                            lemma_mirror_non_losing(
                                board.current,
                                board.mask,
                                col as u64,
                                (6 - col) as u64,
                            );
                            let entry = TableEntry {
                                score: stored as u8,
                                column: (Position::WIDTH - 1 - col) as u8,
                            };
                            lemma_store_sound(table@, board.mirror(), entry);
                        }
                        table.put(pos.mirrored_key(), stored as u8, Position::WIDTH - 1 - col);
                    }
                    return score;
                }
                lower = score;
            }
            let better = match highest_score {
                Some(highest) => score > highest,
                None => true,
            };
            if better {
                best_column = Some(col);
                highest_score = Some(score);
            }
        }
        let stored = lower - Position::MIN_SCORE + 1;
        let column = best_column.unwrap();
        proof {
            lemma_value_bounds(board);
            let entry = TableEntry { score: stored as u8, column };
            lemma_store_sound(table@, board, entry);
        }
        table.put(key, stored as u8, column);
        lower
    }

    /// Brackets the score of the position and halves the bracket with one
    /// search after the other, each with a window of width one, until the
    /// bracket is one score: that score is stored as found, and the other
    /// searchers are asked to give up. A weak search starts from the bracket
    /// `-1 ..= 1`.
    ///
    /// Returns the number of positions that were looked at, and stores
    /// nothing where the searcher was asked to give up.
    fn launch_searcher(
        &mut self,
        table: &mut TranspositionTable,
        pos: &Position,
        weak: bool,
        thread_id: u8,
    ) -> (nodes: u64)
        requires
            pos@.wf(),
            !pos@.can_win_next(),
            old(table)@.wf(),
            table_sound(old(table)@),
        ensures
            final(table)@.wf(),
            table_sound(final(table)@),
            old(self).is_running() ==> final(self).shared_context.abort_search && is_solution(
                value(pos@),
                weak,
                final(self).shared_context.score as int,
            ),
            old(self).shared_context.abort_search ==> final(self).shared_context == old(
                self,
            ).shared_context,
            nodes == final(self).local_context.nodes,
    {
        let ghost v = value(pos@);
        proof {
            lemma_value_bounds(pos@);
            pos@.lemma_moves_bound();
        }
        let mut min = -pos.num_stones_left(0);
        let mut max = pos.num_stones_left(1);
        if weak {
            min = -1;
            max = 1;
        }
        let can_be_symmetric = pos.can_become_symmetric();
        let mut nodes: u64 = 0;
        self.local_context.reset_nodes();
        while min < max
            invariant
                pos@.wf(),
                !pos@.can_win_next(),
                v == value(pos@),
                -18 <= v <= 18,
                table@.wf(),
                table_sound(table@),
                self.shared_context == old(self).shared_context,
                self.local_context.abort == old(self).local_context.abort,
                nodes == self.local_context.nodes,
                -21 <= min <= 21,
                -21 <= max <= 21,
                old(self).is_running() ==> {
                    &&& !weak || min >= 0 ==> v >= min
                    &&& !weak || max <= 0 ==> v <= max
                    &&& weak ==> -1 <= min && max <= 1
                },
            decreases max - min + 42,
        {
            let mut med = min + (max - min) / 2;
            if med <= 0 && min / 2 < med {
                med = min / 2;
            } else if med >= 0 && max / 2 > med {
                med = max / 2;
            }
            assert(min <= med < max);
            let r = Self::negamax(
                &mut self.local_context,
                &self.shared_context,
                table,
                pos,
                med,
                med + 1,
                can_be_symmetric,
                thread_id,
            );
            nodes = self.local_context.nodes();
            if self.local_context.abort {
                return nodes;
            }
            if r <= med {
                max = r;
            } else {
                min = r;
            }
        }
        if self.shared_context.abort_search() {
            return nodes;
        }
        self.shared_context.abort_now();
        self.shared_context.score = min;
        nodes
    }

    /// Searches the position and returns its score and the number of
    /// positions that were looked at. At the return the score is stored as
    /// found and the searchers are asked to give up.
    fn search(&mut self, table: &mut TranspositionTable, pos: &Position, weak: bool) -> (r: (
        isize,
        u64,
    ))
        requires
            old(self).is_running(),
            pos@.wf(),
            !pos@.can_win_next(),
            old(table)@.wf(),
            table_sound(old(table)@),
        ensures
            final(table)@.wf(),
            table_sound(final(table)@),
            is_solution(value(pos@), weak, r.0 as int),
            r.0 == final(self).found_score(),
            r.1 == final(self).node_count(),
            final(self).shared_context.abort_requested(),
            !final(self).is_running(),
    {
        let total_nodes = self.launch_searcher(table, pos, weak, 0);
        (self.shared_context.score, total_nodes)
    }
}

/// Win, draw or loss as 1, 0 or -1 where only that is asked for, and the
/// score as it is otherwise.
pub fn conv_score(score: isize, weak: bool) -> (r: isize)
    ensures
        r == if weak {
            outcome(score as int)
        } else {
            score as int
        },
{
    if weak {
        if score > 0 {
            1
        } else if score < 0 {
            -1
        } else {
            0
        }
    } else {
        score
    }
}

/// Solves positions: a table of what earlier searches found, and a book
/// of known scores, if one was given.
pub struct Solver {
    trans_table: TranspositionTable,
    book: Option<OpeningBook>,
}

impl Default for Solver {
    /// A solver with an empty table and no book.
    fn default() -> (r: Solver)
        ensures
            r.wf(),
            r.table().is_empty(),
            !r.has_book(),
            r.book_entries().len() == 0,
    {
        Solver::new(None)
    }
}

impl Solver {
    /// The invariant of a solver: the table holds nothing false, and the
    /// book is in order.
    pub closed spec fn wf(&self) -> bool {
        &&& self.trans_table@.wf()
        &&& table_sound(self.trans_table@)
        &&& self.book matches Some(book) ==> book.wf()
    }

    /// The entries of the book, none where there is no book.
    pub closed spec fn book_entries(&self) -> Seq<ScoredKey> {
        match self.book {
            Some(book) => book@,
            None => Seq::empty(),
        }
    }

    /// Whether the solver has a book.
    pub closed spec fn has_book(&self) -> bool {
        self.book is Some
    }

    /// The score that the book holds for a position.
    pub open spec fn book_score(&self, board: Board) -> Option<isize> {
        book_score_of(self.book_entries(), board)
    }

    /// The table of the solver.
    pub closed spec fn table(&self) -> TableView {
        self.trans_table@
    }

    /// A solver with an empty table and the given book.
    pub fn new(book: Option<OpeningBook>) -> (r: Solver)
        requires
            book matches Some(b) ==> b.wf(),
        ensures
            r.wf(),
            r.table().is_empty(),
            r.has_book() == (book is Some),
            r.book_entries() == match book {
                Some(b) => b@,
                None => Seq::empty(),
            },
    {
        let trans_table = TranspositionTable::new();
        proof {
            lemma_empty_table_sound(trans_table@);
        }
        Solver { trans_table, book }
    }

    /// The number of moves that the winner needs, itself, to win a position
    /// of the given score; for a draw, the number of moves that the side to
    /// move has left.
    pub fn score_to_moves_to_win(pos: &Position, score: isize) -> (r: isize)
        requires
            pos@.wf(),
            isize::MIN + 32 <= score <= isize::MAX - 32,
        ensures
            r == if score > 0 {
                pos@.stones_left(1) - score + 1
            } else {
                pos@.stones_left(0) + score + 1
            },
    {
        proof {
            pos@.lemma_moves_bound();
        }
        if score > 0 {
            pos.num_stones_left(1) - score + 1
        } else {
            pos.num_stones_left(0) + score + 1
        }
    }

    /// Empties the table.
    pub fn reset_transposition_table(&mut self)
        requires
            old(self).wf(),
        ensures
            final(self).wf(),
            final(self).table().is_empty(),
            final(self).has_book() == old(self).has_book(),
            final(self).book_entries() == old(self).book_entries(),
    {
        self.trans_table.reset();
        proof {
            lemma_empty_table_sound(self.trans_table@);
        }
    }

    /// Gives the solver a book, in place of the one it had.
    pub fn set_book(&mut self, book: OpeningBook)
        requires
            old(self).wf(),
            book.wf(),
        ensures
            final(self).wf(),
            final(self).has_book(),
            final(self).book_entries() == book@,
            final(self).table() == old(self).table(),
    {
        self.book = Some(book);
    }

    /// The book of the solver, which must have one.
    pub fn get_book(&self) -> (r: &OpeningBook)
        requires
            self.has_book(),
        ensures
            r@ == self.book_entries(),
            self.wf() ==> r.wf(),
    {
        self.book.as_ref().unwrap()
    }

    /// The score of the position and the number of positions that the
    /// search looked at.
    ///
    /// A position that the side to move wins at once, or that is in the
    /// book, is not searched. A positive score means that the side to move
    /// wins, a negative one that it loses, zero a draw; a score of one is a
    /// win with the last stone, of two with the stone before, and so on. A
    /// weak search only finds out who wins.
    pub fn solve(&mut self, pos: &Position, weak: bool) -> (r: (isize, u64))
        requires
            old(self).wf(),
            pos@.wf(),
        ensures
            final(self).wf(),
            final(self).has_book() == old(self).has_book(),
            final(self).book_entries() == old(self).book_entries(),
            is_solve_score(old(self).book_score(pos@), pos@, weak, r.0 as int),
            pos@.can_win_next() ==> r.0 == pos@.stones_left(1),
            pos@.can_win_next() || old(self).book_score(pos@) is Some ==> r.1 == 0
                && final(self).table() == old(self).table(),
            book_sound(old(self).book_entries()) ==> {
                &&& Position::MIN_SCORE <= r.0 <= Position::MAX_SCORE
                &&& outcome(r.0 as int) == outcome(value(pos@))
                &&& !weak ==> r.0 == value(pos@)
            },
    {
        proof {
            pos@.lemma_moves_bound();
            lemma_value_bounds(pos@);
        }
        proof {
            if book_sound(self.book_entries()) {
                lemma_solve_score_range(self.book_entries(), pos@);
            }
        }
        if pos.can_win_next() {
            return (pos.num_stones_left(1), 0);
        }
        match &self.book {
            Some(book) => {
                match book.get(pos) {
                    Some(score) => {
                        return (score, 0);
                    },
                    None => {},
                }
            },
            None => {
                assert(score_of(self.book_entries(), pos@.key3() as u64) is None);
            },
        }
        let mut searcher = Searcher::new();
        searcher.search(&mut self.trans_table, pos, weak)
    }

    /// The scores of the seven moves: `INVALID_MOVE` for a full column, the
    /// score of the win for a move that wins at once, and for any other
    /// move the score of the position after it, negated.
    pub fn analyze(&mut self, pos: &Position, weak: bool) -> (scores: Vec<isize>)
        requires
            old(self).wf(),
            pos@.wf(),
            forall|col: int|
                0 <= col < 7 && pos@.can_play(col) ==> old(self).book_score(
                    #[trigger] pos@.play_col(col),
                ) != Some(isize::MIN),
        ensures
            final(self).wf(),
            final(self).has_book() == old(self).has_book(),
            final(self).book_entries() == old(self).book_entries(),
            scores@.len() == 7,
            forall|col: int|
                0 <= col < 7 ==> is_move_score(
                    old(self).book_entries(),
                    pos@,
                    weak,
                    col,
                    #[trigger] scores@[col] as int,
                ),
    {
        let ghost entries = self.book_entries();
        let mut scores: Vec<isize> = vec![Searcher::INVALID_MOVE; 7];
        let mut col: u8 = 0;
        while col < Position::WIDTH
            invariant
                col <= 7,
                pos@.wf(),
                self.wf(),
                self.has_book() == old(self).has_book(),
                entries == old(self).book_entries(),
                self.book_entries() == entries,
                forall|c: int|
                    0 <= c < 7 && pos@.can_play(c) ==> book_score_of(
                        entries,
                        #[trigger] pos@.play_col(c),
                    ) != Some(isize::MIN),
                scores@.len() == 7,
                forall|c: int| col <= c < 7 ==> #[trigger] scores@[c] == Searcher::INVALID_MOVE,
                forall|c: int|
                    0 <= c < col ==> is_move_score(
                        entries,
                        pos@,
                        weak,
                        c,
                        #[trigger] scores@[c] as int,
                    ),
            decreases 7 - col,
        {
            let ghost before = scores@;
            let score = self.move_score(pos, weak, col);
            scores[col as usize] = score;
            proof {
                assert forall|c: int| 0 <= c < col + 1 implies is_move_score(
                    entries,
                    pos@,
                    weak,
                    c,
                    #[trigger] scores@[c] as int,
                ) by {
                    if c < col {
                        assert(scores@[c] == before[c]);
                    }
                }
            }
            col += 1;
        }
        scores
    }

    /// The score of the move into column `col`, as `analyze` gives it.
    fn move_score(&mut self, pos: &Position, weak: bool, col: Column) -> (score: isize)
        requires
            old(self).wf(),
            pos@.wf(),
            col < Position::WIDTH,
            pos@.can_play(col as int) ==> old(self).book_score(pos@.play_col(col as int)) != Some(
                isize::MIN,
            ),
        ensures
            final(self).wf(),
            final(self).has_book() == old(self).has_book(),
            final(self).book_entries() == old(self).book_entries(),
            is_move_score(old(self).book_entries(), pos@, weak, col as int, score as int),
    {
        if pos.can_play(col) {
            if pos.is_winning_move(col) {
                pos.num_stones_left(1)
            } else {
                let mut pos2 = *pos;
                pos2.play_col(col);
                proof {
                    lemma_value_bounds(pos2@);
                }
                let (score, _) = self.solve(&pos2, weak);
                -score
            }
        } else {
            Searcher::INVALID_MOVE
        }
    }

    /// Adds to the book the position and the positions that play reaches
    /// from it, up to those of `depth` stones, each with its score. A
    /// position that is in the book stays as it is, and so does what play
    /// reaches from it. The solver gets a book if it has none.
    #[verifier::rlimit(50)]
    pub fn generate_book(&mut self, pos: &Position, depth: usize)
        requires
            old(self).wf(),
            pos@.wf(),
            depth <= KEY3_MAX_MOVES,
        ensures
            final(self).wf(),
            final(self).has_book(),
            forall|k: u64| #[trigger]
                score_of(old(self).book_entries(), k) is Some ==> score_of(
                    final(self).book_entries(),
                    k,
                ) == score_of(old(self).book_entries(), k),
            forall|k: u64|
                score_of(old(self).book_entries(), k) is None && (#[trigger] score_of(
                    final(self).book_entries(),
                    k,
                )) is Some ==> is_entry_below(
                    pos@,
                    depth as int,
                    k,
                    score_of(final(self).book_entries(), k)->0,
                ),
            pos@.moves <= depth ==> final(self).book_score(pos@) is Some,
            book_sound(old(self).book_entries()) ==> book_sound(final(self).book_entries()),
            forall|exempt: Set<u64>| #[trigger]
                closed_but(old(self).book_entries(), depth as int, exempt) ==> closed_but(
                    final(self).book_entries(),
                    depth as int,
                    exempt,
                ),
        decreases 42 - pos@.moves,
    {
        let ghost before = self.book_entries();
        proof {
            pos@.lemma_moves_bound();
            lemma_value_bounds(pos@);
        }
        match &self.book {
            None => {
                proof {
                    lemma_no_score(before);
                }
                self.book = Some(OpeningBook::new());
                proof {
                    lemma_no_score(self.book_entries());
                    lemma_empty_book_sound(self.book_entries());
                }
            },
            Some(book) => {
                if book.get(pos).is_some() {
                    return ;
                }
            },
        }
        if pos.nb_moves() as usize > depth {
            return ;
        }
        let (score, _) = self.solve(pos, false);
        let key = pos.key3();
        let ghost unchanged = self.book_entries();
        let mut book = self.book.take().unwrap();
        book.put_by_key(key, score);
        self.book = Some(book);
        proof {
            assert(reaches(pos@, pos@));
            assert(is_entry_below(pos@, depth as int, key, score));
            if book_sound(before) {
                lemma_book_stays_sound(unchanged, self.book_entries(), pos@, key, score);
            }
            assert forall|exempt: Set<u64>| #[trigger]
                closed_but(before, depth as int, exempt) implies closed_but(
                self.book_entries(),
                depth as int,
                exempt.insert(key),
            ) by {
                assert(closed_but(unchanged, depth as int, exempt)) by {
                    assert forall|board: Board|
                        board.wf() && book_score_of(unchanged, board) is Some && !exempt.contains(
                            board.key3() as u64,
                        ) implies #[trigger] expanded(unchanged, depth as int, board) by {
                        assert(book_score_of(before, board) is Some);
                        assert(expanded(before, depth as int, board));
                        assert forall|col: int|
                            0 <= col < 7 && board.can_play(col) && !board.is_winning_move(col)
                                && board.moves + 1 <= depth implies (#[trigger] book_score_of(
                            unchanged,
                            board.play_col(col),
                        )) is Some by {
                            assert(book_score_of(before, board.play_col(col)) is Some);
                        }
                    }
                }
                lemma_closed_after_put(unchanged, self.book_entries(), depth as int, key, exempt);
            }
        }
        let mut i: usize = 0;
        while i < 7
            invariant
                i <= 7,
                pos@.wf(),
                depth <= KEY3_MAX_MOVES,
                pos@.moves <= depth,
                self.wf(),
                self.has_book(),
                before == old(self).book_entries(),
                self.book_score(pos@) is Some,
                book_sound(before) ==> book_sound(self.book_entries()),
                key == pos@.key3(),
                forall|exempt: Set<u64>| #[trigger]
                    closed_but(before, depth as int, exempt) ==> closed_but(
                        self.book_entries(),
                        depth as int,
                        exempt.insert(key),
                    ),
                forall|j: int|
                    0 <= j < i ==> {
                        let c = #[trigger] column_order(0)[j] as int;
                        pos@.can_play(c) && !pos@.is_winning_move(c) && pos@.moves + 1 <= depth
                            ==> book_score_of(self.book_entries(), pos@.play_col(c)) is Some
                    },
                forall|k: u64| #[trigger]
                    score_of(before, k) is Some ==> score_of(self.book_entries(), k) == score_of(
                        before,
                        k,
                    ),
                forall|k: u64|
                    score_of(before, k) is None && (#[trigger] score_of(
                        self.book_entries(),
                        k,
                    )) is Some ==> is_entry_below(
                        pos@,
                        depth as int,
                        k,
                        score_of(self.book_entries(), k)->0,
                    ),
            decreases 7 - i,
        {
            let col = Self::order_column(i);
            if pos.can_play(col) && !pos.is_winning_move(col) {
                let mut p2 = *pos;
                p2.play_col(col);
                let ghost entries = self.book_entries();
                proof {
                    pos@.lemma_play_col(col as int);
                }
                self.generate_book(&p2, depth);
                proof {
                    let after = self.book_entries();
                    assert forall|exempt: Set<u64>| #[trigger]
                        closed_but(before, depth as int, exempt) implies closed_but(
                        after,
                        depth as int,
                        exempt.insert(key),
                    ) by {
                        assert(closed_but(entries, depth as int, exempt.insert(key)));
                    }
                    assert forall|j: int| 0 <= j < i + 1 implies {
                        let c = #[trigger] column_order(0)[j] as int;
                        pos@.can_play(c) && !pos@.is_winning_move(c) && pos@.moves + 1 <= depth
                            ==> book_score_of(after, pos@.play_col(c)) is Some
                    } by {
                        let c = column_order(0)[j] as int;
                        if j < i {
                            if pos@.can_play(c) && !pos@.is_winning_move(c) && pos@.moves + 1
                                <= depth {
                                assert(book_score_of(entries, pos@.play_col(c)) is Some);
                            }
                        }
                    }
                    assert forall|k: u64|
                        score_of(before, k) is None && (#[trigger] score_of(after, k))
                            is Some implies is_entry_below(
                        pos@,
                        depth as int,
                        k,
                        score_of(after, k)->0,
                    ) by {
                        if score_of(entries, k) is None {
                            lemma_entry_below_child(
                                pos@,
                                col as int,
                                depth as int,
                                k,
                                score_of(after, k)->0,
                            );
                        }
                    }
                }
            }
            i += 1;
        }
        proof {
            lemma_column_order(0);
            assert(expanded(self.book_entries(), depth as int, pos@)) by {
                assert forall|col: int|
                    0 <= col < 7 && pos@.can_play(col) && !pos@.is_winning_move(col) && pos@.moves
                        + 1 <= depth implies (#[trigger] book_score_of(
                    self.book_entries(),
                    pos@.play_col(col),
                )) is Some by {
                    let j = order_place(0, col);
                    assert(column_order(0)[j] == col);
                }
            }
            assert forall|exempt: Set<u64>| #[trigger]
                closed_but(before, depth as int, exempt) implies closed_but(
                self.book_entries(),
                depth as int,
                exempt,
            ) by {
                lemma_closed_with_root(self.book_entries(), depth as int, pos@, key, exempt);
            }
        }
    }

    /// The column at place `i` of the order in which the book is filled.
    fn order_column(i: usize) -> (col: Column)
        requires
            i < 7,
        ensures
            col < 7,
            col == column_order(0)[i as int],
    {
        Searcher::COLUMN_ORDER1[i]
    }
}

} // verus!
