//! The moves of one position, sorted by score as they are added.

use crate::position::{Bitboard, Column, Position};
use vstd::prelude::*;

verus! {

/// One move in the sorter.
#[derive(Clone, Copy)]
struct Inner {
    score: u8,
    col: Column,
    bmove: Bitboard,
}

impl Inner {
    fn new() -> (r: Inner)
        ensures
            r.score == 0,
            r.col == 0,
            r.bmove == 0,
    {
        Inner { score: 0, col: 0, bmove: 0 }
    }
}

/// A move as the contracts see it: its cell, its column and its score.
pub struct ScoredMove {
    /// The cell of the move.
    pub bmove: Bitboard,
    /// The column of the move.
    pub col: Column,
    /// The score by which the move is sorted.
    pub score: u8,
}

/// Whether the scores of `moves` never fall from one move to the next.
pub open spec fn ascending(moves: Seq<ScoredMove>) -> bool {
    forall|i: int, j: int| 0 <= i <= j < moves.len() ==> moves[i].score <= moves[j].score
}

/// Where a move of score `score` goes into `moves`: above every move that
/// does not score more, below every move that does.
pub open spec fn insertion_point(moves: Seq<ScoredMove>, score: u8) -> int
    decreases moves.len(),
{
    if moves.len() == 0 || moves.last().score <= score {
        moves.len() as int
    } else {
        insertion_point(moves.drop_last(), score)
    }
}

/// The moves of `moves` that are handed out, first to last: from the top
/// down.
pub open spec fn consumption_order(moves: Seq<ScoredMove>) -> Seq<ScoredMove> {
    moves.reverse()
}

/// The insertion point of a move splits ascending moves into those that
/// score at most as much and those that score more, so that the moves are
/// ascending with the move put there.
pub proof fn lemma_insertion_point(moves: Seq<ScoredMove>, added: ScoredMove)
    requires
        ascending(moves),
    ensures
        0 <= insertion_point(moves, added.score) <= moves.len(),
        forall|i: int|
            0 <= i < insertion_point(moves, added.score) ==> moves[i].score <= added.score,
        forall|i: int|
            insertion_point(moves, added.score) <= i < moves.len() ==> moves[i].score
                > added.score,
        ascending(moves.insert(insertion_point(moves, added.score), added)),
    decreases moves.len(),
{
    let score = added.score;
    let p = insertion_point(moves, score);
    if !(moves.len() == 0 || moves.last().score <= score) {
        let rest = moves.drop_last();
        assert forall|i: int, j: int| 0 <= i <= j < rest.len() implies rest[i].score
            <= rest[j].score by {
            assert(rest[i] == moves[i] && rest[j] == moves[j]);
        }
        lemma_insertion_point(rest, added);
        assert forall|i: int| 0 <= i < p implies moves[i].score <= score by {
            assert(rest[i] == moves[i]);
        }
        assert forall|i: int| p <= i < moves.len() implies moves[i].score > score by {
            if i < rest.len() {
                assert(rest[i] == moves[i]);
            }
        }
    } else {
        assert forall|i: int| 0 <= i < p implies moves[i].score <= score by {
            assert(moves[i].score <= moves[moves.len() - 1].score);
        }
    }
    let after = moves.insert(p, added);
    assert forall|i: int, j: int| 0 <= i <= j < after.len() implies after[i].score
        <= after[j].score by {
        if i < p && j > p {
            assert(moves[i].score <= moves[j - 1].score);
        } else if i < p && j < p {
            assert(moves[i].score <= moves[j].score);
        } else if i > p {
            assert(moves[i - 1].score <= moves[j - 1].score);
        }
    }
}

/// Moves in ascending order are handed out in descending order of score.
/// A move that is added is handed out after every move that scores more
/// and before every other move, so that of two moves with the same score
/// the one added later comes first; the moves that were there keep their
/// order among themselves.
pub proof fn lemma_consumption_order(moves: Seq<ScoredMove>, added: ScoredMove)
    requires
        ascending(moves),
    ensures
        ({
            let p = insertion_point(moves, added.score);
            let after = moves.insert(p, added);
            let out = consumption_order(after);
            let place = moves.len() - p;
            &&& ascending(after)
            &&& out.len() == moves.len() + 1
            &&& forall|i: int, j: int| 0 <= i <= j < out.len() ==> out[i].score >= out[j].score
            &&& out[place] == added
            &&& forall|i: int| 0 <= i < place ==> out[i].score > added.score
            &&& forall|i: int| place < i < out.len() ==> out[i].score <= added.score
            &&& forall|i: int| 0 <= i < place ==> out[i] == consumption_order(moves)[i]
            &&& forall|i: int| place < i < out.len() ==> out[i] == consumption_order(moves)[i - 1]
        }),
{
    let p = insertion_point(moves, added.score);
    let after = moves.insert(p, added);
    let out = consumption_order(after);
    lemma_insertion_point(moves, added);
    assert forall|i: int, j: int| 0 <= i <= j < out.len() implies out[i].score
        >= out[j].score by {
        assert(after[after.len() - 1 - j].score <= after[after.len() - 1 - i].score);
    }
}

/// Keeps up to seven moves in ascending order of score and hands them out
/// from the top: the best score first, and of two equal scores the one
/// added later.
pub struct MoveSorter {
    size: usize,
    moves: [Inner; 7],
}

impl Default for MoveSorter {
    /// An empty sorter.
    fn default() -> (r: MoveSorter)
        ensures
            r.wf(),
            r@.len() == 0,
    {
        MoveSorter::new()
    }
}

impl View for MoveSorter {
    type V = Seq<ScoredMove>;

    closed spec fn view(&self) -> Seq<ScoredMove> {
        Seq::new(
            self.size as nat,
            |i: int|
                ScoredMove {
                    bmove: self.moves[i].bmove,
                    col: self.moves[i].col,
                    score: self.moves[i].score,
                },
        )
    }
}

impl MoveSorter {
    /// The invariant of a sorter: at most seven moves, in ascending order
    /// of score.
    pub closed spec fn wf(&self) -> bool {
        self.size <= 7 && ascending(self@)
    }

    /// A sorter holds at most seven moves.
    pub proof fn lemma_capacity(&self)
        requires
            self.wf(),
        ensures
            self@.len() <= 7,
            ascending(self@),
    {
    }

    /// An empty sorter.
    pub fn new() -> (r: MoveSorter)
        ensures
            r.wf(),
            r@.len() == 0,
    {
        MoveSorter { size: 0, moves: [Inner::new(); 7] }
    }

    /// Adds a move with its score, above the moves that do not score more.
    pub fn add(&mut self, bmove: Bitboard, col: Column, score: u8)
        requires
            old(self).wf(),
            old(self)@.len() < Position::WIDTH,
        ensures
            final(self).wf(),
            final(self)@ == old(self)@.insert(
                insertion_point(old(self)@, score),
                ScoredMove { bmove, col, score },
            ),
    {
        let ghost before = self@;
        let mut pos = self.size;
        let new = Inner { score, col, bmove };
        assert(before.subrange(0, pos as int) == before);
        while pos != 0 && self.moves[pos - 1].score > score
            invariant
                pos <= self.size < 7,
                self.size == old(self).size,
                before == old(self)@,
                ascending(before),
                insertion_point(before, score) == insertion_point(
                    before.subrange(0, pos as int),
                    score,
                ),
                forall|i: int| 0 <= i < pos ==> self.moves[i] == old(self).moves[i],
                forall|i: int| pos < i <= self.size ==> self.moves[i] == old(self).moves[i - 1],
            decreases pos,
        {
            let ghost prefix = before.subrange(0, pos as int);
            assert(prefix.last() == before[pos - 1]);
            assert(prefix.drop_last() == before.subrange(0, pos - 1));
            self.moves[pos] = self.moves[pos - 1];
            pos -= 1;
        }
        proof {
            let prefix = before.subrange(0, pos as int);
            if pos != 0 {
                assert(prefix.last() == before[pos - 1]);
            }
            assert(insertion_point(before, score) == pos);
        }
        self.moves[pos] = new;
        self.size += 1;
        proof {
            let e = ScoredMove { bmove, col, score };
            assert(self@ =~= before.insert(pos as int, e));
            lemma_insertion_point(before, e);
        }
    }

    /// Empties the sorter.
    pub fn reset(&mut self)
        ensures
            final(self).wf(),
            final(self)@.len() == 0,
    {
        self.size = 0;
    }

    /// Takes the top move out of the sorter: the one with the highest
    /// score, and of those the one added last. `None` once the sorter is
    /// empty.
    pub fn next(&mut self) -> (r: Option<(Bitboard, Column)>)
        requires
            old(self).wf(),
        ensures
            final(self).wf(),
            old(self)@.len() == 0 ==> r is None && final(self)@ == old(self)@,
            old(self)@.len() > 0 ==> r == Some((old(self)@.last().bmove, old(self)@.last().col))
                && final(self)@ == old(self)@.drop_last(),
    {
        if self.size == 0 {
            None
        } else {
            let n = self.size;
            self.size -= 1;
            assert(self@ =~= old(self)@.drop_last());
            Some((self.moves[n - 1].bmove, self.moves[n - 1].col))
        }
    }
}

} // verus!
