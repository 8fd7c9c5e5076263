//! The model of a position, in which the contracts of the crate speak of
//! the game: who can move where, what a move leaves, who wins.

use crate::bitboard::{
    cell_spec, in_column, lemma_count_col, lemma_move_cell, lemma_one_column,
    bottom_mask_spec, column_mask_spec, has_alignment, lemma_can_play_count, lemma_count_bounds,
    lemma_count_play, lemma_key_injective, lemma_mirror_bits, lemma_mirror_moves,
    lemma_mirror_non_losing, lemma_move_bit, lemma_non_losing, lemma_some_column,
    lemma_stone_count_bounds, lemma_stones_after_move, lemma_wf_bounds, lemma_winner_has_three,
    lemma_winning_cell, mirror_bits, non_losing_spec, possible_spec, single_bit, stone_count,
    col_count, top_mask_spec, wf_bits, winning_spec, BOARD_MASK,
};
use crate::canonical_key::{key3_down, key3_up};
use vstd::prelude::*;

verus! {

/// Division by two that rounds towards zero.
pub open spec fn half(n: int) -> int {
    if n >= 0 {
        n / 2
    } else {
        -((-n) / 2)
    }
}

/// The mathematical model of a position: the two bitboards and the number
/// of stones played.
pub struct Board {
    /// The stones of the side to move.
    pub current: u64,
    /// All played cells.
    pub mask: u64,
    /// The number of moves played since the empty board.
    pub moves: nat,
}

impl Board {
    /// The invariant of a position: legal bitboards, one stone per move,
    /// and the side to move has played every second stone.
    pub open spec fn wf(self) -> bool {
        &&& wf_bits(self.current, self.mask)
        &&& self.moves == stone_count(self.mask)
        &&& stone_count(self.current) == self.moves / 2
    }

    /// The empty board.
    pub open spec fn empty() -> Board {
        Board { current: 0, mask: 0, moves: 0 }
    }

    /// Whether column `col` exists and is not full.
    pub open spec fn can_play(self, col: int) -> bool {
        0 <= col < 7 && self.mask & top_mask_spec(col as u64) == 0
    }

    /// The number of stones in column `col`.
    pub open spec fn height(self, col: int) -> int {
        col_count(self.mask, col as u64)
    }

    /// The cell that a stone dropped into column `col` comes to rest in.
    pub open spec fn move_bit(self, col: int) -> u64 {
        ((self.mask + bottom_mask_spec(col as u64)) as u64) & column_mask_spec(col as u64)
    }

    /// Whether `b` is the resting cell of a playable column.
    pub open spec fn is_move(self, b: u64) -> bool {
        single_bit(b) && b & possible_spec(self.mask) == b
    }

    /// The position after the side to move has put a stone on cell `b`,
    /// seen from the other side.
    pub open spec fn play(self, b: u64) -> Board {
        Board { current: self.current ^ self.mask, mask: self.mask | b, moves: self.moves + 1 }
    }

    /// The position after a stone was dropped into column `col`.
    pub open spec fn play_col(self, col: int) -> Board {
        self.play(self.move_bit(col))
    }

    /// The next moves, losing ones included.
    pub open spec fn possible(self) -> u64 {
        possible_spec(self.mask)
    }

    /// The empty cells that would give the side to move four in a row.
    pub open spec fn winning_spots(self) -> u64 {
        winning_spec(self.current, self.mask)
    }

    /// The empty cells that would give the opponent four in a row.
    pub open spec fn opponent_winning_spots(self) -> u64 {
        winning_spec(self.current ^ self.mask, self.mask)
    }

    /// Whether the side to move can complete four in a row with its next
    /// stone.
    pub open spec fn can_win_next(self) -> bool {
        self.winning_spots() & self.possible() != 0
    }

    /// Whether a stone in column `col` completes four in a row.
    pub open spec fn is_winning_move(self, col: int) -> bool {
        self.winning_spots() & self.possible() & column_mask_spec(col as u64) != 0
    }

    /// The moves after which the opponent cannot win at once.
    pub open spec fn non_losing_moves(self) -> u64 {
        non_losing_spec(self.current, self.mask)
    }

    /// The compact key of the position.
    pub open spec fn key(self) -> u64 {
        (self.current + self.mask) as u64
    }

    /// The symmetric base-3 key: the smaller of the digit strings read
    /// from the left and from the right, without its last digit.
    pub open spec fn key3(self) -> nat {
        let forward = key3_up(self.current, self.mask, 7);
        let reverse = key3_down(self.current, self.mask, 0);
        if forward < reverse {
            forward / 3
        } else {
            reverse / 3
        }
    }

    /// Whether the position is its own mirror image.
    pub open spec fn is_symmetric(self) -> bool {
        self.mirror() == self
    }

    /// The position reflected about the centre column.
    pub open spec fn mirror(self) -> Board {
        Board {
            current: mirror_bits(self.current),
            mask: mirror_bits(self.mask),
            moves: self.moves,
        }
    }

    /// Half of the stones still to be played, `addend` added, rounded
    /// towards zero.
    pub open spec fn stones_left(self, addend: int) -> int {
        half(42 + addend - self.moves)
    }

    /// Neither side holds four in a row.
    pub open spec fn no_alignment(self) -> bool {
        !has_alignment(self.current) && !has_alignment(self.current ^ self.mask)
    }
}

impl Board {
    /// A column is playable exactly if it holds fewer than six stones, and
    /// a stone dropped into it comes to rest on them.
    pub proof fn lemma_move_bit_is_lowest_empty_cell(self, col: int)
        requires
            self.wf(),
            0 <= col < 7,
        ensures
            0 <= self.height(col) <= 6,
            self.can_play(col) <==> self.height(col) < 6,
            self.can_play(col) ==> self.move_bit(col) == cell_spec(
                col as u64,
                self.height(col) as u64,
            ),
            self.can_play(col) ==> self.play_col(col).height(col) == self.height(col) + 1,
            forall|other: int|
                0 <= other < 7 && other != col && self.can_play(col) ==> #[trigger] self.play_col(
                    col,
                ).height(other) == self.height(other),
    {
        let c = col as u64;
        lemma_count_bounds(self.mask, c);
        lemma_can_play_count(self.current, self.mask, c);
        if self.can_play(col) {
            lemma_move_cell(self.current, self.mask, c, self.height(col) as u64);
            lemma_move_bit(self.current, self.mask, c);
            let b = self.move_bit(col);
            let possible = self.possible();
            assert(b & column_mask_spec(c) != 0) by (bit_vector)
                requires
                    b != 0,
                    b == possible & column_mask_spec(c),
            ;
            lemma_one_column(b);
            assert forall|other: int| 0 <= other < 7 implies #[trigger] self.play_col(col).height(
                other,
            ) == self.height(other) + in_column(b, other as u64) by {
                lemma_count_col(self.current, self.mask, b, other as u64);
            }
            assert(in_column(b, c) == 1);
            assert(self.play_col(col).height(0) == self.height(0) + in_column(b, 0));
            assert(self.play_col(col).height(1) == self.height(1) + in_column(b, 1));
            assert(self.play_col(col).height(2) == self.height(2) + in_column(b, 2));
            assert(self.play_col(col).height(3) == self.height(3) + in_column(b, 3));
            assert(self.play_col(col).height(4) == self.height(4) + in_column(b, 4));
            assert(self.play_col(col).height(5) == self.height(5) + in_column(b, 5));
            assert(self.play_col(col).height(6) == self.height(6) + in_column(b, 6));
        }
    }

    /// Dropping a stone into a playable column of a legal position gives a
    /// legal position.
    pub proof fn lemma_play_col(self, col: int)
        requires
            self.wf(),
            self.can_play(col),
        ensures
            self.is_move(self.move_bit(col)),
            self.move_bit(col) == self.possible() & column_mask_spec(col as u64),
            self.play_col(col).wf(),
            self.moves < 42,
            self.play_col(col).can_win_next() <==> self.move_bit(col) & self.non_losing_moves()
                == 0,
    {
        lemma_move_bit(self.current, self.mask, col as u64);
        lemma_count_play(self.current, self.mask, self.move_bit(col));
        lemma_non_losing(self.current, self.mask, self.move_bit(col));
    }

    /// A legal position holds at most 42 stones, and fewer exactly if some
    /// column is playable.
    pub proof fn lemma_moves_bound(self)
        requires
            self.wf(),
        ensures
            self.moves <= 42,
            self.moves < 42 <==> exists|col: int| 0 <= col < 7 && self.can_play(col),
            forall|col: int| 0 <= col < 7 && !self.can_play(col) ==> self.moves >= 6,
            self.can_win_next() ==> 6 <= self.moves < 42,
    {
        lemma_stone_count_bounds(self.mask);
        let cur = self.current;
        let mask = self.mask;
        assert forall|col: int| 0 <= col < 7 implies (self.can_play(col) <==> col_count(
            mask,
            col as u64,
        ) < 6) && 0 <= col_count(mask, col as u64) <= 6 by {
            lemma_can_play_count(cur, mask, col as u64);
            lemma_count_bounds(mask, col as u64);
        }
        assert(self.can_play(0) <==> col_count(mask, 0) < 6);
        assert(self.can_play(1) <==> col_count(mask, 1) < 6);
        assert(self.can_play(2) <==> col_count(mask, 2) < 6);
        assert(self.can_play(3) <==> col_count(mask, 3) < 6);
        assert(self.can_play(4) <==> col_count(mask, 4) < 6);
        assert(self.can_play(5) <==> col_count(mask, 5) < 6);
        assert(self.can_play(6) <==> col_count(mask, 6) < 6);
        if self.can_win_next() {
            lemma_winner_has_three(cur, mask);
            let spots = self.winning_spots() & self.possible();
            assert(possible_spec(mask) & BOARD_MASK == possible_spec(mask) && (possible_spec(mask)
                == 0 ==> spots == 0)) by (bit_vector)
                requires
                    spots == winning_spec(cur, mask) & possible_spec(mask),
            ;
            lemma_some_column(self.possible());
            assert forall|col: int| 0 <= col < 7 && self.possible() & column_mask_spec(col as u64)
                != 0 implies self.can_play(col) by {
                lemma_can_play_count(cur, mask, col as u64);
            }
        }
    }

    /// The side to move can win at once exactly if the move into some
    /// playable column wins.
    pub proof fn lemma_can_win_next(self)
        requires
            self.wf(),
        ensures
            self.can_win_next() <==> exists|col: int|
                0 <= col < 7 && self.can_play(col) && #[trigger] self.is_winning_move(col),
    {
        let spots = self.winning_spots() & self.possible();
        let cur = self.current;
        let mask = self.mask;
        assert(spots & BOARD_MASK == spots) by (bit_vector)
            requires
                spots == winning_spec(cur, mask) & possible_spec(mask),
        ;
        assert forall|col: int|
            0 <= col < 7 && #[trigger] self.is_winning_move(col) implies self.can_play(col)
            && self.can_win_next() by {
            lemma_can_play_count(cur, mask, col as u64);
            let c = col as u64;
            let w = self.winning_spots();
            let p = self.possible();
            assert(w & p & column_mask_spec(c) != 0 ==> p & column_mask_spec(c) != 0 && w & p != 0)
                by (bit_vector);
        }
        if self.can_win_next() {
            lemma_some_column(spots);
            let col: int = if spots & column_mask_spec(0) != 0 {
                0
            } else if spots & column_mask_spec(1) != 0 {
                1
            } else if spots & column_mask_spec(2) != 0 {
                2
            } else if spots & column_mask_spec(3) != 0 {
                3
            } else if spots & column_mask_spec(4) != 0 {
                4
            } else if spots & column_mask_spec(5) != 0 {
                5
            } else {
                6
            };
            assert(self.is_winning_move(col));
        }
    }

    /// The mirror image of a legal position is legal, and its own mirror
    /// image is the position.
    pub proof fn lemma_mirror_wf(self)
        requires
            self.wf(),
        ensures
            self.mirror().wf(),
            self.mirror().mirror() == self,
            self.mirror().key() == mirror_bits(self.key()),
            self.mirror().can_win_next() == self.can_win_next(),
    {
        lemma_mirror_bits(self.current, self.mask);
        lemma_mirror_moves(self.current, self.mask, 0);
        lemma_mirror_moves(self.current, self.mask, 1);
        lemma_mirror_moves(self.current, self.mask, 2);
        lemma_mirror_moves(self.current, self.mask, 3);
        lemma_mirror_moves(self.current, self.mask, 4);
        lemma_mirror_moves(self.current, self.mask, 5);
        lemma_mirror_moves(self.current, self.mask, 6);
    }

    /// Dropping a stone into column `6 - col` of the mirror image gives
    /// the mirror image of dropping it into column `col`.
    pub proof fn lemma_mirror_play(self, col: int)
        requires
            self.wf(),
            0 <= col < 7,
        ensures
            self.mirror().can_play(6 - col) == self.can_play(col),
            self.mirror().play_col(6 - col) == self.play_col(col).mirror(),
            self.mirror().is_winning_move(6 - col) == self.is_winning_move(col),
    {
        lemma_mirror_bits(self.current, self.mask);
        lemma_mirror_moves(self.current, self.mask, col as u64);
        lemma_mirror_non_losing(self.current, self.mask, col as u64, (6 - col) as u64);
    }
}

impl Board {
    /// The key tells legal positions apart, is below 2^49, and does not
    /// end in 32 set bits.
    pub proof fn lemma_key(self, other: Board)
        requires
            self.wf(),
            other.wf(),
        ensures
            self.key() == self.current + self.mask,
            self.key() < 0x2_0000_0000_0000,
            self.key() % 0x1_0000_0000 != 0xffff_ffff,
            self.key() == other.key() ==> self == other,
    {
        lemma_wf_bounds(self.current, self.mask);
        lemma_wf_bounds(other.current, other.mask);
        lemma_key_injective(self.current, self.mask, self.current, self.mask);
        if self.key() == other.key() {
            lemma_key_injective(self.current, self.mask, other.current, other.mask);
        }
    }
}

impl Board {
    /// Where the side to move has no four in a row, a move wins exactly
    /// if the stone completes four in a row; and a move that does not win
    /// leaves a position in which neither side has four in a row, if
    /// neither had.
    pub proof fn lemma_winning_move(self, col: int)
        requires
            self.wf(),
            self.can_play(col),
            !has_alignment(self.current),
        ensures
            self.is_winning_move(col) <==> has_alignment(self.current | self.move_bit(col)),
            self.no_alignment() && !self.is_winning_move(col) ==> self.play_col(col).no_alignment(),
    {
        let b = self.move_bit(col);
        let w = self.winning_spots();
        let possible = self.possible();
        let c = col as u64;
        lemma_move_bit(self.current, self.mask, c);
        lemma_winning_cell(self.current, self.mask, b);
        lemma_stones_after_move(self.current, self.mask, b);
        assert(w & possible & column_mask_spec(c) == w & b) by (bit_vector)
            requires
                b == possible & column_mask_spec(c),
        ;
    }

    /// After a move the stones of the side that moved are its stones from
    /// before and the new one.
    pub proof fn lemma_move_stones(self, col: int)
        requires
            self.wf(),
            self.can_play(col),
        ensures
            self.play_col(col).current ^ self.play_col(col).mask == self.current | self.move_bit(
                col,
            ),
    {
        lemma_move_bit(self.current, self.mask, col as u64);
        lemma_stones_after_move(self.current, self.mask, self.move_bit(col));
    }
}

} // verus!
