//! Four in a row, cell by cell: what it means on the board, and that the
//! shifts of the bitboards find exactly that.

use crate::bitboard::{cell_spec, has_alignment, single_bit, BOARD_MASK, BOTTOM_MASK};
use crate::board::Board;
use vstd::prelude::*;

verus! {

/// Whether `stones` holds the cell in row `row`, counted from the bottom,
/// of column `col`, and the cell is on the board.
pub open spec fn has_stone(stones: u64, col: int, row: int) -> bool {
    0 <= col < 7 && 0 <= row < 6 && stones & cell_spec(col as u64, row as u64) != 0
}

/// Whether `stones` holds the four cells that begin at the given cell and
/// go on by `dc` columns and `dr` rows each.
pub open spec fn line_of_four(stones: u64, col: int, row: int, dc: int, dr: int) -> bool {
    &&& has_stone(stones, col, row)
    &&& has_stone(stones, col + dc, row + dr)
    &&& has_stone(stones, col + 2 * dc, row + 2 * dr)
    &&& has_stone(stones, col + 3 * dc, row + 3 * dr)
}

/// Whether four cells of `stones` in a row begin at the given cell: going
/// up, to the right, up and to the right, or down and to the right.
pub open spec fn line_from(stones: u64, col: int, row: int) -> bool {
    ||| line_of_four(stones, col, row, 0, 1)
    ||| line_of_four(stones, col, row, 1, 0)
    ||| line_of_four(stones, col, row, 1, 1)
    ||| line_of_four(stones, col, row, 1, -1)
}

/// Whether `stones` holds four cells in a row.
pub open spec fn four_in_a_row(stones: u64) -> bool {
    exists|col: int, row: int| line_from(stones, col, row)
}

/// Four cells at equal distance make the shifted bitboards meet.
proof fn lemma_cells_align(p: u64, i: u64, i1: u64, i2: u64, i3: u64, d: u64)
    by (bit_vector)
    requires
        d == 1 || d == 6 || d == 7 || d == 8,
        i < 48,
        i1 == i + d,
        i2 == i1 + d,
        i3 == i2 + d,
        p & (1u64 << i) != 0,
        p & (1u64 << i1) != 0,
        p & (1u64 << i2) != 0,
        p & (1u64 << i3) != 0,
    ensures
        has_alignment(p),
{
}

/// Where the shifted bitboards meet, four cells at equal distance are
/// held, all of them on the board.
proof fn lemma_aligned_cells(p: u64, x: u64, i: u64, i1: u64, i2: u64, i3: u64, d: u64)
    by (bit_vector)
    requires
        p & BOARD_MASK == p,
        d == 1 || d == 6 || d == 7 || d == 8,
        d == 1 ==> x == p & (p >> 1) & (p >> 2) & (p >> 3),
        d == 7 ==> x == p & (p >> 7) & (p >> 14) & (p >> 21),
        d == 6 ==> x == p & (p >> 6) & (p >> 12) & (p >> 18),
        d == 8 ==> x == p & (p >> 8) & (p >> 16) & (p >> 24),
        i < 64,
        i1 == i + d,
        i2 == i1 + d,
        i3 == i2 + d,
        (x >> i) & 1 == 1,
    ensures
        i3 < 48,
        p & (1u64 << i) != 0,
        p & (1u64 << i1) != 0,
        p & (1u64 << i2) != 0,
        p & (1u64 << i3) != 0,
        i % 7 != 6,
        i1 % 7 != 6,
        i2 % 7 != 6,
        i3 % 7 != 6,
{
}

/// The four cells at distance `d` from bit `i` on, as a line on the
/// board.
proof fn lemma_line_from_bits(p: u64, i: u64, d: u64)
    requires
        d == 1 || d == 6 || d == 7 || d == 8,
        i + d + d + d < 48,
        p & (1u64 << i) != 0,
        p & (1u64 << (i + d)) != 0,
        p & (1u64 << (i + d + d)) != 0,
        p & (1u64 << (i + d + d + d)) != 0,
        i % 7 != 6,
        (i + d) % 7 != 6,
        (i + d + d) % 7 != 6,
        (i + d + d + d) % 7 != 6,
    ensures
        four_in_a_row(p),
{
    let col = (i / 7) as int;
    let row = (i % 7) as int;
    let (dc, dr): (int, int) = if d == 1 {
        (0, 1)
    } else if d == 7 {
        (1, 0)
    } else if d == 8 {
        (1, 1)
    } else {
        (1, -1)
    };
    assert(cell_spec(col as u64, row as u64) == 1u64 << i);
    assert(cell_spec((col + dc) as u64, (row + dr) as u64) == 1u64 << (i + d));
    assert(cell_spec((col + 2 * dc) as u64, (row + 2 * dr) as u64) == 1u64 << (i + d + d));
    assert(cell_spec((col + 3 * dc) as u64, (row + 3 * dr) as u64) == 1u64 << (i + d + d + d));
    assert(line_of_four(p, col, row, dc, dr));
    assert(line_from(p, col, row));
}

/// Stones on the board hold four cells in a row exactly if the bitboard
/// meets itself shifted by one, two and three cells along a column, a row
/// or a diagonal.
pub proof fn lemma_four_in_a_row(p: u64)
    requires
        p & BOARD_MASK == p,
    ensures
        has_alignment(p) <==> four_in_a_row(p),
{
    if has_alignment(p) {
        let v = p & (p >> 1) & (p >> 2) & (p >> 3);
        let h = p & (p >> 7) & (p >> 14) & (p >> 21);
        let a = p & (p >> 6) & (p >> 12) & (p >> 18);
        let b = p & (p >> 8) & (p >> 16) & (p >> 24);
        let (x, d): (u64, u64) = if v != 0 {
            (v, 1)
        } else if h != 0 {
            (h, 7)
        } else if a != 0 {
            (a, 6)
        } else {
            (b, 8)
        };
        vstd::std_specs::bits::axiom_u64_trailing_zeros(x);
        let i = vstd::std_specs::bits::u64_trailing_zeros(x) as u64;
        lemma_aligned_cells(
            p,
            x,
            i,
            (i + d) as u64,
            (i + d + d) as u64,
            (i + d + d + d) as u64,
            d,
        );
        lemma_line_from_bits(p, i, d);
    }
    if four_in_a_row(p) {
        let (col, row) = choose|col: int, row: int| line_from(p, col, row);
        let i = (row + col * 7) as u64;
        let d: u64 = if line_of_four(p, col, row, 0, 1) {
            1
        } else if line_of_four(p, col, row, 1, 0) {
            7
        } else if line_of_four(p, col, row, 1, 1) {
            8
        } else {
            6
        };
        let (dc, dr): (int, int) = if d == 1 {
            (0, 1)
        } else if d == 7 {
            (1, 0)
        } else if d == 8 {
            (1, 1)
        } else {
            (1, -1)
        };
        assert(line_of_four(p, col, row, dc, dr));
        assert(cell_spec(col as u64, row as u64) == 1u64 << i);
        assert(cell_spec((col + dc) as u64, (row + dr) as u64) == 1u64 << (i + d));
        assert(cell_spec((col + 2 * dc) as u64, (row + 2 * dr) as u64) == 1u64 << (i + d + d));
        assert(cell_spec((col + 3 * dc) as u64, (row + 3 * dr) as u64) == 1u64 << (i + d + d + d));
        lemma_cells_align(p, i, (i + d) as u64, (i + d + d) as u64, (i + d + d + d) as u64, d);
    }
}

impl Board {
    /// Neither side holds four cells in a row.
    pub open spec fn no_four_in_a_row(self) -> bool {
        !four_in_a_row(self.current) && !four_in_a_row((self.current ^ self.mask) as u64)
    }

    /// Neither side of a legal position holds four cells in a row exactly
    /// if neither bitboard meets itself shifted.
    pub proof fn lemma_no_four_in_a_row(self)
        requires
            self.wf(),
        ensures
            self.no_four_in_a_row() == self.no_alignment(),
    {
        let cur = self.current;
        let mask = self.mask;
        assert(cur & BOARD_MASK == cur && (cur ^ mask) & BOARD_MASK == cur ^ mask) by (bit_vector)
            requires
                cur & mask == cur,
                mask & BOARD_MASK == mask,
        ;
        lemma_four_in_a_row(cur);
        lemma_four_in_a_row(cur ^ mask);
    }

    /// Where the side to move does not hold four cells in a row, its move
    /// into a playable column wins exactly if the new stone gives it four
    /// cells in a row; and after a move that does not win, neither side
    /// holds four in a row, if neither did.
    pub proof fn lemma_winning_move_completes_line(self, col: int)
        requires
            self.wf(),
            self.can_play(col),
            !four_in_a_row(self.current),
        ensures
            self.is_winning_move(col) <==> four_in_a_row(
                (self.current | self.move_bit(col)) as u64,
            ),
            self.no_four_in_a_row() && !self.is_winning_move(col) ==> self.play_col(
                col,
            ).no_four_in_a_row(),
    {
        let b = self.move_bit(col);
        let cur = self.current;
        let mask = self.mask;
        self.lemma_play_col(col);
        assert(cur & BOARD_MASK == cur && (cur | b) & BOARD_MASK == cur | b) by (bit_vector)
            requires
                cur & mask == cur,
                mask & BOARD_MASK == mask,
                single_bit(b),
                b & (((mask + BOTTOM_MASK) as u64) & BOARD_MASK) == b,
        ;
        lemma_four_in_a_row(cur);
        lemma_four_in_a_row(cur | b);
        self.lemma_no_four_in_a_row();
        self.lemma_winning_move(col);
        self.lemma_move_stones(col);
        self.play_col(col).lemma_no_four_in_a_row();
    }
}

} // verus!
