//! The base-3 key of a position: its digits, its size, and that it tells
//! apart all positions but a position and its mirror image.

use crate::bitboard::{
    col_count, column_mask_spec, lemma_column_rows, lemma_count_bounds, lemma_mirror_bits,
    lemma_mirror_cell, mirror_bits, stone_count, wf_bits, BOARD_MASK,
};
use crate::board::Board;
use vstd::prelude::*;

verus! {

/// The most stones a position may hold for its base-3 key to fit in 64
/// bits.
pub const KEY3_MAX_MOVES: u8 = 33;

/// Three to the power `n`.
pub open spec fn pow3(n: nat) -> nat
    decreases n,
{
    if n == 0 {
        1
    } else {
        3 * pow3((n - 1) as nat)
    }
}

/// `key` with the base-3 digits of column `col` from `row` upwards
/// appended: 1 for a stone of the side to move, 2 for one of the opponent,
/// and a final 0 above the last stone.
pub open spec fn column_key3(key: nat, cur: u64, mask: u64, col: u64, row: u64) -> nat
    decreases 6 - row,
{
    let cell = 1u64 << (col * 7 + row);
    if row < 6 && cell & mask != 0 {
        let digit: nat = if cell & cur != 0 {
            1
        } else {
            2
        };
        column_key3(key * 3 + digit, cur, mask, col, (row + 1) as u64)
    } else {
        key * 3
    }
}

/// The digits of columns `0 .. n`, left to right.
pub open spec fn key3_up(cur: u64, mask: u64, n: nat) -> nat
    decreases n,
{
    if n == 0 {
        0
    } else {
        column_key3(key3_up(cur, mask, (n - 1) as nat), cur, mask, (n - 1) as u64, 0)
    }
}

/// The digits of columns `6` down to `n`, right to left.
pub open spec fn key3_down(cur: u64, mask: u64, n: nat) -> nat
    decreases 7 - n,
{
    if n >= 7 {
        0
    } else {
        column_key3(key3_down(cur, mask, n + 1), cur, mask, n as u64, 0)
    }
}

/// The number of base-3 digits that columns `0 .. n` take.
pub open spec fn digits_up(mask: u64, n: nat) -> int
    decreases n,
{
    if n == 0 {
        0
    } else {
        digits_up(mask, (n - 1) as nat) + col_count(mask, (n - 1) as u64) + 1
    }
}

/// The number of base-3 digits that columns `n .. 7` take.
pub open spec fn digits_down(mask: u64, n: nat) -> int
    decreases 7 - n,
{
    if n >= 7 {
        0
    } else {
        digits_down(mask, n + 1) + col_count(mask, n as u64) + 1
    }
}

pub proof fn lemma_pow3_adds(a: nat, b: nat)
    ensures
        pow3(a + b) == pow3(a) * pow3(b),
        pow3(a) >= 1,
    decreases a,
{
    if a == 0 {
        assert(pow3(0) == 1);
        assert(pow3(a + b) == 1 * pow3(b));
    } else {
        lemma_pow3_adds((a - 1) as nat, b);
        assert(pow3(a + b) == 3 * pow3((a - 1 + b) as nat));
        assert(pow3(a) == 3 * pow3((a - 1) as nat));
        assert(3 * (pow3((a - 1) as nat) * pow3(b)) == (3 * pow3((a - 1) as nat)) * pow3(b))
            by (nonlinear_arith);
    }
}

pub proof fn lemma_pow3_40()
    ensures
        pow3(40) == 12157665459056928801,
{
    reveal_with_fuel(pow3, 11);
    assert(pow3(10) == 59049);
    assert(pow3(20) == 3486784401) by {
        lemma_pow3_adds(10, 10);
    }
    assert(pow3(40) == 12157665459056928801) by {
        lemma_pow3_adds(20, 20);
    }
}

pub proof fn lemma_pow3_monotonic(a: nat, b: nat)
    requires
        a <= b,
    ensures
        pow3(a) <= pow3(b),
    decreases b,
{
    if a < b {
        lemma_pow3_monotonic(a, (b - 1) as nat);
    }
}

/// The digits of all columns: one for each stone and one for each column.
pub proof fn lemma_digits_total(mask: u64)
    ensures
        digits_up(mask, 7) == stone_count(mask) + 7,
        digits_down(mask, 0) == stone_count(mask) + 7,
{
    reveal_with_fuel(digits_up, 8);
    reveal_with_fuel(digits_down, 8);
}

pub proof fn lemma_digits_up(mask: u64, n: nat, m: nat)
    requires
        n <= m <= 7,
    ensures
        0 <= digits_up(mask, n) <= digits_up(mask, m),
    decreases m,
{
    if m > 0 {
        lemma_count_bounds(mask, (m - 1) as u64);
        if n < m {
            lemma_digits_up(mask, n, (m - 1) as nat);
        } else {
            lemma_digits_up(mask, (n - 1) as nat, (m - 1) as nat);
        }
    }
}

pub proof fn lemma_digits_down(mask: u64, n: nat, m: nat)
    requires
        n <= m <= 7,
    ensures
        0 <= digits_down(mask, m) <= digits_down(mask, n),
    decreases 7 - n,
{
    if n < 7 {
        lemma_count_bounds(mask, n as u64);
        if n < m {
            lemma_digits_down(mask, n + 1, m);
        } else {
            lemma_digits_down(mask, n + 1, m + 1);
        }
    }
}

/// No prefix and no suffix of the columns takes more digits than all of
/// them.
pub proof fn lemma_digits_partial(mask: u64, n: nat)
    requires
        n <= 7,
    ensures
        0 <= digits_up(mask, n) <= stone_count(mask) + 7,
        0 <= digits_down(mask, n) <= stone_count(mask) + 7,
{
    lemma_digits_total(mask);
    lemma_digits_up(mask, n, 7);
    lemma_digits_down(mask, 0, n);
}

/// Room for the digits of one more column, where the digits of all fit
/// in 64 bits.
pub proof fn lemma_key3_room(key: u64, before: int, height: int, total: int)
    requires
        0 <= before,
        0 <= height,
        before + height + 1 <= total <= 40,
        key + 1 <= pow3(before as nat),
    ensures
        (key + 1) * pow3((height + 1) as nat) <= pow3((before + height + 1) as nat),
        pow3((before + height + 1) as nat) <= 0x1_0000_0000_0000_0000,
{
    lemma_pow3_adds(before as nat, (height + 1) as nat);
    lemma_pow3_adds((height + 1) as nat, 0);
    lemma_pow3_monotonic((before + height + 1) as nat, 40);
    lemma_pow3_40();
    let a = pow3(before as nat);
    let b = pow3((height + 1) as nat);
    assert((key + 1) * b <= a * b) by (nonlinear_arith)
        requires
            key + 1 <= a,
            b >= 1,
    ;
}

/// A column of the mirror image has the digits of the mirrored column.
pub proof fn lemma_mirror_column_key3(key: nat, cur: u64, mask: u64, col: u64, row: u64)
    requires
        col < 7,
        row <= 6,
    ensures
        column_key3(key, mirror_bits(cur), mirror_bits(mask), col, row) == column_key3(
            key,
            cur,
            mask,
            (6 - col) as u64,
            row,
        ),
    decreases 6 - row,
{
    lemma_mirror_cell(cur, col, (6 - col) as u64, row);
    lemma_mirror_cell(mask, col, (6 - col) as u64, row);
    let cell = 1u64 << (col * 7 + row);
    if row < 6 && cell & mirror_bits(mask) != 0 {
        let digit: nat = if cell & mirror_bits(cur) != 0 {
            1
        } else {
            2
        };
        lemma_mirror_column_key3(key * 3 + digit, cur, mask, col, (row + 1) as u64);
    }
}

/// The digits of the mirror image read from the left are the digits of
/// the position read from the right, and the other way round.
pub proof fn lemma_mirror_key3(cur: u64, mask: u64, n: nat)
    requires
        n <= 7,
    ensures
        key3_up(mirror_bits(cur), mirror_bits(mask), n) == key3_down(cur, mask, (7 - n) as nat),
        key3_down(mirror_bits(cur), mirror_bits(mask), (7 - n) as nat) == key3_up(cur, mask, n),
    decreases n,
{
    if n > 0 {
        lemma_mirror_key3(cur, mask, (n - 1) as nat);
        lemma_mirror_column_key3(
            key3_up(mirror_bits(cur), mirror_bits(mask), (n - 1) as nat),
            cur,
            mask,
            (n - 1) as u64,
            0,
        );
        lemma_mirror_column_key3(
            key3_down(mirror_bits(cur), mirror_bits(mask), (7 - n + 1) as nat),
            cur,
            mask,
            (7 - n) as u64,
            0,
        );
    }
}

impl Board {
    /// A position and its mirror image have the same base-3 key.
    pub proof fn lemma_key3_mirror(self)
        ensures
            self.mirror().key3() == self.key3(),
    {
        lemma_mirror_key3(self.current, self.mask, 7);
        lemma_mirror_key3(self.current, self.mask, 0);
    }
}


/// Whether the bitboard holds the cell in row `row` of column `col`.
pub open spec fn holds_cell(x: u64, col: u64, row: u64) -> bool {
    (1u64 << (col * 7 + row)) & x != 0
}

/// The base-3 digits of a column from the bottom up: 1 for a stone of the
/// side to move, 2 for a stone of the opponent.
pub open spec fn column_digits(cur: u64, mask: u64, col: u64) -> Seq<nat> {
    Seq::new(
        col_count(mask, col) as nat,
        |row: int|
            if holds_cell(cur, col, row as u64) {
                1nat
            } else {
                2nat
            },
    )
}

/// `key` with the base-3 digits of `digits` appended.
pub open spec fn append_digits(key: nat, digits: Seq<nat>) -> nat
    decreases digits.len(),
{
    if digits.len() == 0 {
        key
    } else {
        append_digits(key, digits.drop_last()) * 3 + digits.last()
    }
}

/// Whether every digit of `digits` is 1 or 2.
pub open spec fn stone_digits(digits: Seq<nat>) -> bool {
    forall|i: int| 0 <= i < digits.len() ==> #[trigger] digits[i] == 1 || digits[i] == 2
}

/// A digit appended to the key is a digit put before the others.
proof fn lemma_append_first(key: nat, digit: nat, digits: Seq<nat>)
    ensures
        append_digits(key * 3 + digit, digits) == append_digits(key, seq![digit] + digits),
    decreases digits.len(),
{
    let all = seq![digit] + digits;
    if digits.len() == 0 {
        assert(all.drop_last().len() == 0);
        assert(all.last() == digit);
        assert(append_digits(key, all.drop_last()) == key);
    } else {
        lemma_append_first(key, digit, digits.drop_last());
        assert(all.drop_last() == seq![digit] + digits.drop_last());
        assert(all.last() == digits.last());
    }
}

/// The digits that `column_key3` appends are the digits of the column,
/// and a zero after them.
proof fn lemma_column_key3_digits(key: nat, cur: u64, mask: u64, col: u64, row: u64)
    requires
        wf_bits(cur, mask),
        col < 7,
        row <= col_count(mask, col),
    ensures
        column_key3(key, cur, mask, col, row) == 3 * append_digits(
            key,
            column_digits(cur, mask, col).subrange(row as int, col_count(mask, col)),
        ),
    decreases 6 - row,
{
    let height = col_count(mask, col);
    let digits = column_digits(cur, mask, col);
    lemma_count_bounds(mask, col);
    lemma_column_rows(cur, mask, col, row);
    let rest = digits.subrange(row as int, height);
    if row < height {
        let cell = 1u64 << (col * 7 + row);
        let digit: nat = if cell & cur != 0 {
            1
        } else {
            2
        };
        lemma_column_key3_digits(key * 3 + digit, cur, mask, col, (row + 1) as u64);
        let tail = digits.subrange(row + 1, height);
        lemma_append_first(key, digit, tail);
        assert(digits[row as int] == digit);
        assert(rest == seq![digit] + tail);
    } else {
        assert(rest.len() == 0);
    }
}

/// A key that ends in the digit zero and the stones appended to it are
/// told by the number that they make.
proof fn lemma_append_injective(k1: nat, d1: Seq<nat>, k2: nat, d2: Seq<nat>)
    requires
        k1 % 3 == 0,
        k2 % 3 == 0,
        stone_digits(d1),
        stone_digits(d2),
        append_digits(k1, d1) == append_digits(k2, d2),
    ensures
        k1 == k2,
        d1 == d2,
    decreases d1.len() + d2.len(),
{
    if d1.len() == 0 && d2.len() == 0 {
        assert(d1 =~= d2);
    } else if d1.len() == 0 {
        assert(d2.last() == 1 || d2.last() == 2);
        assert(append_digits(k2, d2) % 3 == d2.last());
    } else if d2.len() == 0 {
        assert(d1.last() == 1 || d1.last() == 2);
        assert(append_digits(k1, d1) % 3 == d1.last());
    } else {
        assert(d1.last() == 1 || d1.last() == 2);
        assert(d2.last() == 1 || d2.last() == 2);
        let a = append_digits(k1, d1.drop_last());
        let b = append_digits(k2, d2.drop_last());
        assert(a * 3 + d1.last() == b * 3 + d2.last());
        assert(d1.last() == d2.last() && a == b);
        assert forall|i: int| 0 <= i < d1.drop_last().len() implies #[trigger] d1.drop_last()[i]
            == 1 || d1.drop_last()[i] == 2 by {
            assert(d1.drop_last()[i] == d1[i]);
        }
        assert forall|i: int| 0 <= i < d2.drop_last().len() implies #[trigger] d2.drop_last()[i]
            == 1 || d2.drop_last()[i] == 2 by {
            assert(d2.drop_last()[i] == d2[i]);
        }
        lemma_append_injective(k1, d1.drop_last(), k2, d2.drop_last());
        assert(d1 =~= d1.drop_last().push(d1.last()));
        assert(d2 =~= d2.drop_last().push(d2.last()));
    }
}

/// The digits of the first columns end in a zero.
proof fn lemma_key3_up_ends_in_zero(cur: u64, mask: u64, n: nat)
    requires
        wf_bits(cur, mask),
        n <= 7,
    ensures
        key3_up(cur, mask, n) % 3 == 0,
        n > 0 ==> key3_up(cur, mask, n) == 3 * append_digits(
            key3_up(cur, mask, (n - 1) as nat),
            column_digits(cur, mask, (n - 1) as u64),
        ),
{
    if n > 0 {
        let col = (n - 1) as u64;
        lemma_count_bounds(mask, col);
        lemma_column_key3_digits(key3_up(cur, mask, (n - 1) as nat), cur, mask, col, 0);
        let digits = column_digits(cur, mask, col);
        assert(digits.subrange(0, col_count(mask, col)) == digits);
    }
}

/// Two columns with the same digits hold the same cells.
proof fn lemma_digits_tell_column(c1: u64, m1: u64, c2: u64, m2: u64, col: u64)
    requires
        wf_bits(c1, m1),
        wf_bits(c2, m2),
        col < 7,
        column_digits(c1, m1, col) == column_digits(c2, m2, col),
    ensures
        c1 & column_mask_spec(col) == c2 & column_mask_spec(col),
        m1 & column_mask_spec(col) == m2 & column_mask_spec(col),
{
    let d1 = column_digits(c1, m1, col);
    let d2 = column_digits(c2, m2, col);
    let height = col_count(m1, col);
    lemma_count_bounds(m1, col);
    lemma_count_bounds(m2, col);
    assert(d1.len() == d2.len());
    assert(col_count(m2, col) == height);
    assert forall|row: u64| row < 6 implies #[trigger] holds_cell(c1, col, row) == holds_cell(
        c2,
        col,
        row,
    ) by {
        lemma_column_rows(c1, m1, col, row);
        lemma_column_rows(c2, m2, col, row);
        lemma_cell_of_mover(c1, m1, col, row);
        lemma_cell_of_mover(c2, m2, col, row);
        if row < height {
            assert(d1[row as int] == d2[row as int]);
        }
    }
    lemma_column_of_cells(c1, m1, c2, m2, col);
}

/// A cell that is not played holds no stone of the side to move.
proof fn lemma_cell_of_mover(cur: u64, mask: u64, col: u64, row: u64)
    by (bit_vector)
    requires
        cur & mask == cur,
        col < 7,
        row < 6,
    ensures
        (1u64 << (col * 7 + row)) & mask == 0 ==> !holds_cell(cur, col, row),
{
}

/// Two legal columns of the same height whose cells hold the same stones
/// of the side to move are the same.
proof fn lemma_column_of_cells(c1: u64, m1: u64, c2: u64, m2: u64, col: u64)
    requires
        wf_bits(c1, m1),
        wf_bits(c2, m2),
        col < 7,
        col_count(m1, col) == col_count(m2, col),
        forall|row: u64|
            row < 6 ==> #[trigger] holds_cell(c1, col, row) == holds_cell(c2, col, row),
    ensures
        c1 & column_mask_spec(col) == c2 & column_mask_spec(col),
        m1 & column_mask_spec(col) == m2 & column_mask_spec(col),
{
    assert(holds_cell(c1, col, 0) == holds_cell(c2, col, 0));
    assert(holds_cell(c1, col, 1) == holds_cell(c2, col, 1));
    assert(holds_cell(c1, col, 2) == holds_cell(c2, col, 2));
    assert(holds_cell(c1, col, 3) == holds_cell(c2, col, 3));
    assert(holds_cell(c1, col, 4) == holds_cell(c2, col, 4));
    assert(holds_cell(c1, col, 5) == holds_cell(c2, col, 5));
    lemma_column_of_six_cells(c1, m1, c2, m2, col);
}

proof fn lemma_column_of_six_cells(c1: u64, m1: u64, c2: u64, m2: u64, col: u64)
    by (bit_vector)
    requires
        wf_bits(c1, m1),
        wf_bits(c2, m2),
        col < 7,
        col_count(m1, col) == col_count(m2, col),
        holds_cell(c1, col, 0) == holds_cell(c2, col, 0),
        holds_cell(c1, col, 1) == holds_cell(c2, col, 1),
        holds_cell(c1, col, 2) == holds_cell(c2, col, 2),
        holds_cell(c1, col, 3) == holds_cell(c2, col, 3),
        holds_cell(c1, col, 4) == holds_cell(c2, col, 4),
        holds_cell(c1, col, 5) == holds_cell(c2, col, 5),
    ensures
        c1 & column_mask_spec(col) == c2 & column_mask_spec(col),
        m1 & column_mask_spec(col) == m2 & column_mask_spec(col),
{
}

/// Bitboards on the board that agree in every column are the same.
proof fn lemma_columns_tell_bitboard(x: u64, y: u64)
    by (bit_vector)
    requires
        x & BOARD_MASK == x,
        y & BOARD_MASK == y,
        x & column_mask_spec(0) == y & column_mask_spec(0),
        x & column_mask_spec(1) == y & column_mask_spec(1),
        x & column_mask_spec(2) == y & column_mask_spec(2),
        x & column_mask_spec(3) == y & column_mask_spec(3),
        x & column_mask_spec(4) == y & column_mask_spec(4),
        x & column_mask_spec(5) == y & column_mask_spec(5),
        x & column_mask_spec(6) == y & column_mask_spec(6),
    ensures
        x == y,
{
}

/// The stones of the side to move are on the board.
proof fn lemma_mover_on_board(cur: u64, mask: u64)
    by (bit_vector)
    requires
        wf_bits(cur, mask),
    ensures
        cur & BOARD_MASK == cur,
{
}

/// The digits of a column are ones and twos.
proof fn lemma_column_digits_are_stones(cur: u64, mask: u64, col: u64)
    ensures
        stone_digits(column_digits(cur, mask, col)),
{
}

/// Two legal pairs of bitboards whose first columns make the same number
/// agree in those columns.
proof fn lemma_key3_up_injective(c1: u64, m1: u64, c2: u64, m2: u64, n: nat)
    requires
        wf_bits(c1, m1),
        wf_bits(c2, m2),
        n <= 7,
        key3_up(c1, m1, n) == key3_up(c2, m2, n),
    ensures
        forall|col: u64|
            col < n ==> c1 & #[trigger] column_mask_spec(col) == c2 & column_mask_spec(col) && m1
                & column_mask_spec(col) == m2 & column_mask_spec(col),
    decreases n,
{
    if n > 0 {
        let last = (n - 1) as u64;
        lemma_key3_up_ends_in_zero(c1, m1, n);
        lemma_key3_up_ends_in_zero(c2, m2, n);
        lemma_key3_up_ends_in_zero(c1, m1, (n - 1) as nat);
        lemma_key3_up_ends_in_zero(c2, m2, (n - 1) as nat);
        lemma_column_digits_are_stones(c1, m1, last);
        lemma_column_digits_are_stones(c2, m2, last);
        lemma_append_injective(
            key3_up(c1, m1, (n - 1) as nat),
            column_digits(c1, m1, last),
            key3_up(c2, m2, (n - 1) as nat),
            column_digits(c2, m2, last),
        );
        lemma_digits_tell_column(c1, m1, c2, m2, last);
        lemma_key3_up_injective(c1, m1, c2, m2, (n - 1) as nat);
    }
}

/// Stones appended to a key make a number below the next key with as
/// many zeros appended.
proof fn lemma_append_bound(key: nat, digits: Seq<nat>)
    requires
        stone_digits(digits),
    ensures
        append_digits(key, digits) + 1 <= (key + 1) * pow3(digits.len()),
    decreases digits.len(),
{
    if digits.len() == 0 {
        assert(pow3(0) == 1);
    } else {
        let rest = digits.drop_last();
        assert forall|i: int| 0 <= i < rest.len() implies #[trigger] rest[i] == 1 || rest[i]
            == 2 by {
            assert(rest[i] == digits[i]);
        }
        lemma_append_bound(key, rest);
        assert(digits.last() == 1 || digits.last() == 2);
        let a = append_digits(key, rest);
        let n = pow3(rest.len());
        assert(pow3(digits.len()) == 3 * n);
        assert((key + 1) * (3 * n) == 3 * ((key + 1) * n)) by (nonlinear_arith);
    }
}

/// The digits of the first columns make a number below three to the
/// power of their count.
proof fn lemma_key3_up_bound(cur: u64, mask: u64, n: nat)
    requires
        wf_bits(cur, mask),
        n <= 7,
    ensures
        key3_up(cur, mask, n) + 1 <= pow3(digits_up(mask, n) as nat),
        digits_up(mask, n) >= 0,
    decreases n,
{
    lemma_digits_up(mask, n, n);
    if n == 0 {
        assert(pow3(0) == 1);
    } else {
        let col = (n - 1) as u64;
        let before = key3_up(cur, mask, (n - 1) as nat);
        let digits = column_digits(cur, mask, col);
        lemma_key3_up_bound(cur, mask, (n - 1) as nat);
        lemma_digits_up(mask, (n - 1) as nat, (n - 1) as nat);
        lemma_key3_up_ends_in_zero(cur, mask, n);
        lemma_column_digits_are_stones(cur, mask, col);
        lemma_append_bound(before, digits);
        lemma_count_bounds(mask, col);
        let d = digits_up(mask, (n - 1) as nat) as nat;
        let h = digits.len();
        lemma_pow3_adds(d, h);
        lemma_pow3_adds(h, 0);
        assert(pow3((d + h + 1) as nat) == 3 * pow3(d + h));
        assert((before + 1) * pow3(h) <= pow3(d) * pow3(h)) by (nonlinear_arith)
            requires
                before + 1 <= pow3(d),
                pow3(h) >= 1,
        ;
    }
}

impl Board {
    /// The digits of all columns read from the left.
    pub open spec fn key3_forward(self) -> nat {
        key3_up(self.current, self.mask, 7)
    }

    /// Legal positions whose digits read from the left make the same
    /// number are the same position.
    pub proof fn lemma_key3_forward_injective(self, other: Board)
        requires
            self.wf(),
            other.wf(),
            self.key3_forward() == other.key3_forward(),
        ensures
            self == other,
    {
        let (c1, m1, c2, m2) = (self.current, self.mask, other.current, other.mask);
        lemma_key3_up_injective(c1, m1, c2, m2, 7);
        assert(c1 & column_mask_spec(0) == c2 & column_mask_spec(0));
        assert(c1 & column_mask_spec(1) == c2 & column_mask_spec(1));
        assert(c1 & column_mask_spec(2) == c2 & column_mask_spec(2));
        assert(c1 & column_mask_spec(3) == c2 & column_mask_spec(3));
        assert(c1 & column_mask_spec(4) == c2 & column_mask_spec(4));
        assert(c1 & column_mask_spec(5) == c2 & column_mask_spec(5));
        assert(c1 & column_mask_spec(6) == c2 & column_mask_spec(6));
        lemma_mover_on_board(c1, m1);
        lemma_mover_on_board(c2, m2);
        lemma_columns_tell_bitboard(c1, c2);
        lemma_columns_tell_bitboard(m1, m2);
    }

    /// The base-3 key of a legal position of at most `KEY3_MAX_MOVES`
    /// stones fits in 64 bits.
    pub proof fn lemma_key3_fits(self)
        requires
            self.wf(),
            self.moves <= KEY3_MAX_MOVES,
        ensures
            self.key3() <= u64::MAX,
            self.key3() as u64 == self.key3(),
    {
        lemma_key3_up_bound(self.current, self.mask, 7);
        lemma_digits_total(self.mask);
        lemma_pow3_monotonic((self.moves + 7) as nat, 40);
        lemma_pow3_40();
    }

    /// Two legal positions have the same base-3 key exactly if they are
    /// the same position or mirror images of each other.
    pub proof fn lemma_key3_canonical(self, other: Board)
        requires
            self.wf(),
            other.wf(),
        ensures
            self.key3() == other.key3() <==> (other == self || other == self.mirror()),
    {
        self.lemma_key3_mirror();
        self.lemma_mirror_wf();
        other.lemma_mirror_wf();
        if self.key3() == other.key3() {
            let (c1, m1, c2, m2) = (self.current, self.mask, other.current, other.mask);
            lemma_mirror_key3(c1, m1, 7);
            lemma_mirror_key3(c2, m2, 7);
            lemma_key3_up_ends_in_zero(c1, m1, 7);
            lemma_key3_up_ends_in_zero(c2, m2, 7);
            lemma_mirror_bits(c1, m1);
            lemma_mirror_bits(c2, m2);
            lemma_key3_up_ends_in_zero(
                mirror_bits(c1),
                mirror_bits(m1),
                7,
            );
            lemma_key3_up_ends_in_zero(
                mirror_bits(c2),
                mirror_bits(m2),
                7,
            );
            let f1 = self.key3_forward();
            let r1 = self.mirror().key3_forward();
            let f2 = other.key3_forward();
            let r2 = other.mirror().key3_forward();
            assert(key3_down(c1, m1, 0) == r1);
            assert(key3_down(c2, m2, 0) == r2);
            let k1 = if f1 < r1 {
                f1
            } else {
                r1
            };
            let k2 = if f2 < r2 {
                f2
            } else {
                r2
            };
            assert(k1 / 3 == k2 / 3);
            assert(k1 == k2);
            if k1 == f1 && k2 == f2 {
                self.lemma_key3_forward_injective(other);
            } else if k1 == f1 {
                self.lemma_key3_forward_injective(other.mirror());
            } else if k2 == f2 {
                self.mirror().lemma_key3_forward_injective(other);
            } else {
                self.mirror().lemma_key3_forward_injective(other.mirror());
            }
        }
    }
}

} // verus!
