//! Bitboards: the cells of the board as the bits of a 64-bit word, the
//! operations on them that the game needs, and what these operations do.

use vstd::prelude::*;

verus! {

/// A set of board cells, one bit per cell.
///
/// Column `c` takes the seven bits `7c .. 7c + 6`, bottom cell first; the
/// seventh bit of each column lies above the board and is never set:
///
/// ```text
/// .  .  .  .  .  .  .
/// 5 12 19 26 33 40 47
/// 4 11 18 25 32 39 46
/// 3 10 17 24 31 38 45
/// 2  9 16 23 30 37 44
/// 1  8 15 22 29 36 43
/// 0  7 14 21 28 35 42
/// ```
pub type Bitboard = u64;

/// A 0-based column index.
pub type Column = u8;

/// The bottom cell of every column.
pub const BOTTOM_MASK: Bitboard = 0x0000_0408_1020_4081;

/// Every cell of the board.
pub const BOARD_MASK: Bitboard = 0x0000_fdfb_f7ef_dfbf;

/// All cells of column `col`.
pub open spec fn column_mask_spec(col: u64) -> u64 {
    0x3fu64 << (col * 7)
}

/// The top cell of column `col`.
pub open spec fn top_mask_spec(col: u64) -> u64 {
    0x20u64 << (col * 7)
}

/// The bottom cell of column `col`.
pub open spec fn bottom_mask_spec(col: u64) -> u64 {
    1u64 << (col * 7)
}

/// The cell in row `row`, counted from the bottom, of column `col`.
pub open spec fn cell_spec(col: u64, row: u64) -> u64 {
    1u64 << (row + col * 7)
}

/// The lowest empty cell of every column that is not full.
pub open spec fn possible_spec(mask: u64) -> u64 {
    ((mask + BOTTOM_MASK) as u64) & BOARD_MASK
}

/// The cells, on the board or not, that would complete four in a row with
/// three stones of `p`: vertically, horizontally and along both diagonals.
pub open spec fn raw_winning(p: u64) -> u64 {
    let v = (p << 1) & (p << 2) & (p << 3);
    let h1 = (p << 7) & (p << 14);
    let h2 = (p >> 7) & (p >> 14);
    let h = (h1 & (p << 21)) | (h1 & (p >> 7)) | (h2 & (p << 7)) | (h2 & (p >> 21));
    let d1 = (p << 6) & (p << 12);
    let d2 = (p >> 6) & (p >> 12);
    let d = (d1 & (p << 18)) | (d1 & (p >> 6)) | (d2 & (p << 6)) | (d2 & (p >> 18));
    let e1 = (p << 8) & (p << 16);
    let e2 = (p >> 8) & (p >> 16);
    let e = (e1 & (p << 24)) | (e1 & (p >> 8)) | (e2 & (p << 8)) | (e2 & (p >> 24));
    v | h | d | e
}

/// The empty cells of the board where a stone of `p` would complete four in
/// a row.
pub open spec fn winning_spec(p: u64, mask: u64) -> u64 {
    raw_winning(p) & (BOARD_MASK ^ mask)
}

/// Whether the stones of `p` hold four in a row.
pub open spec fn has_alignment(p: u64) -> bool {
    ||| p & (p >> 1) & (p >> 2) & (p >> 3) != 0
    ||| p & (p >> 7) & (p >> 14) & (p >> 21) != 0
    ||| p & (p >> 6) & (p >> 12) & (p >> 18) != 0
    ||| p & (p >> 8) & (p >> 16) & (p >> 24) != 0
}

/// The shape of a legal pair of bitboards: the mover's stones are among the
/// played cells, the played cells are on the board, and every column is
/// filled from the bottom without a gap.
pub open spec fn wf_bits(cur: u64, mask: u64) -> bool {
    &&& cur & mask == cur
    &&& mask & BOARD_MASK == mask
    &&& ((mask + BOTTOM_MASK) as u64) & mask == 0
}

/// Whether `b` is exactly one cell.
pub open spec fn single_bit(b: u64) -> bool {
    b != 0 && b & ((b - 1) as u64) == 0
}

/// The moves that do not let the opponent win at once.
pub open spec fn non_losing_spec(cur: u64, mask: u64) -> u64 {
    let possible = possible_spec(mask);
    let opp = winning_spec(cur ^ mask, mask);
    let forced = possible & opp;
    if forced == 0 {
        possible & !(opp >> 1)
    } else if forced & ((forced - 1) as u64) == 0 {
        forced & !(opp >> 1)
    } else {
        0
    }
}

/// The number of cells of column `col` that `x` holds.
pub open spec fn col_count(x: u64, col: u64) -> int {
    let c = (x >> (col * 7)) & 0x3f;
    (c & 1) + ((c >> 1) & 1) + ((c >> 2) & 1) + ((c >> 3) & 1) + ((c >> 4) & 1) + ((c >> 5) & 1)
}

/// The number of board cells that `x` holds.
pub open spec fn stone_count(x: u64) -> int {
    col_count(x, 0) + col_count(x, 1) + col_count(x, 2) + col_count(x, 3) + col_count(x, 4)
        + col_count(x, 5) + col_count(x, 6)
}

/// The bitboard with its columns in reverse order.
pub open spec fn mirror_bits(x: u64) -> u64 {
    ((x & 0x7f) << 42) | (((x >> 7) & 0x7f) << 35) | (((x >> 14) & 0x7f) << 28) | (((x >> 21)
        & 0x7f) << 21) | (((x >> 28) & 0x7f) << 14) | (((x >> 35) & 0x7f) << 7) | ((x >> 42)
        & 0x7f)
}

/// One if `b` lies in column `col`, zero if not.
pub open spec fn in_column(b: u64, col: u64) -> int {
    if b & column_mask_spec(col) != 0 {
        1
    } else {
        0
    }
}

/// The bottom cells of the first `width` columns of a board of `height`
/// rows, each column with one bit above its cells.
pub open spec fn bottom_spec(width: nat, height: nat) -> u64
    decreases width,
{
    if width == 0 {
        0
    } else {
        bottom_spec((width - 1) as nat, height) | (1u64 << (((width - 1) * (height + 1)) as u64))
    }
}

/// The masks of the board: the bottom cells of the seven columns, and six
/// cells from each of them upwards.
pub proof fn lemma_masks()
    ensures
        BOTTOM_MASK == bottom_spec(7, 6),
        BOARD_MASK == BOTTOM_MASK * 63,
{
    reveal_with_fuel(bottom_spec, 8);
    assert(((((((0u64 | (1u64 << 0u64)) | (1u64 << 7u64)) | (1u64 << 14u64)) | (1u64 << 21u64)) | (
    1u64 << 28u64)) | (1u64 << 35u64)) | (1u64 << 42u64) == 0x0000_0408_1020_4081
        && 0x0000_fdfb_f7ef_dfbfu64 == 0x0000_0408_1020_4081u64 * 63) by (bit_vector);
}

/// Bounds that hold of every legal pair of bitboards.
pub proof fn lemma_wf_bounds(cur: u64, mask: u64)
    by (bit_vector)
    requires
        wf_bits(cur, mask),
    ensures
        cur <= mask,
        mask <= BOARD_MASK,
        cur + mask < 0x2_0000_0000_0000,
        mask + BOTTOM_MASK < 0x2_0000_0000_0000,
        possible_spec(mask) & mask == 0,
{
}

/// The empty board is legal, and holds no stone and no four in a row.
pub proof fn lemma_empty()
    by (bit_vector)
    ensures
        wf_bits(0, 0),
        stone_count(0) == 0,
        col_count(0, 0) == 0 && col_count(0, 1) == 0 && col_count(0, 2) == 0 && col_count(0, 3)
            == 0 && col_count(0, 4) == 0 && col_count(0, 5) == 0 && col_count(0, 6) == 0,
        !has_alignment(0),
        0u64 ^ 0u64 == 0,
        winning_spec(0, 0) == 0,
        0u64 & possible_spec(0) == 0,
{
}

/// What holds of the resting cell of a playable column, and of the
/// bitboards after the move.
pub proof fn lemma_move_bit(cur: u64, mask: u64, col: u64)
    by (bit_vector)
    requires
        wf_bits(cur, mask),
        col < 7,
        mask & top_mask_spec(col) == 0,
    ensures
        ({
            let b = ((mask + bottom_mask_spec(col)) as u64) & column_mask_spec(col);
            &&& single_bit(b)
            &&& b & mask == 0
            &&& b & BOARD_MASK == b
            &&& b == possible_spec(mask) & column_mask_spec(col)
            &&& b & possible_spec(mask) == b
            &&& wf_bits(cur ^ mask, mask | b)
        }),
        mask + bottom_mask_spec(col) < 0x1_0000_0000_0000,
{
}

/// A stone dropped into a column comes to rest on the stones of the
/// column: in the row whose number is the number of those stones.
pub proof fn lemma_move_cell(cur: u64, mask: u64, col: u64, row: u64)
    by (bit_vector)
    requires
        wf_bits(cur, mask),
        col < 7,
        mask & top_mask_spec(col) == 0,
        row == col_count(mask, col),
    ensures
        row < 6,
        ((mask + bottom_mask_spec(col)) as u64) & column_mask_spec(col) == cell_spec(col, row),
{
}

/// A move is the resting cell of exactly one playable column.
pub proof fn lemma_move_column(cur: u64, mask: u64, b: u64, col: u64)
    by (bit_vector)
    requires
        wf_bits(cur, mask),
        single_bit(b),
        b & possible_spec(mask) == b,
        col < 7,
    ensures
        b & mask == 0,
        b & BOARD_MASK == b,
        wf_bits(cur ^ mask, mask | b),
        b & column_mask_spec(col) != 0 ==> {
            &&& mask & top_mask_spec(col) == 0
            &&& b == ((mask + bottom_mask_spec(col)) as u64) & column_mask_spec(col)
        },
        b & column_mask_spec(0) != 0 || b & column_mask_spec(1) != 0 || b & column_mask_spec(2)
            != 0 || b & column_mask_spec(3) != 0 || b & column_mask_spec(4) != 0 || b
            & column_mask_spec(5) != 0 || b & column_mask_spec(6) != 0,
{
}

/// How a move changes the number of stones in one column.
pub proof fn lemma_count_col(cur: u64, mask: u64, b: u64, col: u64)
    by (bit_vector)
    requires
        col < 7,
        cur & mask == cur,
        single_bit(b),
        b & BOARD_MASK == b,
        b & mask == 0,
    ensures
        col_count(mask | b, col) == col_count(mask, col) + (if b & column_mask_spec(col) != 0 {
            1int
        } else {
            0int
        }),
        col_count(cur ^ mask, col) == col_count(mask, col) - col_count(cur, col),
        0 <= col_count(cur, col) <= col_count(mask, col) <= 6,
        b & column_mask_spec(col) != 0 ==> col_count(mask, col) < 6,
{
}

/// A single cell of the board lies in exactly one column.
pub proof fn lemma_one_column(b: u64)
    by (bit_vector)
    requires
        single_bit(b),
        b & BOARD_MASK == b,
    ensures
        in_column(b, 0) + in_column(b, 1) + in_column(b, 2) + in_column(b, 3) + in_column(b, 4)
            + in_column(b, 5) + in_column(b, 6) == 1,
{
}

/// The number of stones after a move.
pub proof fn lemma_count_play(cur: u64, mask: u64, b: u64)
    requires
        wf_bits(cur, mask),
        single_bit(b),
        b & possible_spec(mask) == b,
    ensures
        stone_count(mask | b) == stone_count(mask) + 1,
        stone_count(cur ^ mask) == stone_count(mask) - stone_count(cur),
        0 <= stone_count(cur) <= stone_count(mask) < 42,
{
    lemma_move_column(cur, mask, b, 0);
    lemma_one_column(b);
    lemma_count_col(cur, mask, b, 0);
    lemma_count_col(cur, mask, b, 1);
    lemma_count_col(cur, mask, b, 2);
    lemma_count_col(cur, mask, b, 3);
    lemma_count_col(cur, mask, b, 4);
    lemma_count_col(cur, mask, b, 5);
    lemma_count_col(cur, mask, b, 6);
}

/// The number of stones in one column, and in all.
pub proof fn lemma_count_bounds(x: u64, col: u64)
    by (bit_vector)
    requires
        col < 7,
    ensures
        0 <= col_count(x, col) <= 6,
{
}

/// A bitboard holds between 0 and 42 board cells.
pub proof fn lemma_stone_count_bounds(x: u64)
    ensures
        0 <= stone_count(x) <= 42,
{
    lemma_count_bounds(x, 0);
    lemma_count_bounds(x, 1);
    lemma_count_bounds(x, 2);
    lemma_count_bounds(x, 3);
    lemma_count_bounds(x, 4);
    lemma_count_bounds(x, 5);
    lemma_count_bounds(x, 6);
}

/// Clearing the lowest cell of a bitboard on the board takes one cell
/// away.
pub proof fn lemma_count_clear(m: u64)
    by (bit_vector)
    requires
        m != 0,
        m & BOARD_MASK == m,
    ensures
        stone_count(m & ((m - 1) as u64)) + 1 == stone_count(m),
        (m & ((m - 1) as u64)) & BOARD_MASK == m & ((m - 1) as u64),
        m & ((m - 1) as u64) < m,
{
}

/// In a legal column the stones lie below the empty cells: a cell is
/// played exactly if fewer stones than the column holds lie below it.
pub proof fn lemma_column_rows(cur: u64, mask: u64, col: u64, row: u64)
    by (bit_vector)
    requires
        wf_bits(cur, mask),
        col < 7,
        row <= 6,
    ensures
        ((1u64 << (col * 7 + row)) & mask != 0) <==> row < col_count(mask, col),
        (1u64 << (col * 7 + row)) << 1 == 1u64 << (col * 7 + row + 1),
        1u64 << (col * 7 + 0) == bottom_mask_spec(col),
{
}

/// A column is playable exactly if it holds fewer than six stones.
pub proof fn lemma_can_play_count(cur: u64, mask: u64, col: u64)
    by (bit_vector)
    requires
        wf_bits(cur, mask),
        col < 7,
    ensures
        (mask & top_mask_spec(col) == 0) <==> col_count(mask, col) < 6,
        (possible_spec(mask) & column_mask_spec(col) != 0) <==> (mask & top_mask_spec(col) == 0),
        non_losing_spec(cur, mask) & column_mask_spec(col) != 0 ==> {
            &&& mask & top_mask_spec(col) == 0
            &&& non_losing_spec(cur, mask) & column_mask_spec(col) == ((mask + bottom_mask_spec(
                col,
            )) as u64) & column_mask_spec(col)
        },
{
}

/// A move is among the non-losing moves exactly if the opponent cannot
/// win at once after it.
pub proof fn lemma_non_losing(cur: u64, mask: u64, b: u64)
    by (bit_vector)
    requires
        wf_bits(cur, mask),
        single_bit(b),
        b & possible_spec(mask) == b,
    ensures
        (b & non_losing_spec(cur, mask) != 0) <==> (winning_spec(cur ^ mask, mask | b)
            & possible_spec(mask | b) == 0),
{
}

/// The non-losing moves are possible moves on the board, and no cell is
/// among no moves.
pub proof fn lemma_non_losing_subset(cur: u64, mask: u64, x: u64)
    by (bit_vector)
    ensures
        non_losing_spec(cur, mask) & possible_spec(mask) == non_losing_spec(cur, mask),
        non_losing_spec(cur, mask) & BOARD_MASK == non_losing_spec(cur, mask),
        0u64 & x == 0,
{
}

/// A set of moves that is not empty holds a move of some column.
pub proof fn lemma_some_column(x: u64)
    by (bit_vector)
    requires
        x != 0,
        x & BOARD_MASK == x,
    ensures
        x & column_mask_spec(0) != 0 || x & column_mask_spec(1) != 0 || x & column_mask_spec(2)
            != 0 || x & column_mask_spec(3) != 0 || x & column_mask_spec(4) != 0 || x
            & column_mask_spec(5) != 0 || x & column_mask_spec(6) != 0,
{
}

/// Who can win at once has three stones on the board.
pub proof fn lemma_winner_has_three(cur: u64, mask: u64)
    by (bit_vector)
    requires
        wf_bits(cur, mask),
        winning_spec(cur, mask) & possible_spec(mask) != 0,
    ensures
        stone_count(cur) >= 3,
{
}

/// On a legal board, a stone on an empty cell completes four in a row
/// exactly if the cell is a winning cell of its colour, or the colour has
/// four in a row already.
pub proof fn lemma_winning_cell(cur: u64, mask: u64, b: u64)
    by (bit_vector)
    requires
        wf_bits(cur, mask),
        single_bit(b),
        b & BOARD_MASK == b,
        b & mask == 0,
    ensures
        has_alignment(cur | b) <==> (has_alignment(cur) || winning_spec(cur, mask) & b != 0),
{
}

/// After a move the stones of the mover are its stones from before and
/// the new one.
pub proof fn lemma_stones_after_move(cur: u64, mask: u64, b: u64)
    by (bit_vector)
    requires
        cur & mask == cur,
        b & mask == 0,
    ensures
        (cur ^ mask) ^ (mask | b) == cur | b,
{
}

/// Two legal pairs of bitboards with the same key are the same pair,
/// and no key ends in 32 set bits.
pub proof fn lemma_key_injective(c1: u64, m1: u64, c2: u64, m2: u64)
    by (bit_vector)
    requires
        wf_bits(c1, m1),
        wf_bits(c2, m2),
        c1 + m1 == c2 + m2,
    ensures
        c1 == c2,
        m1 == m2,
        (c1 + m1) % 0x1_0000_0000 != 0xffff_ffff,
{
}

/// The mirror image of a legal pair of bitboards is legal, mirroring
/// twice gives the pair back, and the key of the mirror image is the
/// mirrored key.
pub proof fn lemma_mirror_bits(cur: u64, mask: u64)
    by (bit_vector)
    requires
        wf_bits(cur, mask),
    ensures
        wf_bits(mirror_bits(cur), mirror_bits(mask)),
        mirror_bits(cur ^ mask) == mirror_bits(cur) ^ mirror_bits(mask),
        mirror_bits(mirror_bits(cur)) == cur,
        mirror_bits(mirror_bits(mask)) == mask,
        ((mirror_bits(cur) + mirror_bits(mask)) as u64) == mirror_bits((cur + mask) as u64),
{
}

/// What mirroring does to the moves and to the winning cells.
pub proof fn lemma_mirror_moves(cur: u64, mask: u64, col: u64)
    by (bit_vector)
    requires
        wf_bits(cur, mask),
        col < 7,
    ensures
        (winning_spec(mirror_bits(cur), mirror_bits(mask)) & possible_spec(mirror_bits(mask)) != 0)
            <==> (winning_spec(cur, mask) & possible_spec(mask) != 0),
        (mirror_bits(mask) & top_mask_spec((6 - col) as u64) == 0) <==> (mask & top_mask_spec(col)
            == 0),
        ((mirror_bits(mask) + bottom_mask_spec((6 - col) as u64)) as u64) & column_mask_spec(
            (6 - col) as u64,
        ) == mirror_bits(((mask + bottom_mask_spec(col)) as u64) & column_mask_spec(col)),
        mirror_bits(mask | (((mask + bottom_mask_spec(col)) as u64) & column_mask_spec(col)))
            == mirror_bits(mask) | mirror_bits(
            ((mask + bottom_mask_spec(col)) as u64) & column_mask_spec(col),
        ),
        col_count(mirror_bits(mask), (6 - col) as u64) == col_count(mask, col),
        col_count(mirror_bits(cur), (6 - col) as u64) == col_count(cur, col),
{
}

/// A column of the mirror image holds a non-losing move, or a winning
/// one, exactly if the mirrored column of the position does.
pub proof fn lemma_mirror_non_losing(cur: u64, mask: u64, col: u64, other: u64)
    by (bit_vector)
    requires
        wf_bits(cur, mask),
        col < 7,
        other == 6 - col,
    ensures
        (non_losing_spec(mirror_bits(cur), mirror_bits(mask)) & column_mask_spec(other) != 0) <==> (
        non_losing_spec(cur, mask) & column_mask_spec(col) != 0),
        (winning_spec(mirror_bits(cur), mirror_bits(mask)) & possible_spec(mirror_bits(mask))
            & column_mask_spec(other) != 0) <==> (winning_spec(cur, mask) & possible_spec(mask)
            & column_mask_spec(col) != 0),
{
}

/// A cell of the mirror image is played exactly if the mirrored cell is.
pub proof fn lemma_mirror_cell(x: u64, col: u64, other: u64, row: u64)
    by (bit_vector)
    requires
        col < 7,
        other == 6 - col,
        row <= 6,
    ensures
        ((1u64 << (col * 7 + row)) & mirror_bits(x) != 0) <==> ((1u64 << (other * 7 + row)) & x
            != 0),
{
}

} // verus!
