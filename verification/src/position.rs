//! The position as the program holds it: two bitboards and a count of
//! moves, with the operations to play and to look ahead one move.

use crate::bitboard::{
    bottom_mask_spec, bottom_spec, cell_spec, col_count, column_mask_spec, lemma_column_rows,
    lemma_count_bounds, lemma_count_clear, lemma_count_play, lemma_empty, lemma_masks,
    lemma_mirror_bits, lemma_move_bit, lemma_move_column, lemma_stone_count_bounds,
    lemma_wf_bounds, mirror_bits, stone_count, top_mask_spec, wf_bits, winning_spec,
};
pub use crate::bitboard::{Bitboard, Column, BOARD_MASK, BOTTOM_MASK};
use crate::board::Board;
use crate::canonical_key::{
    column_key3, digits_down, digits_up, key3_down, key3_up, lemma_digits_partial, lemma_key3_room,
    lemma_pow3_adds, pow3,
};
pub use crate::canonical_key::KEY3_MAX_MOVES;
use vstd::prelude::*;
use vstd::string::*;

verus! {

/// How playing a sequence of columns ended.
#[derive(Clone, Copy, Debug, PartialEq, Eq)]
pub enum PlayResult {
    /// Every move was played.
    Played,
    /// A column number was zero.
    TooSmall,
    /// The column, 0-based, lies beyond the last one.
    TooBig(Column),
    /// The column, 0-based, is full.
    Unplayable(Column),
    /// The move into the column, 0-based, would complete four in a row.
    AlreadyWinning(Column),
}

/// Whether a sequence of moves was played to its end.
pub fn play_result_ok(result: PlayResult) -> (r: bool)
    ensures
        r == (result is Played),
{
    match result {
        PlayResult::Played => true,
        _ => false,
    }
}

/// The position and the outcome of playing the 1-based columns of `seq`
/// one after the other from `board`: play stops before the first move that
/// names no column, a full column, or a column that completes four in a
/// row.
pub open spec fn play_sequence_spec(board: Board, seq: Seq<u8>) -> (Board, PlayResult)
    decreases seq.len(),
{
    if seq.len() == 0 {
        (board, PlayResult::Played)
    } else if seq[0] == 0 {
        (board, PlayResult::TooSmall)
    } else {
        let col = (seq[0] - 1) as u8;
        if col >= 7 {
            (board, PlayResult::TooBig(col))
        } else if !board.can_play(col as int) {
            (board, PlayResult::Unplayable(col))
        } else if board.is_winning_move(col as int) {
            (board, PlayResult::AlreadyWinning(col))
        } else {
            play_sequence_spec(board.play_col(col as int), seq.drop_first())
        }
    }
}

/// The column that a character of a move string names, 1-based: its value
/// for a decimal digit, 1 for any other character.
pub open spec fn digit_column(c: char) -> u8 {
    if '0' <= c && c <= '9' {
        (c as u8 - 48) as u8
    } else {
        1
    }
}

/// The columns that the characters of a move string name.
pub open spec fn digit_columns(s: Seq<char>) -> Seq<u8> {
    Seq::new(s.len(), |i: int| digit_column(s[i]))
}

/// The character that names the 1-based column `col` in a move string.
pub open spec fn column_digit(col: u8) -> char {
    (col + 48) as char
}

impl Board {
    /// Playing a sequence of moves to its end leaves neither side with
    /// four in a row, if neither had.
    pub proof fn lemma_play_sequence_no_alignment(self, seq: Seq<u8>)
        requires
            self.wf(),
            self.no_alignment(),
        ensures
            play_sequence_spec(self, seq).0.wf(),
            play_sequence_spec(self, seq).0.no_alignment(),
        decreases seq.len(),
    {
        if seq.len() > 0 && seq[0] != 0 {
            let col = (seq[0] - 1) as u8;
            if col < 7 && self.can_play(col as int) && !self.is_winning_move(col as int) {
                self.lemma_play_col(col as int);
                self.lemma_winning_move(col as int);
                self.play_col(col as int).lemma_play_sequence_no_alignment(seq.drop_first());
            }
        }
    }
}

/// The move string that names the 1-based columns of `seq`.
pub open spec fn move_string(seq: Seq<u8>) -> Seq<char> {
    Seq::new(seq.len(), |i: int| column_digit(seq[i]))
}

/// A move string names the columns that it was made of: reading the
/// string of a sequence of moves plays that sequence.
pub proof fn lemma_move_string_round_trip(seq: Seq<u8>)
    requires
        forall|i: int| 0 <= i < seq.len() ==> seq[i] <= 9,
    ensures
        digit_columns(move_string(seq)) == seq,
        play_sequence_spec(Board::empty(), digit_columns(move_string(seq))) == play_sequence_spec(
            Board::empty(),
            seq,
        ),
{
    assert forall|i: int| 0 <= i < seq.len() implies digit_columns(move_string(seq))[i]
        == seq[i] by {
        let c = seq[i];
        assert(move_string(seq)[i] == column_digit(c));
        assert(digit_column(column_digit(c)) == c);
    }
    assert(digit_columns(move_string(seq)) =~= seq);
}

/// How a cell of a bitboard is drawn: `x` if the bitboard holds it, a dot
/// otherwise.
pub open spec fn bitboard_symbol(bb: u64, col: u64, row: u64) -> char {
    if bb & cell_spec(col, row) == 0 {
        '.'
    } else {
        'x'
    }
}

/// The first `n` cells of a row of a bitboard as they are drawn.
pub open spec fn bitboard_row(bb: u64, row: u64, n: nat) -> Seq<char> {
    Seq::new(n, |c: int| bitboard_symbol(bb, c as u64, row))
}

impl Board {
    /// The first `n` cells of a row of the position as they are drawn.
    pub open spec fn row(self, row: u64, n: nat) -> Seq<char> {
        Seq::new(n, |c: int| self.symbol(c as u64, row))
    }

    /// How a cell of the position is drawn: a dot if it is empty, the
    /// second symbol of `current_player` for a stone of the side to move,
    /// the first one for a stone of the other side.
    pub open spec fn symbol(self, col: u64, row: u64) -> char {
        if self.mask & cell_spec(col, row) == 0 {
            '.'
        } else if (self.current & cell_spec(col, row) == 0) == (self.moves % 2 == 0) {
            'x'
        } else {
            'o'
        }
    }
}

/// The model of a position.
impl View for Position {
    type V = Board;

    closed spec fn view(&self) -> Board {
        Board { current: self.current_position, mask: self.mask, moves: self.moves as nat }
    }
}

/// A Connect Four position, seen from the side to move.
///
/// Positions that already hold four in a row are not meant to be played on.
#[derive(Clone, Copy, Debug)]
pub struct Position {
    /// The stones of the side to move.
    current_position: Bitboard,
    /// All played cells.
    mask: Bitboard,
    /// The number of moves played since the empty board.
    moves: u8,
}

impl Position {
    /// Width of the board.
    pub const WIDTH: Column = 7;

    /// Height of the board.
    pub const HEIGHT: Column = 6;

    /// The lowest score of any position.
    pub const MIN_SCORE: isize = -18;

    /// The highest score of any position.
    pub const MAX_SCORE: isize = 18;

    /// The empty position.
    pub fn new() -> (p: Position)
        ensures
            p@ == Board::empty(),
            p@.wf(),
            p@.no_four_in_a_row(),
            !p@.can_win_next(),
            forall|col: int| 0 <= col < 7 ==> #[trigger] p@.height(col) == 0 && p@.can_play(col),
    {
        proof {
            lemma_empty();
            Board::empty().lemma_no_four_in_a_row();
            assert forall|col: int| 0 <= col < 7 implies #[trigger] Board::empty().height(col)
                == 0 && Board::empty().can_play(col) by {
                Board::empty().lemma_move_bit_is_lowest_empty_cell(col);
            }
        }
        Position { current_position: 0, mask: 0, moves: 0 }
    }

    /// The bottom cells of the first `width` columns of a board of `height`
    /// rows; for the seven columns of six rows it is `BOTTOM_MASK`.
    pub fn bottom(width: Column, height: Column) -> (r: Bitboard)
        requires
            width * (height + 1) <= 64,
        ensures
            r == bottom_spec(width as nat, height as nat),
            width == Position::WIDTH && height == Position::HEIGHT ==> r == BOTTOM_MASK,
        decreases width,
    {
        proof {
            lemma_masks();
        }
        if width == 0 {
            0
        } else {
            assert(height + 1 <= 64 && (width - 1) * (height + 1) < 64) by (nonlinear_arith)
                requires
                    width >= 1,
                    width * (height + 1) <= 64,
                    height >= 0,
            ;
            let column_bits: u8 = height + 1;
            let shift: u8 = (width - 1) * column_bits;
            Self::bottom(width - 1, height) | 1u64 << shift
        }
    }

    /// The top cell of column `col`.
    fn top_mask_col(col: Column) -> (r: Bitboard)
        requires
            col < Position::WIDTH,
        ensures
            r == top_mask_spec(col as u64),
    {
        let column_bits: u8 = Self::HEIGHT + 1;
        let shift: u8 = col * column_bits;
        0x20u64 << shift
    }

    /// The bottom cell of column `col`.
    fn bottom_mask_col(col: Column) -> (r: Bitboard)
        requires
            col < Position::WIDTH,
        ensures
            r == bottom_mask_spec(col as u64),
    {
        let column_bits: u8 = Self::HEIGHT + 1;
        let shift: u8 = col * column_bits;
        1u64 << shift
    }

    /// All cells of column `col`.
    pub fn column_mask(col: Column) -> (r: Bitboard)
        requires
            col < Position::WIDTH,
        ensures
            r == column_mask_spec(col as u64),
    {
        let column_bits: u8 = Self::HEIGHT + 1;
        let shift: u8 = col * column_bits;
        0x3fu64 << shift
    }

    /// Whether column `col` is not full.
    pub fn can_play(&self, col: Column) -> (r: bool)
        requires
            col < Position::WIDTH,
        ensures
            r == self@.can_play(col as int),
            self@.wf() ==> r == (self@.height(col as int) < 6),
    {
        proof {
            if self@.wf() {
                self@.lemma_move_bit_is_lowest_empty_cell(col as int);
            }
        }
        (self.mask & Self::top_mask_col(col)) == 0
    }

    /// The number of moves played since the empty board.
    pub fn nb_moves(&self) -> (r: u8)
        ensures
            r == self@.moves,
    {
        self.moves
    }

    /// Puts a stone of the side to move on cell `bmove`, which must be the
    /// resting cell of a playable column, and hands the turn over.
    pub fn play(&mut self, bmove: Bitboard)
        requires
            old(self)@.wf(),
            old(self)@.is_move(bmove),
        ensures
            final(self)@ == old(self)@.play(bmove),
            final(self)@.wf(),
    {
        proof {
            lemma_count_play(self.current_position, self.mask, bmove);
            lemma_move_column(self.current_position, self.mask, bmove, 0);
        }
        self.current_position ^= self.mask;
        self.mask |= bmove;
        self.moves += 1;
    }

    /// Drops a stone into column `col`, which must not be full.
    pub fn play_col(&mut self, col: Column)
        requires
            old(self)@.wf(),
            old(self)@.can_play(col as int),
        ensures
            final(self)@ == old(self)@.play_col(col as int),
            final(self)@.wf(),
            final(self)@.mask == old(self)@.mask | cell_spec(
                col as u64,
                old(self)@.height(col as int) as u64,
            ),
            final(self)@.height(col as int) == old(self)@.height(col as int) + 1,
    {
        proof {
            lemma_move_bit(self.current_position, self.mask, col as u64);
            self@.lemma_move_bit_is_lowest_empty_cell(col as int);
        }
        let bmove = (self.mask + Self::bottom_mask_col(col)) & Self::column_mask(col);
        self.play(bmove);
    }

    /// The next moves, losing ones included.
    fn possible(&self) -> (r: Bitboard)
        requires
            self@.wf(),
        ensures
            r == self@.possible(),
    {
        proof {
            lemma_wf_bounds(self.current_position, self.mask);
        }
        (self.mask + BOTTOM_MASK) & BOARD_MASK
    }

    /// The empty cells of the board where a stone of `position` would
    /// complete four in a row, `mask` being the played cells.
    fn compute_winning_position(position: Bitboard, mask: Bitboard) -> (r: Bitboard)
        ensures
            r == winning_spec(position, mask),
    {
        // vertical
        let mut r = (position << 1) & (position << 2) & (position << 3);

        // horizontal
        let mut p = (position << 7) & (position << 14);
        r |= p & (position << 21);
        r |= p & (position >> 7);
        p = (position >> 7) & (position >> 14);
        r |= p & (position << 7);
        r |= p & (position >> 21);

        // first diagonal
        p = (position << 6) & (position << 12);
        r |= p & (position << 18);
        r |= p & (position >> 6);
        p = (position >> 6) & (position >> 12);
        r |= p & (position << 6);
        r |= p & (position >> 18);

        // second diagonal
        p = (position << 8) & (position << 16);
        r |= p & (position << 24);
        r |= p & (position >> 8);
        p = (position >> 8) & (position >> 16);
        r |= p & (position << 8);
        r |= p & (position >> 24);

        let w = r & (BOARD_MASK ^ mask);
        assert(w == winning_spec(position, mask)) by (bit_vector)
            requires
                w == ({
                    let p = position;
                    let r0 = (p << 1) & (p << 2) & (p << 3);
                    let h1 = (p << 7) & (p << 14);
                    let r1 = r0 | (h1 & (p << 21));
                    let r2 = r1 | (h1 & (p >> 7));
                    let h2 = (p >> 7) & (p >> 14);
                    let r3 = r2 | (h2 & (p << 7));
                    let r4 = r3 | (h2 & (p >> 21));
                    let d1 = (p << 6) & (p << 12);
                    let r5 = r4 | (d1 & (p << 18));
                    let r6 = r5 | (d1 & (p >> 6));
                    let d2 = (p >> 6) & (p >> 12);
                    let r7 = r6 | (d2 & (p << 6));
                    let r8 = r7 | (d2 & (p >> 18));
                    let e1 = (p << 8) & (p << 16);
                    let r9 = r8 | (e1 & (p << 24));
                    let r10 = r9 | (e1 & (p >> 8));
                    let e2 = (p >> 8) & (p >> 16);
                    let r11 = r10 | (e2 & (p << 8));
                    let r12 = r11 | (e2 & (p >> 24));
                    r12 & (BOARD_MASK ^ mask)
                }),
        ;
        w
    }

    /// The empty cells that would give the side to move four in a row.
    fn winning_position(&self) -> (r: Bitboard)
        ensures
            r == self@.winning_spots(),
    {
        Self::compute_winning_position(self.current_position, self.mask)
    }

    /// The empty cells that would give the opponent four in a row.
    fn opponent_winning_position(&self) -> (r: Bitboard)
        ensures
            r == self@.opponent_winning_spots(),
    {
        Self::compute_winning_position(self.current_position ^ self.mask, self.mask)
    }

    /// Whether the side to move can complete four in a row with its next
    /// stone.
    pub fn can_win_next(&self) -> (r: bool)
        requires
            self@.wf(),
        ensures
            r == self@.can_win_next(),
    {
        (self.winning_position() & self.possible()) != 0
    }

    /// Whether the side to move completes four in a row by playing column
    /// `col`.
    pub fn is_winning_move(&self, col: Column) -> (r: bool)
        requires
            self@.wf(),
            col < Position::WIDTH,
        ensures
            r == self@.is_winning_move(col as int),
    {
        (self.winning_position() & self.possible() & Self::column_mask(col)) != 0
    }

    /// The compact key of the position: it tells any two legal positions
    /// apart and is below 2^49.
    pub fn key(&self) -> (r: Bitboard)
        requires
            self@.wf(),
        ensures
            r == self@.key(),
            r < 0x2_0000_0000_0000,
    {
        proof {
            lemma_wf_bounds(self.current_position, self.mask);
        }
        self.current_position + self.mask
    }

    /// The moves after which the opponent cannot win at once: every
    /// possible move that is not below a winning cell of the opponent; but
    /// only the one forced reply, if the opponent threatens one cell now,
    /// and none at all, if it threatens two.
    ///
    /// Meant for positions in which the side to move cannot win at once.
    pub fn possible_non_losing_moves(&self) -> (r: Bitboard)
        requires
            self@.wf(),
            !self@.can_win_next(),
        ensures
            r == self@.non_losing_moves(),
    {
        let possible_mask = self.possible();
        let opponent_win = self.opponent_winning_position();
        let forced_moves = possible_mask & opponent_win;
        if forced_moves == 0 {
            possible_mask & !(opponent_win >> 1)
        } else if (forced_moves & (forced_moves - 1)) == 0 {
            forced_moves & !(opponent_win >> 1)
        } else {
            0
        }
    }

    /// Half of what is left of the board's stones once `addend` is added,
    /// rounded towards zero: `((WIDTH * HEIGHT) + addend - moves) / 2`.
    pub fn num_stones_left(&self, addend: isize) -> (r: isize)
        requires
            isize::MIN + 255 <= addend <= isize::MAX - 42,
        ensures
            r == self@.stones_left(addend as int),
    {
        let cells: isize = 42;
        let moves: isize = self.moves as isize;
        (cells + addend - moves) / 2
    }

    /// Counts the cells of a bitboard on the board.
    fn popcount(m: u64) -> (c: u8)
        requires
            m & BOARD_MASK == m,
        ensures
            c == stone_count(m),
    {
        let ghost start = m;
        let mut m = m;
        let mut c: u8 = 0;
        proof {
            lemma_stone_count_bounds(m);
        }
        while m != 0
            invariant
                m & BOARD_MASK == m,
                0 <= stone_count(m) <= 42,
                c + stone_count(m) == stone_count(start) <= 42,
            decreases m,
        {
            proof {
                lemma_count_clear(m);
                lemma_stone_count_bounds(m & ((m - 1) as u64));
            }
            m &= m - 1;
            c += 1;
        }
        proof {
            lemma_empty();
        }
        c
    }

    /// Scores a possible move `bmove`: the number of winning cells that the
    /// side to move has once it has played there.
    pub fn move_score(&self, bmove: Bitboard) -> (r: u8)
        requires
            self@.wf(),
        ensures
            r == stone_count(winning_spec(self@.current | bmove, self@.mask)),
            r <= 42,
    {
        let spots = Self::compute_winning_position(self.current_position | bmove, self.mask);
        proof {
            let p = self.current_position | bmove;
            let mask = self.mask;
            assert(winning_spec(p, mask) & BOARD_MASK == winning_spec(p, mask)) by (bit_vector)
                requires
                    mask & BOARD_MASK == mask,
            ;
            lemma_stone_count_bounds(spots);
        }
        Self::popcount(spots)
    }

    /// Appends the base-3 digits of column `col` to `key`.
    fn partial_key3(&self, key: &mut u64, col: Column)
        requires
            self@.wf(),
            col < Position::WIDTH,
            (*old(key) + 1) * pow3((col_count(self@.mask, col as u64) + 1) as nat)
                <= 0x1_0000_0000_0000_0000,
        ensures
            *final(key) == column_key3(
                *old(key) as nat,
                self@.current,
                self@.mask,
                col as u64,
                0,
            ),
            *final(key) + 1 <= (*old(key) + 1) * pow3(
                (col_count(self@.mask, col as u64) + 1) as nat,
            ),
    {
        let ghost cur = self.current_position;
        let ghost mask = self.mask;
        let ghost height = col_count(mask, col as u64);
        let ghost start = *key as nat;
        let mut pos: u64 = Self::bottom_mask_col(col);
        let mut row: Ghost<u64> = Ghost(0);
        proof {
            lemma_column_rows(cur, mask, col as u64, 0);
            lemma_count_bounds(mask, col as u64);
            lemma_pow3_adds(0, (height + 1) as nat);
        }
        while (pos & self.mask) != 0
            invariant
                wf_bits(cur, mask),
                cur == self.current_position,
                mask == self.mask,
                col < 7,
                row@ <= height <= 6,
                height == col_count(mask, col as u64),
                pos == 1u64 << (col as u64 * 7 + row@),
                column_key3(start, cur, mask, col as u64, 0) == column_key3(
                    *key as nat,
                    cur,
                    mask,
                    col as u64,
                    row@,
                ),
                (*key + 1) * pow3((height - row@ + 1) as nat) <= 0x1_0000_0000_0000_0000,
                (*key + 1) * pow3((height - row@ + 1) as nat) <= (start + 1) * pow3(
                    (height + 1) as nat,
                ),
            decreases 6 - row@,
        {
            proof {
                lemma_column_rows(cur, mask, col as u64, row@);
                lemma_column_rows(cur, mask, col as u64, (row@ + 1) as u64);
                let n = pow3((height - row@) as nat);
                assert(pow3((height - row@ + 1) as nat) == 3 * n);
                lemma_pow3_adds((height - row@) as nat, 0);
                assert((*key + 1) * (3 * n) == (3 * *key + 3) * n) by (nonlinear_arith);
                assert(3 * *key + 3 <= (3 * *key + 3) * n) by (nonlinear_arith)
                    requires
                        n >= 1,
                ;
            }
            let ghost before = *key;
            *key = *key * 3;
            if (pos & self.current_position) == 0 {
                *key = *key + 2;
            } else {
                *key = *key + 1;
            }
            proof {
                let n = pow3((height - row@) as nat);
                let k = *key;
                assert((k + 1) * n <= (3 * before + 3) * n) by (nonlinear_arith)
                    requires
                        k + 1 <= 3 * before + 3,
                        n >= 1,
                ;
                row@ = (row@ + 1) as u64;
            }
            pos = pos << 1;
        }
        proof {
            lemma_column_rows(cur, mask, col as u64, row@);
            assert(pow3(1) == 3) by {
                reveal_with_fuel(pow3, 2);
            }
            let n = pow3((height - row@ + 1) as nat);
            assert(n == 3);
            assert((*key + 1) * n == 3 * *key + 3) by (nonlinear_arith)
                requires
                    n == 3,
            ;
        }
        *key = *key * 3;
    }

    /// The symmetric base-3 key of the position; a position and its mirror
    /// image have the same one.
    ///
    /// Column by column and from the bottom up, a stone of the side to move
    /// is the digit 1, a stone of the opponent the digit 2, and the end of
    /// a column the digit 0. The key is the smaller of the numbers read
    /// from the left and from the right, without its last digit. It fits
    /// in 64 bits for positions of at most `KEY3_MAX_MOVES` stones.
    pub fn key3(&self) -> (r: u64)
        requires
            self@.wf(),
            self@.moves <= KEY3_MAX_MOVES,
        ensures
            r == self@.key3(),
    {
        let ghost cur = self.current_position;
        let ghost mask = self.mask;
        let mut key_forward: u64 = 0;
        let mut i: u8 = 0;
        proof {
            assert(pow3(0) == 1);
        }
        while i < Position::WIDTH
            invariant
                self@.wf(),
                self@.moves <= 33,
                cur == self@.current,
                mask == self@.mask,
                i <= 7,
                key_forward == key3_up(cur, mask, i as nat),
                key_forward + 1 <= pow3(digits_up(mask, i as nat) as nat),
                0 <= digits_up(mask, i as nat),
            decreases 7 - i,
        {
            proof {
                lemma_digits_partial(mask, (i + 1) as nat);
                lemma_count_bounds(mask, i as u64);
                lemma_key3_room(
                    key_forward,
                    digits_up(mask, i as nat),
                    col_count(mask, i as u64),
                    stone_count(mask) + 7,
                );
            }
            self.partial_key3(&mut key_forward, i);
            i += 1;
        }
        let mut key_reverse: u64 = 0;
        while i > 0
            invariant
                self@.wf(),
                self@.moves <= 33,
                cur == self@.current,
                mask == self@.mask,
                i <= 7,
                key_reverse == key3_down(cur, mask, i as nat),
                key_reverse + 1 <= pow3(digits_down(mask, i as nat) as nat),
                0 <= digits_down(mask, i as nat),
            decreases i,
        {
            i -= 1;
            proof {
                lemma_digits_partial(mask, i as nat);
                lemma_count_bounds(mask, i as u64);
                lemma_key3_room(
                    key_reverse,
                    digits_down(mask, (i + 1) as nat),
                    col_count(mask, i as u64),
                    stone_count(mask) + 7,
                );
            }
            self.partial_key3(&mut key_reverse, i);
        }
        if key_forward < key_reverse {
            key_forward / 3
        } else {
            key_reverse / 3
        }
    }

    /// The bitboard with its columns in reverse order.
    fn mirror(bb: Bitboard) -> (r: Bitboard)
        ensures
            r == mirror_bits(bb),
    {
        ((bb & 0x7f) << 42) | (((bb >> 7) & 0x7f) << 35) | (((bb >> 14) & 0x7f) << 28) | (((bb
            >> 21) & 0x7f) << 21) | (((bb >> 28) & 0x7f) << 14) | (((bb >> 35) & 0x7f) << 7) | ((bb
            >> 42) & 0x7f)
    }

    /// The key of the mirror image of the position.
    pub fn mirrored_key(&self) -> (r: Bitboard)
        requires
            self@.wf(),
        ensures
            r == self@.mirror().key(),
    {
        proof {
            lemma_mirror_bits(self.current_position, self.mask);
        }
        Self::mirror(self.key())
    }

    /// Whether the position is its own mirror image, so that the mirror
    /// image of each position that play reaches from it is reached too.
    pub fn can_become_symmetric(&self) -> (r: bool)
        ensures
            r == self@.is_symmetric(),
    {
        Self::mirror(self.mask) == self.mask && Self::mirror(self.current_position)
            == self.current_position
    }

    /// The symbols of the side to move and of the other side: `("x", "o")`
    /// after an even number of moves, `("o", "x")` after an odd one.
    pub fn current_player(&self) -> (r: (&'static str, &'static str))
        ensures
            self@.moves % 2 == 0 ==> r.0@ == "x"@ && r.1@ == "o"@,
            self@.moves % 2 != 0 ==> r.0@ == "o"@ && r.1@ == "x"@,
    {
        if self.moves % 2 == 0 {
            ("x", "o")
        } else {
            ("o", "x")
        }
    }

    /// Plays the moves of `seq`, each the 1-based number of a column, and
    /// stops before the first one that cannot be played; the moves before
    /// it stay played.
    pub fn play_sequence(&mut self, seq: &[Column]) -> (r: PlayResult)
        requires
            old(self)@.wf(),
        ensures
            (final(self)@, r) == play_sequence_spec(old(self)@, seq@),
            final(self)@.wf(),
            old(self)@.no_four_in_a_row() ==> final(self)@.no_four_in_a_row(),
    {
        proof {
            old(self)@.lemma_no_four_in_a_row();
            if old(self)@.no_alignment() {
                old(self)@.lemma_play_sequence_no_alignment(seq@);
                play_sequence_spec(old(self)@, seq@).0.lemma_no_four_in_a_row();
            }
        }
        let mut i: usize = 0;
        assert(seq@.subrange(0, seq.len() as int) == seq@);
        while i < seq.len()
            invariant
                i <= seq.len(),
                self@.wf(),
                old(self)@.no_four_in_a_row() ==> play_sequence_spec(
                    old(self)@,
                    seq@,
                ).0.no_four_in_a_row(),
                play_sequence_spec(old(self)@, seq@) == play_sequence_spec(
                    self@,
                    seq@.subrange(i as int, seq.len() as int),
                ),
            decreases seq.len() - i,
        {
            let ghost rest = seq@.subrange(i as int, seq.len() as int);
            assert(rest[0] == seq[i as int]);
            assert(rest.drop_first() == seq@.subrange(i + 1, seq.len() as int));
            let col_1_based = seq[i];
            if col_1_based == 0 {
                return PlayResult::TooSmall;
            }
            let col = col_1_based - 1;
            if col >= Position::WIDTH {
                return PlayResult::TooBig(col);
            } else if !self.can_play(col) {
                return PlayResult::Unplayable(col);
            } else if self.is_winning_move(col) {
                return PlayResult::AlreadyWinning(col);
            }
            self.play_col(col);
            i += 1;
        }
        PlayResult::Played
    }

    /// The position that the moves of `position_str` lead to from the empty
    /// board, each character one move: a digit names its column, 1-based,
    /// and any other character the first column. `None` if one of the moves
    /// cannot be played.
    pub fn from_string(position_str: &str) -> (r: Option<Position>)
        ensures
            ({
                let (board, result) = play_sequence_spec(
                    Board::empty(),
                    digit_columns(position_str@),
                );
                match r {
                    Some(p) => result is Played && p@ == board && p@.wf()
                        && p@.no_four_in_a_row(),
                    None => !(result is Played),
                }
            }),
    {
        let n = position_str.unicode_len();
        let mut seq: Vec<Column> = Vec::new();
        let mut i: usize = 0;
        while i < n
            invariant
                i <= n,
                n == position_str@.len(),
                seq@ == digit_columns(position_str@.subrange(0, i as int)),
            decreases n - i,
        {
            let c = position_str.get_char(i);
            let col: Column = if '0' <= c && c <= '9' {
                (c as u8) - 48
            } else {
                1
            };
            seq.push(col);
            i += 1;
            assert(seq@ == digit_columns(position_str@.subrange(0, i as int)));
        }
        assert(position_str@.subrange(0, n as int) == position_str@);
        let mut pos = Position::new();
        if play_result_ok(pos.play_sequence(seq.as_slice())) {
            Some(pos)
        } else {
            None
        }
    }

    /// The cell in row `row`, counted from the bottom, of column `col`.
    fn cell(col: Column, row: Column) -> (r: Bitboard)
        requires
            col < Position::WIDTH,
            row < Position::HEIGHT,
        ensures
            r == cell_spec(col as u64, row as u64),
    {
        let column_bits: u8 = Self::HEIGHT + 1;
        let shift: u8 = row + col * column_bits;
        1u64 << shift
    }

    /// The rows of a bitboard from the top one to the bottom one, each a
    /// string of seven characters: `x` for a cell that the bitboard holds,
    /// a dot for any other.
    pub fn display_bitboard(bb: Bitboard) -> (rows: Vec<String>)
        ensures
            rows@.len() == 6,
            forall|r: int|
                0 <= r < 6 ==> (#[trigger] rows@[r])@ == bitboard_row(bb, (5 - r) as u64, 7),
    {
        let mut rows: Vec<String> = Vec::new();
        let mut row: u8 = Position::HEIGHT;
        proof {
            reveal_strlit(".");
            reveal_strlit("x");
        }
        while row > 0
            invariant
                row <= 6,
                rows@.len() == 6 - row,
                "."@ == seq!['.'],
                "x"@ == seq!['x'],
                forall|r: int|
                    0 <= r < 6 - row ==> (#[trigger] rows@[r])@ == bitboard_row(
                        bb,
                        (5 - r) as u64,
                        7,
                    ),
            decreases row,
        {
            row -= 1;
            let mut line = String::new();
            let mut col: u8 = 0;
            assert(line@ =~= bitboard_row(bb, row as u64, 0));
            while col < Position::WIDTH
                invariant
                    col <= 7,
                    row < 6,
                    "."@ == seq!['.'],
                    "x"@ == seq!['x'],
                    line@ == bitboard_row(bb, row as u64, col as nat),
                decreases 7 - col,
            {
                if (bb & Self::cell(col, row)) == 0 {
                    line.append(".");
                } else {
                    line.append("x");
                }
                col += 1;
                assert(line@ =~= bitboard_row(bb, row as u64, col as nat));
            }
            rows.push(line);
        }
        rows
    }

    /// The rows of the board from the top one to the bottom one, each a
    /// string of seven characters: a dot for an empty cell, and for a stone
    /// the symbol of its side, which for the side to move is the second
    /// symbol of `current_player`.
    pub fn display_position(&self) -> (rows: Vec<String>)
        ensures
            rows@.len() == 6,
            forall|r: int| 0 <= r < 6 ==> (#[trigger] rows@[r])@ == self@.row((5 - r) as u64, 7),
    {
        let (us, them) = self.current_player();
        let mut rows: Vec<String> = Vec::new();
        let mut row: u8 = Position::HEIGHT;
        proof {
            reveal_strlit(".");
            reveal_strlit("x");
            reveal_strlit("o");
        }
        while row > 0
            invariant
                row <= 6,
                rows@.len() == 6 - row,
                "."@ == seq!['.'],
                self@.moves % 2 == 0 ==> us@ == seq!['x'] && them@ == seq!['o'],
                self@.moves % 2 != 0 ==> us@ == seq!['o'] && them@ == seq!['x'],
                forall|r: int|
                    0 <= r < 6 - row ==> (#[trigger] rows@[r])@ == self@.row((5 - r) as u64, 7),
            decreases row,
        {
            row -= 1;
            let mut line = String::new();
            let mut col: u8 = 0;
            assert(line@ =~= self@.row(row as u64, 0));
            while col < Position::WIDTH
                invariant
                    col <= 7,
                    row < 6,
                    "."@ == seq!['.'],
                    self@.moves % 2 == 0 ==> us@ == seq!['x'] && them@ == seq!['o'],
                    self@.moves % 2 != 0 ==> us@ == seq!['o'] && them@ == seq!['x'],
                    line@ == self@.row(row as u64, col as nat),
                decreases 7 - col,
            {
                let cell = Self::cell(col, row);
                if (self.mask & cell) == 0 {
                    line.append(".");
                } else if (self.current_position & cell) == 0 {
                    line.append(us);
                } else {
                    line.append(them);
                }
                col += 1;
                assert(line@ =~= self@.row(row as u64, col as nat));
            }
            rows.push(line);
        }
        rows
    }
}

} // verus!
