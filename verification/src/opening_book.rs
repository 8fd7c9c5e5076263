//! A book of positions with their scores, found by the base-3 key.

use crate::board::Board;
use crate::book_text::{
    all_digits, count_spaces, decimal_digits, decimal_value, digit_char, entry_line, first_space,
    is_digit, lemma_decimal_value_prefix, parse_digits, parse_entry, without_plus,
};
use crate::canonical_key::KEY3_MAX_MOVES;
use crate::position::{Column, Position};
use vstd::prelude::*;
use vstd::string::*;

verus! {

/// A book entry as the contracts see it: the base-3 key of a position and
/// the score of the position.
pub struct ScoredKey {
    /// The base-3 key of the position.
    pub pos: u64,
    /// The score of the position.
    pub score: isize,
}

/// Why a line is not a book entry.
#[derive(Clone, Copy, Debug, PartialEq, Eq)]
pub enum ParseBookEntryError {
    /// The line does not have two values.
    WrongFieldCount,
    /// The first value is not the key of a position.
    BadPositionKey,
    /// The second value is not a score.
    BadScore,
}

impl ParseBookEntryError {
    /// The error in words.
    pub fn to_string(&self) -> (r: String)
        ensures
            r@ == match self {
                ParseBookEntryError::WrongFieldCount => "Expected 2 values in the entry"@,
                ParseBookEntryError::BadPositionKey =>
                    "Could not parse first value into a valid position"@,
                ParseBookEntryError::BadScore => "Could not parse second value into a valid score"@,
            },
    {
        match self {
            ParseBookEntryError::WrongFieldCount => String::from_str(
                "Expected 2 values in the entry",
            ),
            ParseBookEntryError::BadPositionKey => String::from_str(
                "Could not parse first value into a valid position",
            ),
            ParseBookEntryError::BadScore => String::from_str(
                "Could not parse second value into a valid score",
            ),
        }
    }
}

/// One position of the book.
#[derive(Clone, Copy, Debug)]
pub struct BookEntry {
    /// The base-3 key of the position.
    pos: u64,
    /// The score of the position.
    score: isize,
}

impl View for BookEntry {
    type V = ScoredKey;

    closed spec fn view(&self) -> ScoredKey {
        ScoredKey { pos: self.pos, score: self.score }
    }
}

impl BookEntry {
    /// An entry for the position of key `pos`.
    pub fn new(pos: u64, score: isize) -> (r: BookEntry)
        ensures
            r@ == (ScoredKey { pos, score }),
    {
        BookEntry { pos, score }
    }

    /// The key of the position.
    pub fn pos(&self) -> (r: u64)
        ensures
            r == self@.pos,
    {
        self.pos
    }

    /// The score of the position.
    pub fn score(&self) -> (r: isize)
        ensures
            r == self@.score,
    {
        self.score
    }

    /// The character of the decimal digit `d`, as a string.
    fn digit_str(d: u8) -> (r: &'static str)
        requires
            d < 10,
        ensures
            r@ == seq![digit_char(d as nat)],
    {
        proof {
            reveal_strlit("0");
            reveal_strlit("1");
            reveal_strlit("2");
            reveal_strlit("3");
            reveal_strlit("4");
            reveal_strlit("5");
            reveal_strlit("6");
            reveal_strlit("7");
            reveal_strlit("8");
            reveal_strlit("9");
        }
        let r = match d {
            0 => "0",
            1 => "1",
            2 => "2",
            3 => "3",
            4 => "4",
            5 => "5",
            6 => "6",
            7 => "7",
            8 => "8",
            _ => "9",
        };
        assert(r@ =~= seq![digit_char(d as nat)]);
        r
    }

    /// Appends the decimal digits of `n` to `text`.
    fn push_decimal(text: &mut String, n: u64)
        ensures
            final(text)@ == old(text)@ + decimal_digits(n as nat),
        decreases n,
    {
        if n >= 10 {
            Self::push_decimal(text, n / 10);
        }
        text.append(Self::digit_str((n % 10) as u8));
        proof {
            if n >= 10 {
                assert(final(text)@ =~= old(text)@ + decimal_digits(n as nat));
            }
        }
    }

    /// The line of the entry in a book: key and score in decimal digits
    /// with one space between them.
    pub fn to_line(&self) -> (r: String)
        ensures
            r@ == entry_line(self@),
    {
        let mut text = String::new();
        Self::push_decimal(&mut text, self.pos);
        proof {
            reveal_strlit(" ");
            reveal_strlit("-");
        }
        text.append(" ");
        if self.score < 0 {
            text.append("-");
            let magnitude: u64 = (-(self.score as i128)) as u64;
            Self::push_decimal(&mut text, magnitude);
        } else {
            Self::push_decimal(&mut text, self.score as u64);
        }
        assert(text@ =~= entry_line(self@));
        text
    }

    /// The number that the characters `from .. to` of `line` write, if it
    /// is at most `limit`.
    fn parse_number(line: &str, from: usize, to: usize, limit: u64) -> (r: Option<u64>)
        requires
            from <= to <= line@.len(),
        ensures
            r == match parse_digits(line@.subrange(from as int, to as int)) {
                Some(n) => if n <= limit {
                    Some(n as u64)
                } else {
                    None
                },
                None => None,
            },
    {
        let ghost digits = line@.subrange(from as int, to as int);
        if from == to {
            return None;
        }
        let mut i = from;
        let mut value: u64 = 0;
        let mut fits = true;
        assert(digits.subrange(0, 0).len() == 0);
        while i < to
            invariant
                from <= i <= to <= line@.len(),
                from < to,
                digits == line@.subrange(from as int, to as int),
                all_digits(digits.subrange(0, i - from)),
                fits ==> value == decimal_value(digits.subrange(0, i - from)),
                fits ==> value <= limit,
                !fits ==> decimal_value(digits) > limit,
            decreases to - i,
        {
            let c = line.get_char(i);
            let ghost prefix = digits.subrange(0, i - from);
            let ghost longer = digits.subrange(0, i + 1 - from);
            proof {
                assert(digits[i - from] == c);
                assert(longer.drop_last() == prefix);
                assert(longer.last() == c);
            }
            if !('0' <= c && c <= '9') {
                assert(!is_digit(digits[i - from]));
                return None;
            }
            let d: u64 = ((c as u8) - 48) as u64;
            proof {
                assert forall|j: int| 0 <= j < longer.len() implies is_digit(
                    #[trigger] longer[j],
                ) by {
                    if j < prefix.len() {
                        assert(longer[j] == prefix[j]);
                    }
                }
            }
            if fits {
                if d > limit || value > (limit - d) / 10 {
                    proof {
                        lemma_decimal_value_prefix(digits, i + 1 - from);
                    }
                    fits = false;
                } else {
                    value = value * 10 + d;
                }
            }
            i += 1;
        }
        assert(digits.subrange(0, to - from) == digits);
        if fits {
            Some(value)
        } else {
            None
        }
    }

    /// The entry that a line of a book writes: the key of a position, one
    /// space, and the score. Key and score are written in decimal digits;
    /// a plus sign may stand before either, a minus sign before the score.
    pub fn from_string(line: &str) -> (r: Result<BookEntry, ParseBookEntryError>)
        ensures
            match r {
                Ok(entry) => parse_entry(line@) == Ok::<ScoredKey, ParseBookEntryError>(entry@),
                Err(e) => parse_entry(line@) == Err::<ScoredKey, ParseBookEntryError>(e),
            },
    {
        let n = line.unicode_len();
        let mut spaces: usize = 0;
        let mut at: usize = n;
        let mut i: usize = 0;
        assert(line@.subrange(0, n as int) == line@);
        while i < n
            invariant
                i <= n,
                n == line@.len(),
                spaces == count_spaces(line@.subrange(0, i as int)),
                spaces <= i,
                spaces == 0 ==> at == n,
                spaces > 0 ==> at < i && at == first_space(line@),
                spaces == 0 ==> first_space(line@) == i + first_space(
                    line@.subrange(i as int, n as int),
                ),
            decreases n - i,
        {
            let c = line.get_char(i);
            proof {
                let prefix = line@.subrange(0, i as int);
                let longer = line@.subrange(0, i + 1);
                assert(longer.drop_last() == prefix);
                assert(longer.last() == c);
                let rest = line@.subrange(i as int, n as int);
                assert(rest[0] == c);
                assert(rest.drop_first() == line@.subrange(i + 1, n as int));
            }
            if c == ' ' {
                if spaces == 0 {
                    at = i;
                }
                spaces += 1;
            }
            i += 1;
        }
        assert(line@.subrange(0, n as int) == line@);
        if spaces != 1 {
            return Err(ParseBookEntryError::WrongFieldCount);
        }
        let key_from: usize = if 0 < at && line.get_char(0) == '+' {
            1
        } else {
            0
        };
        proof {
            let field = line@.subrange(0, at as int);
            assert(without_plus(field) == line@.subrange(key_from as int, at as int));
        }
        let pos = match Self::parse_number(line, key_from, at, u64::MAX) {
            Some(p) => p,
            None => {
                return Err(ParseBookEntryError::BadPositionKey);
            },
        };
        let ghost field = line@.subrange(at + 1, n as int);
        let negative = at + 1 < n && line.get_char(at + 1) == '-';
        let score: isize = if negative {
            proof {
                assert(field[0] == '-');
                assert(field.drop_first() == line@.subrange(at + 2, n as int));
            }
            let limit: u64 = (isize::MAX as u64) + 1;
            match Self::parse_number(line, at + 2, n, limit) {
                Some(m) => {
                    if m == limit {
                        isize::MIN
                    } else {
                        -(m as isize)
                    }
                },
                None => {
                    return Err(ParseBookEntryError::BadScore);
                },
            }
        } else {
            let score_from: usize = if at + 1 < n && line.get_char(at + 1) == '+' {
                at + 2
            } else {
                at + 1
            };
            proof {
                if at + 1 < n {
                    assert(field[0] == line@[at + 1]);
                }
                assert(without_plus(field) == line@.subrange(score_from as int, n as int));
            }
            match Self::parse_number(line, score_from, n, isize::MAX as u64) {
                Some(m) => m as isize,
                None => {
                    return Err(ParseBookEntryError::BadScore);
                },
            }
        };
        Ok(BookEntry { pos, score })
    }
}

/// Whether the keys of `entries` rise from each entry to the next, so that
/// none occurs twice.
pub open spec fn strictly_ascending(entries: Seq<ScoredKey>) -> bool {
    forall|i: int, j: int| 0 <= i < j < entries.len() ==> entries[i].pos < entries[j].pos
}

/// Whether `entries` holds an entry for `key`.
pub open spec fn has_key(entries: Seq<ScoredKey>, key: u64) -> bool {
    exists|i: int| 0 <= i < entries.len() && #[trigger] entries[i].pos == key
}

/// The score that `entries` holds for `key`.
pub open spec fn score_of(entries: Seq<ScoredKey>, key: u64) -> Option<isize> {
    if has_key(entries, key) {
        let i = choose|i: int| 0 <= i < entries.len() && #[trigger] entries[i].pos == key;
        Some(entries[i].score)
    } else {
        None
    }
}

/// The score that a book of the given entries holds for a position: that
/// of its base-3 key, and none for a position of too many stones to have
/// a key of 64 bits.
pub open spec fn book_score_of(entries: Seq<ScoredKey>, board: Board) -> Option<isize> {
    if board.moves <= KEY3_MAX_MOVES {
        score_of(entries, board.key3() as u64)
    } else {
        None
    }
}

/// In ascending entries the score of a key is the score of the one entry
/// that has the key.
pub proof fn lemma_score_of(entries: Seq<ScoredKey>, i: int)
    requires
        strictly_ascending(entries),
        0 <= i < entries.len(),
    ensures
        has_key(entries, entries[i].pos),
        score_of(entries, entries[i].pos) == Some(entries[i].score),
{
    let key = entries[i].pos;
    assert(entries[i].pos == key);
    let j = choose|j: int| 0 <= j < entries.len() && #[trigger] entries[j].pos == key;
    if j < i {
        assert(entries[j].pos < entries[i].pos);
    } else if i < j {
        assert(entries[i].pos < entries[j].pos);
    }
}

/// The score of the last entry of `entries` that has the key `key`.
pub open spec fn last_score_of(entries: Seq<ScoredKey>, key: u64) -> Option<isize>
    decreases entries.len(),
{
    if entries.len() == 0 {
        None
    } else if entries.last().pos == key {
        Some(entries.last().score)
    } else {
        last_score_of(entries.drop_last(), key)
    }
}

/// In ascending entries the last entry of a key is its only one.
pub proof fn lemma_last_score_of(entries: Seq<ScoredKey>, key: u64)
    requires
        strictly_ascending(entries),
    ensures
        last_score_of(entries, key) == score_of(entries, key),
    decreases entries.len(),
{
    if entries.len() > 0 {
        let rest = entries.drop_last();
        let last = entries.len() - 1;
        assert forall|i: int, j: int| 0 <= i < j < rest.len() implies rest[i].pos
            < rest[j].pos by {
            assert(rest[i] == entries[i] && rest[j] == entries[j]);
        }
        lemma_last_score_of(rest, key);
        if entries.last().pos == key {
            lemma_score_of(entries, last);
        } else if has_key(rest, key) {
            let i = choose|i: int| 0 <= i < rest.len() && #[trigger] rest[i].pos == key;
            lemma_score_of(rest, i);
            assert(entries[i] == rest[i]);
            lemma_score_of(entries, i);
        } else if has_key(entries, key) {
            let i = choose|i: int| 0 <= i < entries.len() && #[trigger] entries[i].pos == key;
            assert(rest[i].pos == key);
        }
    }
}

/// Replacing the score of an entry changes the score of its key and of no
/// other.
pub proof fn lemma_same_keys(before: Seq<ScoredKey>, after: Seq<ScoredKey>, index: int, k: u64)
    requires
        strictly_ascending(before),
        strictly_ascending(after),
        0 <= index < before.len(),
        after == before.update(
            index,
            ScoredKey { pos: before[index].pos, score: after[index].score },
        ),
    ensures
        score_of(after, k) == (if k == before[index].pos {
            Some(after[index].score)
        } else {
            score_of(before, k)
        }),
{
    if k == before[index].pos {
        lemma_score_of(after, index);
    } else if has_key(before, k) {
        let i = choose|i: int| 0 <= i < before.len() && #[trigger] before[i].pos == k;
        lemma_score_of(before, i);
        assert(after[i] == before[i]);
        lemma_score_of(after, i);
    } else if has_key(after, k) {
        let i = choose|i: int| 0 <= i < after.len() && #[trigger] after[i].pos == k;
        assert(before[i].pos == k);
    }
}

/// A new entry adds the score of its key and changes no other.
pub proof fn lemma_inserted_keys(before: Seq<ScoredKey>, after: Seq<ScoredKey>, index: int, k: u64)
    requires
        strictly_ascending(before),
        strictly_ascending(after),
        0 <= index <= before.len(),
        after == before.insert(index, after[index]),
        !has_key(before, after[index].pos),
    ensures
        score_of(after, k) == (if k == after[index].pos {
            Some(after[index].score)
        } else {
            score_of(before, k)
        }),
{
    if k == after[index].pos {
        lemma_score_of(after, index);
    } else if has_key(before, k) {
        let i = choose|i: int| 0 <= i < before.len() && #[trigger] before[i].pos == k;
        lemma_score_of(before, i);
        let j = if i < index {
            i
        } else {
            i + 1
        };
        assert(after[j] == before[i]);
        lemma_score_of(after, j);
    } else if has_key(after, k) {
        let j = choose|j: int| 0 <= j < after.len() && #[trigger] after[j].pos == k;
        let i = if j < index {
            j
        } else {
            j - 1
        };
        assert(before[i].pos == k);
    }
}

/// The scores of the positions of an opening, found by the symmetric
/// base-3 key: one entry for a position and its mirror image, the entries
/// in ascending order of key.
pub struct OpeningBook {
    entries: Vec<BookEntry>,
}

impl Default for OpeningBook {
    /// An empty book.
    fn default() -> (r: OpeningBook)
        ensures
            r.wf(),
            r@.len() == 0,
    {
        OpeningBook::new()
    }
}

impl View for OpeningBook {
    type V = Seq<ScoredKey>;

    closed spec fn view(&self) -> Seq<ScoredKey> {
        Seq::new(self.entries@.len(), |i: int| self.entries@[i]@)
    }
}

impl OpeningBook {
    /// The invariant of a book: the keys rise from entry to entry.
    pub open spec fn wf(&self) -> bool {
        strictly_ascending(self@)
    }

    /// The score that the book holds for the position `board`: that of its
    /// base-3 key, and none for a position of too many stones to have a
    /// key of 64 bits.
    pub open spec fn score_for(&self, board: Board) -> Option<isize> {
        book_score_of(self@, board)
    }

    /// An empty book.
    pub fn new() -> (r: OpeningBook)
        ensures
            r.wf(),
            r@.len() == 0,
    {
        OpeningBook { entries: Vec::new() }
    }

    /// The number of entries.
    pub fn num_entries(&self) -> (r: usize)
        ensures
            r == self@.len(),
    {
        self.entries.len()
    }

    /// Whether the keys rise from each entry to the next.
    pub fn is_valid(&self) -> (r: bool)
        ensures
            r == self.wf(),
    {
        let n = self.entries.len();
        if n == 0 {
            return true;
        }
        let mut prev = self.entries[0].pos;
        let mut i: usize = 1;
        while i < n
            invariant
                1 <= i <= n,
                n == self.entries@.len(),
                prev == self@[i - 1].pos,
                strictly_ascending(self@.subrange(0, i as int)),
            decreases n - i,
        {
            let curr = self.entries[i].pos;
            if prev >= curr {
                assert(!(self@[i - 1].pos < self@[i as int].pos));
                return false;
            }
            proof {
                let before = self@.subrange(0, i as int);
                let after = self@.subrange(0, i + 1);
                assert forall|a: int, b: int| 0 <= a < b < after.len() implies after[a].pos
                    < after[b].pos by {
                    if b < i {
                        assert(before[a].pos < before[b].pos);
                    } else if a < i - 1 {
                        assert(before[a].pos < before[i - 1].pos);
                    }
                }
            }
            prev = curr;
            i += 1;
        }
        assert(self@.subrange(0, n as int) == self@);
        true
    }

    /// The index of the entry for `key`, or else the index at which an
    /// entry for `key` belongs.
    fn search(&self, key: u64) -> (r: Result<usize, usize>)
        requires
            self.wf(),
        ensures
            match r {
                Ok(i) => i < self@.len() && self@[i as int].pos == key,
                Err(i) => {
                    &&& i <= self@.len()
                    &&& !has_key(self@, key)
                    &&& forall|j: int| 0 <= j < i ==> self@[j].pos < key
                    &&& forall|j: int| i <= j < self@.len() ==> self@[j].pos > key
                },
            },
    {
        let mut low: usize = 0;
        let mut high: usize = self.entries.len();
        while low < high
            invariant
                low <= high <= self@.len(),
                self@.len() == self.entries@.len(),
                strictly_ascending(self@),
                forall|j: int| 0 <= j < low ==> self@[j].pos < key,
                forall|j: int| high <= j < self@.len() ==> self@[j].pos > key,
            decreases high - low,
        {
            let mid = low + (high - low) / 2;
            let pos = self.entries[mid].pos;
            assert(pos == self@[mid as int].pos);
            if pos == key {
                return Ok(mid);
            } else if pos < key {
                assert forall|j: int| 0 <= j < mid + 1 implies self@[j].pos < key by {
                    if j < mid {
                        assert(self@[j].pos < self@[mid as int].pos);
                    }
                }
                low = mid + 1;
            } else {
                assert forall|j: int| mid <= j < self@.len() implies self@[j].pos > key by {
                    if j > mid {
                        assert(self@[mid as int].pos < self@[j].pos);
                    }
                }
                high = mid;
            }
        }
        Err(low)
    }

    /// The score stored for the base-3 key `key`.
    pub fn get_by_key(&self, key: u64) -> (r: Option<isize>)
        requires
            self.wf(),
        ensures
            r == score_of(self@, key),
    {
        match self.search(key) {
            Ok(index) => {
                proof {
                    lemma_score_of(self@, index as int);
                }
                Some(self.entries[index].score)
            },
            Err(_) => None,
        }
    }

    /// Stores `score` for the base-3 key `key`, in place of the score that
    /// the book held for it, if any.
    pub fn put_by_key(&mut self, key: u64, score: isize)
        requires
            old(self).wf(),
        ensures
            final(self).wf(),
            forall|k: u64|
                score_of(final(self)@, k) == (if k == key {
                    Some(score)
                } else {
                    score_of(old(self)@, k)
                }),
            final(self)@.len() == old(self)@.len() + (if has_key(old(self)@, key) {
                0int
            } else {
                1int
            }),
    {
        let entry = BookEntry { pos: key, score };
        let ghost before = self@;
        match self.search(key) {
            Ok(index) => {
                self.entries[index] = entry;
                proof {
                    let after = self@;
                    assert(after =~= before.update(index as int, entry@));
                    assert(before[index as int].pos == key);
                    assert forall|i: int, j: int| 0 <= i < j < after.len() implies after[i].pos
                        < after[j].pos by {
                        assert(before[i].pos < before[j].pos);
                    }
                    assert forall|k: u64|
                        score_of(after, k) == (if k == key {
                            Some(score)
                        } else {
                            score_of(before, k)
                        }) by {
                        lemma_same_keys(before, after, index as int, k);
                    }
                }
            },
            Err(index) => {
                self.entries.insert(index, entry);
                proof {
                    let after = self@;
                    assert(after =~= before.insert(index as int, entry@));
                    assert forall|i: int, j: int| 0 <= i < j < after.len() implies after[i].pos
                        < after[j].pos by {
                        if i < index && j > index {
                            assert(before[i].pos < before[j - 1].pos);
                        } else if i < index && j < index {
                            assert(before[i].pos < before[j].pos);
                        } else if i > index {
                            assert(before[i - 1].pos < before[j - 1].pos);
                        }
                    }
                    assert forall|k: u64|
                        score_of(after, k) == (if k == key {
                            Some(score)
                        } else {
                            score_of(before, k)
                        }) by {
                        lemma_inserted_keys(before, after, index as int, k);
                    }
                }
            },
        }
    }

    /// A book of the given entries: for each key the score of the last
    /// entry that has it, the keys in ascending order.
    pub fn from(vec: Vec<BookEntry>) -> (book: OpeningBook)
        ensures
            book.wf(),
            book@.len() <= vec@.len(),
            forall|k: u64|
                score_of(book@, k) == last_score_of(Seq::new(vec@.len(), |i: int| vec@[i]@), k),
            strictly_ascending(Seq::new(vec@.len(), |i: int| vec@[i]@)) ==> book@ == Seq::new(
                vec@.len(),
                |i: int| vec@[i]@,
            ),
    {
        let ghost input = Seq::new(vec@.len(), |i: int| vec@[i]@);
        let book = OpeningBook { entries: vec };
        assert(book@ == input);
        if book.is_valid() {
            proof {
                assert forall|k: u64| score_of(book@, k) == last_score_of(input, k) by {
                    lemma_last_score_of(input, k);
                }
            }
            return book;
        }
        let mut sorted = OpeningBook::new();
        let n = book.entries.len();
        let mut i: usize = 0;
        proof {
            assert forall|k: u64| score_of(sorted@, k) == last_score_of(
                input.subrange(0, 0),
                k,
            ) by {
                if has_key(sorted@, k) {
                    let j = choose|j: int| 0 <= j < sorted@.len() && #[trigger] sorted@[j].pos == k;
                }
            }
        }
        while i < n
            invariant
                i <= n,
                n == input.len(),
                n == book.entries@.len(),
                book@ == input,
                sorted.wf(),
                sorted@.len() <= i,
                forall|k: u64|
                    score_of(sorted@, k) == last_score_of(input.subrange(0, i as int), k),
            decreases n - i,
        {
            let entry = book.entries[i];
            assert(entry@ == input[i as int]);
            let ghost before = sorted@;
            sorted.put_by_key(entry.pos, entry.score);
            proof {
                let prefix = input.subrange(0, i + 1);
                assert(prefix.last() == input[i as int]);
                assert(prefix.drop_last() == input.subrange(0, i as int));
            }
            i += 1;
        }
        assert(input.subrange(0, n as int) == input);
        sorted
    }

    /// The entries of the book in their order.
    pub fn entries(&self) -> (r: Vec<BookEntry>)
        ensures
            r@.len() == self@.len(),
            forall|i: int| 0 <= i < r@.len() ==> (#[trigger] r@[i])@ == self@[i],
    {
        let mut r: Vec<BookEntry> = Vec::new();
        let mut i: usize = 0;
        while i < self.entries.len()
            invariant
                i <= self.entries@.len(),
                r@.len() == i,
                forall|j: int| 0 <= j < i ==> (#[trigger] r@[j])@ == self@[j],
            decreases self.entries@.len() - i,
        {
            r.push(self.entries[i]);
            i += 1;
        }
        r
    }

    /// The lines of the book, one for each entry in their order.
    pub fn to_lines(&self) -> (r: Vec<String>)
        ensures
            r@.len() == self@.len(),
            forall|i: int| 0 <= i < r@.len() ==> (#[trigger] r@[i])@ == entry_line(self@[i]),
    {
        let mut r: Vec<String> = Vec::new();
        let mut i: usize = 0;
        while i < self.entries.len()
            invariant
                i <= self.entries@.len(),
                r@.len() == i,
                forall|j: int| 0 <= j < i ==> (#[trigger] r@[j])@ == entry_line(self@[j]),
            decreases self.entries@.len() - i,
        {
            r.push(self.entries[i].to_line());
            i += 1;
        }
        r
    }

    /// The playable columns of `pos`, in ascending order, whose move leads
    /// to a position that is in the book.
    pub fn book_moves_from_position(&self, pos: Position) -> (r: BookMoves<'_>)
        requires
            self.wf(),
            pos@.wf(),
        ensures
            r.wf(),
            r.book_entries() == self@,
            r.board() == pos@,
            r.next_column() == 0,
    {
        BookMoves { book: self, pos, next_col: 0 }
    }

    /// The score that the book holds for the position, if any.
    pub fn get(&self, pos: &Position) -> (r: Option<isize>)
        requires
            self.wf(),
            pos@.wf(),
        ensures
            r == self.score_for(pos@),
    {
        if pos.nb_moves() <= KEY3_MAX_MOVES {
            self.get_by_key(pos.key3())
        } else {
            None
        }
    }

    /// Stores `score` for the position, in place of the score that the book
    /// held for it or for its mirror image, if any.
    pub fn put(&mut self, pos: &Position, score: isize)
        requires
            old(self).wf(),
            pos@.wf(),
            pos@.moves <= KEY3_MAX_MOVES,
        ensures
            final(self).wf(),
            forall|k: u64|
                score_of(final(self)@, k) == (if k == pos@.key3() {
                    Some(score)
                } else {
                    score_of(old(self)@, k)
                }),
            final(self)@.len() == old(self)@.len() + (if has_key(old(self)@, pos@.key3() as u64) {
                0int
            } else {
                1int
            }),
    {
        self.put_by_key(pos.key3(), score);
    }
}

/// Goes through the moves of a position that lead into a book.
pub struct BookMoves<'a> {
    book: &'a OpeningBook,
    pos: Position,
    next_col: Column,
}

/// Whether the book of entries `entries` holds the position that the move
/// into column `col` leads to from `board`.
pub open spec fn is_book_move(entries: Seq<ScoredKey>, board: Board, col: int) -> bool {
    &&& board.can_play(col)
    &&& board.play_col(col).moves <= KEY3_MAX_MOVES
    &&& has_key(entries, board.play_col(col).key3() as u64)
}

impl<'a> BookMoves<'a> {
    /// The entries of the book.
    pub closed spec fn book_entries(&self) -> Seq<ScoredKey> {
        self.book@
    }

    /// The position whose moves are looked up.
    pub closed spec fn board(&self) -> Board {
        self.pos@
    }

    /// The first column that was not looked at yet.
    pub closed spec fn next_column(&self) -> int {
        self.next_col as int
    }

    /// The invariant: a book in order, a legal position, and a column that
    /// exists or is one past the last.
    pub closed spec fn wf(&self) -> bool {
        self.book.wf() && self.pos@.wf() && self.next_col <= 7
    }

    /// The next column whose move leads into the book, or `None` once
    /// there is no such column left.
    pub fn next(&mut self) -> (r: Option<Column>)
        requires
            old(self).wf(),
        ensures
            final(self).wf(),
            final(self).book_entries() == old(self).book_entries(),
            final(self).board() == old(self).board(),
            match r {
                Some(col) => {
                    &&& old(self).next_column() <= col < 7
                    &&& is_book_move(old(self).book_entries(), old(self).board(), col as int)
                    &&& final(self).next_column() == col + 1
                    &&& forall|c: int|
                        old(self).next_column() <= c < col ==> !is_book_move(
                            old(self).book_entries(),
                            old(self).board(),
                            c,
                        )
                },
                None => {
                    &&& final(self).next_column() == 7
                    &&& forall|c: int|
                        old(self).next_column() <= c < 7 ==> !is_book_move(
                            old(self).book_entries(),
                            old(self).board(),
                            c,
                        )
                },
            },
    {
        let mut col = self.next_col;
        while col < Position::WIDTH
            invariant
                self.wf(),
                *self == *old(self),
                old(self).next_col <= col <= 7,
                forall|c: int|
                    old(self).next_column() <= c < col ==> !is_book_move(
                        old(self).book_entries(),
                        old(self).board(),
                        c,
                    ),
            decreases 7 - col,
        {
            if self.pos.can_play(col) {
                let mut next_pos = self.pos;
                next_pos.play_col(col);
                match self.book.get(&next_pos) {
                    Some(_) => {
                        self.next_col = col + 1;
                        return Some(col);
                    },
                    None => {},
                }
            }
            col += 1;
        }
        self.next_col = Position::WIDTH;
        None
    }
}

} // verus!
