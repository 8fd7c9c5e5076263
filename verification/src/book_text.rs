//! The text of a book entry: how a line is read, how an entry is written,
//! and that what is written is read back as it was.

use crate::opening_book::{ParseBookEntryError, ScoredKey};
use vstd::prelude::*;

verus! {

/// Whether `c` is a decimal digit.
pub open spec fn is_digit(c: char) -> bool {
    '0' <= c && c <= '9'
}

/// Whether `s` is made of decimal digits.
pub open spec fn all_digits(s: Seq<char>) -> bool {
    forall|i: int| 0 <= i < s.len() ==> is_digit(#[trigger] s[i])
}

/// The number that the decimal digits of `s` write.
pub open spec fn decimal_value(s: Seq<char>) -> nat
    decreases s.len(),
{
    if s.len() == 0 {
        0
    } else {
        decimal_value(s.drop_last()) * 10 + (s.last() as u8 - 48) as nat
    }
}

/// The number that `s` writes: at least one decimal digit and nothing
/// else.
pub open spec fn parse_digits(s: Seq<char>) -> Option<nat> {
    if s.len() > 0 && all_digits(s) {
        Some(decimal_value(s))
    } else {
        None
    }
}

/// `s` without the plus sign that it begins with, if it begins with one.
pub open spec fn without_plus(s: Seq<char>) -> Seq<char> {
    if s.len() > 0 && s[0] == '+' {
        s.drop_first()
    } else {
        s
    }
}

/// The key that `s` writes: a number of at most 64 bits, after a plus
/// sign or after none.
pub open spec fn parse_key(s: Seq<char>) -> Option<u64> {
    match parse_digits(without_plus(s)) {
        Some(n) => if n <= u64::MAX {
            Some(n as u64)
        } else {
            None
        },
        None => None,
    }
}

/// The score that `s` writes: a number of the machine's word size, after
/// a minus sign, a plus sign or none.
pub open spec fn parse_score(s: Seq<char>) -> Option<isize> {
    if s.len() > 0 && s[0] == '-' {
        match parse_digits(s.drop_first()) {
            Some(n) => if -n >= isize::MIN {
                Some((-n) as isize)
            } else {
                None
            },
            None => None,
        }
    } else {
        match parse_digits(without_plus(s)) {
            Some(n) => if n <= isize::MAX {
                Some(n as isize)
            } else {
                None
            },
            None => None,
        }
    }
}

/// The number of spaces in `s`.
pub open spec fn count_spaces(s: Seq<char>) -> nat
    decreases s.len(),
{
    if s.len() == 0 {
        0
    } else {
        count_spaces(s.drop_last()) + if s.last() == ' ' {
            1nat
        } else {
            0nat
        }
    }
}

/// The index of the first space in `s`, or the length of `s` if it has
/// none.
pub open spec fn first_space(s: Seq<char>) -> int
    decreases s.len(),
{
    if s.len() == 0 {
        0
    } else if s[0] == ' ' {
        0
    } else {
        1 + first_space(s.drop_first())
    }
}

/// The book entry that a line writes: a key and a score with one space
/// between them and no other space in the line.
pub open spec fn parse_entry(line: Seq<char>) -> Result<ScoredKey, ParseBookEntryError> {
    if count_spaces(line) != 1 {
        Err(ParseBookEntryError::WrongFieldCount)
    } else {
        let at = first_space(line);
        match parse_key(line.subrange(0, at)) {
            None => Err(ParseBookEntryError::BadPositionKey),
            Some(pos) => match parse_score(line.subrange(at + 1, line.len() as int)) {
                None => Err(ParseBookEntryError::BadScore),
                Some(score) => Ok(ScoredKey { pos, score }),
            },
        }
    }
}

/// The character of a decimal digit.
pub open spec fn digit_char(d: nat) -> char {
    ((d + 48) as u8) as char
}

/// The decimal digits of `n`, without leading zeros.
pub open spec fn decimal_digits(n: nat) -> Seq<char>
    decreases n,
{
    if n < 10 {
        seq![digit_char(n)]
    } else {
        decimal_digits(n / 10).push(digit_char(n % 10))
    }
}

/// A score in decimal digits, with a minus sign if it is negative.
pub open spec fn score_digits(score: int) -> Seq<char> {
    if score < 0 {
        seq!['-'] + decimal_digits((-score) as nat)
    } else {
        decimal_digits(score as nat)
    }
}

/// The line of a book entry: key and score in decimal digits with one
/// space between them.
pub open spec fn entry_line(entry: ScoredKey) -> Seq<char> {
    decimal_digits(entry.pos as nat) + seq![' '] + score_digits(entry.score as int)
}

/// The digits of a longer number write at least what its first digits
/// write.
pub proof fn lemma_decimal_value_prefix(s: Seq<char>, n: int)
    requires
        0 <= n <= s.len(),
    ensures
        decimal_value(s.subrange(0, n)) <= decimal_value(s),
    decreases s.len(),
{
    if n < s.len() {
        lemma_decimal_value_prefix(s.drop_last(), n);
        assert(s.drop_last().subrange(0, n) == s.subrange(0, n));
    } else {
        assert(s.subrange(0, n) == s);
    }
}

/// The decimal digits of a number write the number, and hold neither a
/// space nor a sign.
pub proof fn lemma_decimal_digits(n: nat)
    ensures
        decimal_digits(n).len() > 0,
        all_digits(decimal_digits(n)),
        decimal_value(decimal_digits(n)) == n,
        parse_digits(decimal_digits(n)) == Some(n),
        without_plus(decimal_digits(n)) == decimal_digits(n),
    decreases n,
{
    let s = decimal_digits(n);
    if n < 10 {
        assert(s.drop_last().len() == 0);
        assert(s.last() == digit_char(n));
        assert(decimal_value(s.drop_last()) == 0);
    } else {
        lemma_decimal_digits(n / 10);
        let rest = decimal_digits(n / 10);
        assert(s.drop_last() == rest);
        assert(s.last() == digit_char(n % 10));
        assert forall|i: int| 0 <= i < s.len() implies is_digit(#[trigger] s[i]) by {
            if i < rest.len() {
                assert(s[i] == rest[i]);
            }
        }
    }
    assert(is_digit(s[0]));
}

/// What is made of digits holds no space.
pub proof fn lemma_digits_no_space(s: Seq<char>)
    requires
        all_digits(s),
    ensures
        count_spaces(s) == 0,
        first_space(s) == s.len(),
    decreases s.len(),
{
    if s.len() > 0 {
        assert(is_digit(s[0]));
        assert(is_digit(s.last()));
        assert forall|i: int| 0 <= i < s.drop_last().len() implies is_digit(
            #[trigger] s.drop_last()[i],
        ) by {
            assert(s.drop_last()[i] == s[i]);
        }
        assert forall|i: int| 0 <= i < s.drop_first().len() implies is_digit(
            #[trigger] s.drop_first()[i],
        ) by {
            assert(s.drop_first()[i] == s[i + 1]);
        }
        lemma_digits_no_space(s.drop_last());
        lemma_digits_no_space(s.drop_first());
    }
}

/// The spaces of two strings put together.
pub proof fn lemma_count_spaces_concat(a: Seq<char>, b: Seq<char>)
    ensures
        count_spaces(a + b) == count_spaces(a) + count_spaces(b),
    decreases b.len(),
{
    if b.len() == 0 {
        assert(a + b == a);
    } else {
        lemma_count_spaces_concat(a, b.drop_last());
        assert((a + b).drop_last() == a + b.drop_last());
        assert((a + b).last() == b.last());
    }
}

/// The first space of a string that begins with digits.
pub proof fn lemma_first_space_after_digits(a: Seq<char>, b: Seq<char>)
    requires
        all_digits(a),
    ensures
        first_space(a + seq![' '] + b) == a.len(),
    decreases a.len(),
{
    let s = a + seq![' '] + b;
    if a.len() == 0 {
        assert(s[0] == ' ');
    } else {
        assert(is_digit(a[0]));
        assert(s[0] == a[0]);
        assert forall|i: int| 0 <= i < a.drop_first().len() implies is_digit(
            #[trigger] a.drop_first()[i],
        ) by {
            assert(a.drop_first()[i] == a[i + 1]);
        }
        lemma_first_space_after_digits(a.drop_first(), b);
        assert(s.drop_first() == a.drop_first() + seq![' '] + b);
    }
}

/// The line of a book entry writes the entry: what is stored line by line
/// is read back as it was.
pub proof fn lemma_entry_line_round_trip(entry: ScoredKey)
    ensures
        parse_entry(entry_line(entry)) == Ok::<ScoredKey, ParseBookEntryError>(entry),
{
    let key = decimal_digits(entry.pos as nat);
    let score = score_digits(entry.score as int);
    let line = entry_line(entry);
    let magnitude = decimal_digits(
        (if entry.score < 0 {
            -entry.score
        } else {
            entry.score as int
        }) as nat,
    );
    lemma_decimal_digits(entry.pos as nat);
    lemma_decimal_digits(
        (if entry.score < 0 {
            -entry.score
        } else {
            entry.score as int
        }) as nat,
    );
    lemma_digits_no_space(key);
    lemma_digits_no_space(magnitude);
    lemma_first_space_after_digits(key, score);
    assert(count_spaces(score) == 0) by {
        if entry.score < 0 {
            lemma_count_spaces_concat(seq!['-'], magnitude);
            assert(seq!['-'].drop_last().len() == 0);
            assert(count_spaces(seq!['-'].drop_last()) == 0);
        }
    }
    assert(count_spaces(line) == 1) by {
        lemma_count_spaces_concat(key + seq![' '], score);
        lemma_count_spaces_concat(key, seq![' ']);
        assert(seq![' '].drop_last().len() == 0);
        assert(count_spaces(seq![' '].drop_last()) == 0);
    }
    assert(line.subrange(0, key.len() as int) == key);
    assert(line.subrange(key.len() as int + 1, line.len() as int) == score);
    if entry.score < 0 {
        assert(score[0] == '-');
        assert(score.drop_first() == magnitude);
    } else {
        assert(score == magnitude);
    }
}

} // verus!
