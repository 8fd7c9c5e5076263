//! A table that remembers bounds on the scores of positions: a fixed
//! number of slots, found by the key of the position.

use crate::position::Position;
use vstd::prelude::*;

verus! {

/// The middle of two numbers.
pub open spec fn med_spec(min: u64, max: u64) -> u64 {
    ((min + max) / 2) as u64
}

/// Whether `n` has a divisor `d` with `min <= d < max` and `d * d <= n`.
pub open spec fn has_factor_spec(n: u64, min: u64, max: u64) -> bool {
    exists|d: int| min <= d < max && d * d <= n && #[trigger] (n as int % d) == 0
}

/// Whether `n` is a prime number.
pub open spec fn is_prime(n: u64) -> bool {
    n >= 2 && !has_factor_spec(n, 2, n)
}

/// The middle of two numbers.
pub fn med(min: u64, max: u64) -> (r: u64)
    requires
        min + max <= u64::MAX,
    ensures
        r == med_spec(min, max),
{
    (min + max) / 2
}

/// Whether `n` has a divisor between `min`, included, and `max`, excluded,
/// that does not exceed its square root. For an empty range the answer is
/// whether `min` is such a divisor.
pub fn has_factor(n: u64, min: u64, max: u64) -> (r: bool)
    requires
        1 <= min,
        max + max <= u64::MAX,
    ensures
        min < max ==> r == has_factor_spec(n, min, max),
        min >= max ==> r == (min * min <= n && n % min == 0),
    decreases max - min,
{
    assert(min * min <= 0xffff_ffff_ffff_ffff * 0xffff_ffff_ffff_ffff) by (nonlinear_arith)
        requires
            0 <= min <= 0xffff_ffff_ffff_ffff,
    ;
    if min as u128 * min as u128 > n as u128 {
        assert forall|d: int|
            min <= d < max && d * d <= n && #[trigger] (n as int % d) == 0 implies false by {
            assert(min * min <= d * d) by (nonlinear_arith)
                requires
                    1 <= min <= d,
            ;
        }
        false
    } else if min + 1 >= max {
        proof {
            if n % min == 0 {
                assert(n as int % (min as int) == 0);
            }
        }
        n % min == 0
    } else {
        let mid = med(min, max);
        let low = has_factor(n, min, mid);
        if low {
            proof {
                let d = choose|d: int|
                    min <= d < mid && d * d <= n && #[trigger] (n as int % d) == 0;
                assert(min <= d < max && d * d <= n && (n as int % d) == 0);
            }
            true
        } else {
            let high = has_factor(n, mid, max);
            proof {
                if high {
                    let d = choose|d: int|
                        mid <= d < max && d * d <= n && #[trigger] (n as int % d) == 0;
                    assert(min <= d < max && d * d <= n && (n as int % d) == 0);
                } else {
                    assert forall|d: int|
                        min <= d < max && d * d <= n && #[trigger] (n as int % d)
                            == 0 implies false by {
                        if d < mid {
                            assert(min <= d < mid && d * d <= n && (n as int % d) == 0);
                        } else {
                            assert(mid <= d < max && d * d <= n && (n as int % d) == 0);
                        }
                    }
                }
            }
            high
        }
    }
}

/// The first prime number that is not below `n`, for `n` of at least two
/// and where the 64-bit numbers hold such a prime.
pub fn next_prime(n: u64) -> (r: u64)
    requires
        n >= 2,
        exists|p: u64| n <= p < 0x8000_0000_0000_0000 && is_prime(p),
    ensures
        n <= r,
        is_prime(r),
        forall|q: u64| n <= q < r ==> !is_prime(q),
{
    let ghost p = choose|p: u64| n <= p < 0x8000_0000_0000_0000 && is_prime(p);
    let mut candidate = n;
    while has_factor(candidate, 2, candidate)
        invariant
            2 <= n <= candidate <= p < 0x8000_0000_0000_0000,
            is_prime(p),
            forall|q: u64| n <= q < candidate ==> !is_prime(q),
        decreases p - candidate,
    {
        candidate += 1;
    }
    candidate
}

/// What a table slot holds for a position: a bound on its score and the
/// column that gave it.
pub struct TableEntry {
    /// The score, shifted into the range of lower or of upper bounds.
    pub score: u8,
    /// The column that gave the bound.
    pub column: u8,
}

/// An entry read from the table.
#[derive(Clone, Copy, Debug, PartialEq, Eq)]
pub struct PosInfo {
    /// The score of the position: a lower or an upper bound.
    score: u8,
    /// The column that gave this bound.
    column: u8,
}

impl View for PosInfo {
    type V = TableEntry;

    closed spec fn view(&self) -> TableEntry {
        TableEntry { score: self.score, column: self.column }
    }
}

impl PosInfo {
    /// An entry of the given score and column.
    pub fn new(score: u8, column: u8) -> (r: PosInfo)
        ensures
            r@ == (TableEntry { score, column }),
    {
        PosInfo { score, column }
    }

    /// The entry of an untouched slot.
    pub fn zero() -> (r: PosInfo)
        ensures
            r@ == (TableEntry { score: 0, column: 0 }),
    {
        PosInfo { score: 0, column: 0 }
    }

    /// The stored score.
    pub fn score(&self) -> (r: isize)
        ensures
            r == self@.score,
    {
        self.score as isize
    }

    /// The stored column.
    pub fn column(&self) -> (r: u8)
        ensures
            r == self@.column,
    {
        self.column
    }
}

/// The number of slots: the first prime number above 2^24.
pub const TABLE_SIZE: u64 = 16777259;

/// The partial key of an untouched slot. No legal position has a key that
/// ends in these 32 bits, for its first column would hold seven cells.
pub const EMPTY_KEY: u32 = 0xffff_ffff;

/// The part of a key that a slot keeps: its low 32 bits.
pub open spec fn partial_key(key: u64) -> u32 {
    (key % 0x1_0000_0000) as u32
}

/// The slot of a key.
pub open spec fn slot_index(key: u64) -> int {
    (key % TABLE_SIZE) as int
}

/// Score and column in one 16-bit word: the score in the low byte.
pub open spec fn pack(entry: TableEntry) -> u16 {
    (entry.column * 256 + entry.score) as u16
}

/// The score and column that a 16-bit word holds.
pub open spec fn unpack(value: u16) -> TableEntry {
    TableEntry { score: (value % 256) as u8, column: (value / 256) as u8 }
}

/// What a reader with key `key` finds in a slot that holds the words
/// `stored_key` and `value`: the entry, if the stored key is the reader's
/// partial key xor-ed with the value, and nothing otherwise.
pub open spec fn slot_lookup(stored_key: u32, value: u16, key: u64) -> Option<TableEntry> {
    if stored_key == partial_key(key) ^ (value as u32) {
        Some(unpack(value))
    } else {
        None
    }
}

/// The words that a writer with key `key` puts into a slot for `entry`.
pub open spec fn slot_words(key: u64, entry: TableEntry) -> (u32, u16) {
    (partial_key(key) ^ (pack(entry) as u32), pack(entry))
}

/// The model of a table: the two arrays of words.
pub struct TableView {
    pub keys: Seq<u32>,
    pub values: Seq<u16>,
}

impl TableView {
    /// Both arrays have one word for each slot.
    pub open spec fn wf(self) -> bool {
        self.keys.len() == TABLE_SIZE && self.values.len() == TABLE_SIZE
    }

    /// Whether no slot was written to.
    pub open spec fn is_empty(self) -> bool {
        forall|i: int|
            0 <= i < TABLE_SIZE ==> #[trigger] self.keys[i] == EMPTY_KEY && self.values[i] == 0
    }

    /// What the table holds for `key`.
    pub open spec fn lookup(self, key: u64) -> Option<TableEntry> {
        slot_lookup(self.keys[slot_index(key)], self.values[slot_index(key)], key)
    }

    /// The table after `entry` was stored for `key`: the slot of `key`
    /// holds the new words, whatever it held before.
    pub open spec fn store(self, key: u64, entry: TableEntry) -> TableView {
        TableView {
            keys: self.keys.update(slot_index(key), slot_words(key, entry).0),
            values: self.values.update(slot_index(key), slot_words(key, entry).1),
        }
    }
}

/// Whether `put_checked` leaves the table as it is: an entry is found for
/// the key, and either it is a lower bound, the new one is too, and the
/// stored score is not below the new one; or it is an upper bound and its
/// score is not above the new one. The stored scores above 37, the number
/// of scores from the lowest to the highest, stand for lower bounds.
pub open spec fn keeps_entry(found: Option<TableEntry>, score: u8, is_upper_bound: bool) -> bool {
    match found {
        Some(entry) => if entry.score > 37 {
            !is_upper_bound && entry.score >= score
        } else {
            entry.score <= score
        },
        None => false,
    }
}

/// Xor-ing a word in and out again gives the partial key back, and two
/// partial keys xor-ed with the same word differ as the keys do. A word
/// read back as score and column is the word that was packed.
pub proof fn lemma_xor_link(a: u32, b: u32, v: u16, score: u8, column: u8)
    by (bit_vector)
    ensures
        (a ^ (v as u32) == b ^ (v as u32)) <==> a == b,
        (a ^ (v as u32)) ^ (v as u32) == a,
        a ^ (0u16 as u32) == a,
        (((column * 256 + score) as u16) % 256) as u8 == score,
        (((column * 256 + score) as u16) / 256) as u8 == column,
        (column * 256 + score) as u16 == column * 256 + score,
{
}

/// What a table holds for a key after something was stored: the new
/// entry for a key of the same slot and partial key, nothing for another
/// key of that slot, and for the keys of other slots what it held before.
pub proof fn lemma_lookup_after_store(table: TableView, key: u64, entry: TableEntry, other: u64)
    requires
        table.wf(),
    ensures
        table.store(key, entry).wf(),
        table.store(key, entry).lookup(other) == (if slot_index(other) == slot_index(key) {
            if partial_key(other) == partial_key(key) {
                Some(entry)
            } else {
                None
            }
        } else {
            table.lookup(other)
        }),
{
    lemma_xor_link(partial_key(other), partial_key(key), pack(entry), entry.score, entry.column);
}

/// A table in which nothing is stored holds nothing for any key but those
/// that end in 32 set bits, for which it holds the entry of score and
/// column zero.
pub proof fn lemma_lookup_empty(table: TableView, key: u64)
    requires
        table.wf(),
        table.is_empty(),
    ensures
        table.lookup(key) == if partial_key(key) == EMPTY_KEY {
            Some(TableEntry { score: 0, column: 0 })
        } else {
            None
        },
{
    assert(table.keys[slot_index(key)] == EMPTY_KEY);
    lemma_xor_link(partial_key(key), 0, 0, 0, 0);
}

/// The keys that slot and partial key tell apart: those below the product
/// of the number of slots and 2^32, among them all keys of 49 bits.
pub open spec fn is_table_key(key: u64) -> bool {
    key < TABLE_SIZE * 0x1_0000_0000
}

/// Two table keys that share slot and partial key are one key: the number
/// of slots is odd.
pub proof fn lemma_slot_and_partial_key(k1: u64, k2: u64)
    requires
        is_table_key(k1),
        is_table_key(k2),
        slot_index(k1) == slot_index(k2),
        partial_key(k1) == partial_key(k2),
    ensures
        k1 == k2,
{
    let (a, b) = if k1 >= k2 {
        (k1 as int, k2 as int)
    } else {
        (k2 as int, k1 as int)
    };
    let d = a - b;
    let m: int = 0x1_0000_0000;
    let s: int = 16777259;
    // d is a multiple of both moduli
    assert(d % m == 0) by {
        vstd::arithmetic::div_mod::lemma_fundamental_div_mod(a, m);
        vstd::arithmetic::div_mod::lemma_fundamental_div_mod(b, m);
        assert(d == m * (a / m - b / m)) by (nonlinear_arith)
            requires
                a == m * (a / m) + a % m,
                b == m * (b / m) + b % m,
                a % m == b % m,
                d == a - b,
        ;
        vstd::arithmetic::div_mod::lemma_mod_multiples_basic(a / m - b / m, m);
        assert((a / m - b / m) * m == m * (a / m - b / m)) by (nonlinear_arith);
    }
    assert(d % s == 0) by {
        vstd::arithmetic::div_mod::lemma_fundamental_div_mod(a, s);
        vstd::arithmetic::div_mod::lemma_fundamental_div_mod(b, s);
        assert(d == s * (a / s - b / s)) by (nonlinear_arith)
            requires
                a == s * (a / s) + a % s,
                b == s * (b / s) + b % s,
                a % s == b % s,
                d == a - b,
        ;
        vstd::arithmetic::div_mod::lemma_mod_multiples_basic(a / s - b / s, s);
        assert((a / s - b / s) * s == s * (a / s - b / s)) by (nonlinear_arith);
    }
    // 648068739 * 16777259 - 2531525 * 2^32 == 1
    let t = d / m;
    let u = d / s;
    vstd::arithmetic::div_mod::lemma_fundamental_div_mod(d, m);
    vstd::arithmetic::div_mod::lemma_fundamental_div_mod(d, s);
    assert(d == m * t && d == s * u);
    assert(t == s * (648068739 * t - 2531525 * u)) by (nonlinear_arith)
        requires
            m * t == s * u,
            m == 0x1_0000_0000,
            s == 16777259,
    ;
    let q = 648068739 * t - 2531525 * u;
    assert(0 <= t < s) by (nonlinear_arith)
        requires
            d == m * t,
            0 <= d < s * m,
            m == 0x1_0000_0000,
    ;
    assert(q == 0) by (nonlinear_arith)
        requires
            t == s * q,
            0 <= t < s,
            s == 16777259,
    ;
}

/// Right after an entry was stored for a table key, the table holds that
/// entry for the key, nothing for any other table key of the same slot,
/// and for the keys of other slots what it held before.
pub proof fn lemma_get_after_put(table: TableView, key: u64, entry: TableEntry, other: u64)
    requires
        table.wf(),
        is_table_key(key),
        is_table_key(other),
    ensures
        table.store(key, entry).lookup(key) == Some(entry),
        other != key && slot_index(other) == slot_index(key) ==> table.store(key, entry).lookup(
            other,
        ) is None,
        slot_index(other) != slot_index(key) ==> table.store(key, entry).lookup(other)
            == table.lookup(other),
{
    lemma_lookup_after_store(table, key, entry, key);
    lemma_lookup_after_store(table, key, entry, other);
    if other != key && slot_index(other) == slot_index(key) && partial_key(other) == partial_key(
        key,
    ) {
        lemma_slot_and_partial_key(key, other);
    }
}

/// Two partial keys whose keys lie one table size apart differ in a bit
/// above the low sixteen, which no stored value reaches.
proof fn lemma_partial_keys_apart(k: u64, v1: u16, v2: u16)
    by (bit_vector)
    requires
        k <= 0xffff_ffff_ffff_ffff - 16777259,
    ensures
        ((k % 0x1_0000_0000) as u32) ^ (v1 as u32) != ((((k + 16777259) as u64)
            % 0x1_0000_0000) as u32) ^ (v2 as u32),
        (((k % 0x1_0000_0000) as u32) ^ (v1 as u32) == ((k % 0x1_0000_0000) as u32) ^ (
        v2 as u32)) <==> v1 == v2,
        ((((k + 16777259) as u64) % 0x1_0000_0000) as u32) ^ (v1 as u32) == ((((k + 16777259)
            as u64) % 0x1_0000_0000) as u32) ^ (v2 as u32) <==> v1 == v2,
{
}

/// Two writers store into one slot at once, one for the key `k1` and one
/// for the key one table size above it: whichever of the two stored keys
/// and whichever of the two stored values the slot ends up with, a reader
/// finds for either key nothing or what was stored for that key. Where
/// the stored key is of one writer and the stored value of the other, and
/// the values differ, both readers find nothing.
pub proof fn lemma_torn_write(
    k1: u64,
    e1: TableEntry,
    e2: TableEntry,
    key_of_first: bool,
    value_of_first: bool,
)
    requires
        k1 <= u64::MAX - TABLE_SIZE,
    ensures
        ({
            let k2 = (k1 + TABLE_SIZE) as u64;
            let stored_key = if key_of_first {
                slot_words(k1, e1).0
            } else {
                slot_words(k2, e2).0
            };
            let value = if value_of_first {
                slot_words(k1, e1).1
            } else {
                slot_words(k2, e2).1
            };
            &&& slot_index(k1) == slot_index(k2)
            &&& slot_lookup(stored_key, value, k1) is None || slot_lookup(stored_key, value, k1)
                == Some(e1)
            &&& slot_lookup(stored_key, value, k2) is None || slot_lookup(stored_key, value, k2)
                == Some(e2)
            &&& key_of_first != value_of_first && e1 != e2 ==> slot_lookup(stored_key, value, k1)
                is None && slot_lookup(stored_key, value, k2) is None
            &&& key_of_first && value_of_first ==> slot_lookup(stored_key, value, k1) == Some(e1)
            &&& !key_of_first && !value_of_first ==> slot_lookup(stored_key, value, k2) == Some(e2)
        }),
{
    let k2 = (k1 + TABLE_SIZE) as u64;
    lemma_partial_keys_apart(k1, pack(e1), pack(e2));
    lemma_partial_keys_apart(k1, pack(e2), pack(e1));
    lemma_partial_keys_apart(k1, pack(e1), pack(e1));
    lemma_partial_keys_apart(k1, pack(e2), pack(e2));
    lemma_xor_link(0, 0, 0, e1.score, e1.column);
    lemma_xor_link(0, 0, 0, e2.score, e2.column);
    assert(unpack(pack(e1)) == e1);
    assert(unpack(pack(e2)) == e2);
    assert(pack(e1) == pack(e2) ==> e1 == e2);
    assert(slot_index(k1) == slot_index(k2)) by {
        vstd::arithmetic::div_mod::lemma_mod_add_multiples_vanish(k1 as int, TABLE_SIZE as int);
    }
}

/// A fixed number of slots, each for one position at a time: what is
/// stored replaces what the slot held. A slot keeps part of the key only,
/// which together with the slot's number tells apart all keys below
/// `TABLE_SIZE * 2^32`.
///
/// The stored key is xor-ed with the stored value, so that a slot whose two
/// words stem from two stores with different values is taken for empty.
pub struct TranspositionTable {
    keys: Vec<u32>,
    values: Vec<u16>,
}

impl Default for TranspositionTable {
    /// A table in which nothing is stored.
    fn default() -> (r: TranspositionTable)
        ensures
            r@.wf(),
            r@.is_empty(),
    {
        TranspositionTable::new()
    }
}

impl View for TranspositionTable {
    type V = TableView;

    closed spec fn view(&self) -> TableView {
        TableView { keys: self.keys@, values: self.values@ }
    }
}

impl TranspositionTable {
    /// Base 2 logarithm of the number of slots, rounded down.
    pub const LOG_SIZE: usize = 24;

    /// The number of slots.
    pub const SIZE: u64 = TABLE_SIZE;

    /// A table in which nothing is stored.
    pub fn new() -> (r: TranspositionTable)
        ensures
            r@.wf(),
            r@.is_empty(),
    {
        let size = Self::SIZE as usize;
        let keys: Vec<u32> = vec![EMPTY_KEY; size];
        let values: Vec<u16> = vec![0u16; size];
        TranspositionTable { keys, values }
    }

    /// Forgets all that is stored.
    pub fn reset(&mut self)
        requires
            old(self)@.wf(),
        ensures
            final(self)@.wf(),
            final(self)@.is_empty(),
    {
        let size = Self::SIZE as usize;
        let mut i: usize = 0;
        while i < size
            invariant
                i <= size == TABLE_SIZE,
                self@.wf(),
                forall|j: int|
                    0 <= j < i ==> #[trigger] self.keys@[j] == EMPTY_KEY && self.values@[j] == 0,
            decreases size - i,
        {
            self.keys[i] = EMPTY_KEY;
            self.values[i] = 0;
            i += 1;
        }
    }

    /// The slot of `key`.
    fn index(key: u64) -> (r: usize)
        ensures
            r == slot_index(key),
            r < TABLE_SIZE,
    {
        (key % Self::SIZE) as usize
    }

    /// The two words that are stored for `key` with the given score and
    /// column: the partial key xor-ed with the value, and the value.
    pub fn slot_words(key: u64, score: u8, column: u8) -> (r: (u32, u16))
        ensures
            r == slot_words(key, TableEntry { score, column }),
    {
        let value: u16 = (column as u16) * 256 + (score as u16);
        let partial: u32 = (key % 0x1_0000_0000) as u32;
        (partial ^ (value as u32), value)
    }

    /// What a reader with key `key` finds in a slot that holds the two
    /// given words: the entry that the value holds, if the stored key is
    /// the partial key of the reader xor-ed with that value.
    pub fn slot_lookup(stored_key: u32, value: u16, key: u64) -> (r: Option<PosInfo>)
        ensures
            match r {
                Some(info) => slot_lookup(stored_key, value, key) == Some(info@),
                None => slot_lookup(stored_key, value, key) is None,
            },
    {
        let partial: u32 = (key % 0x1_0000_0000) as u32;
        if stored_key == partial ^ (value as u32) {
            Some(PosInfo::new((value % 256) as u8, (value / 256) as u8))
        } else {
            None
        }
    }

    /// The entry stored for `key`, if the slot of `key` holds one whose
    /// partial key matches.
    pub fn get(&self, key: u64) -> (r: Option<PosInfo>)
        requires
            self@.wf(),
        ensures
            match r {
                Some(info) => self@.lookup(key) == Some(info@),
                None => self@.lookup(key) is None,
            },
    {
        let index = Self::index(key);
        Self::slot_lookup(self.keys[index], self.values[index], key)
    }

    /// Stores score and column for `key`, in place of what the slot of
    /// `key` held.
    pub fn put(&mut self, key: u64, score: u8, column: u8)
        requires
            old(self)@.wf(),
        ensures
            final(self)@.wf(),
            final(self)@ == old(self)@.store(key, TableEntry { score, column }),
            final(self)@.lookup(key) == Some(TableEntry { score, column }),
    {
        proof {
            lemma_lookup_after_store(self@, key, TableEntry { score, column }, key);
        }
        let index = Self::index(key);
        let (stored_key, value) = Self::slot_words(key, score, column);
        self.keys[index] = stored_key;
        self.values[index] = value;
    }

    /// Stores score and column for `key` unless the slot holds, for the
    /// same key, a bound that `keeps_entry` prefers.
    pub fn put_checked(&mut self, key: u64, score: u8, column: u8, is_upper_bound: bool)
        requires
            old(self)@.wf(),
        ensures
            final(self)@.wf(),
            final(self)@ == (if keeps_entry(old(self)@.lookup(key), score, is_upper_bound) {
                old(self)@
            } else {
                old(self)@.store(key, TableEntry { score, column })
            }),
    {
        if let Some(pos_info) = self.get(key) {
            let val = pos_info.score();
            if val > Position::MAX_SCORE - Position::MIN_SCORE + 1 {
                if !is_upper_bound && val >= score as isize {
                    return ;
                }
            } else if val <= score as isize {
                return ;
            }
        }
        self.put(key, score, column)
    }
}

} // verus!
