use connect_4::position::{Column, Position};
use connect_4::transposition_table::{has_factor, med, next_prime, PosInfo, TranspositionTable};

#[test]
fn inserts_and_gets() {
    let mut tb = TranspositionTable::new();
    let mut pos = Position::new();
    assert_eq!(tb.get(pos.key()), None);
    for j in 0..20 {
        pos.play_col(j * 5 % Position::WIDTH);
        let key = pos.key();
        assert_eq!(tb.get(key), None);
        let _ = Position::display_bitboard(pos.key());
        for i in 0..Position::WIDTH {
            let bmove = pos.possible_non_losing_moves() & Position::column_mask(i);
            let score = pos.move_score(bmove) as Column;
            tb.put(key, score, i);
            assert_eq!(tb.get(key), Some(PosInfo::new(score, i)));
        }
    }
}

#[test]
fn uninitialized() {
    let tb = TranspositionTable::new();
    for p in [3, 5, 11, 37, 53, 137] {
        let mut pos = Position::new();
        assert_eq!(tb.get(pos.key()), None);
        for k in 0..100 {
            let col = (k * p) as u8 % Position::WIDTH;
            if !pos.can_play(col) {
                continue;
            }
            pos.play_col(col);
            // Should register as uninitialized.
            assert_eq!(tb.get(pos.key()), None);
        }
    }
}

#[test]
fn table_size_is_next_prime() {
    assert_eq!(TranspositionTable::SIZE, 16777259);
    assert_eq!(next_prime(1 << TranspositionTable::LOG_SIZE), TranspositionTable::SIZE);
    assert_eq!(next_prime(2), 2);
    assert_eq!(next_prime(8), 11);
    assert_eq!(next_prime(24), 29);
    assert_eq!(med(2, 9), 5);
    assert!(has_factor(9, 2, 9));
    assert!(!has_factor(9, 4, 9));
    assert!(!has_factor(7, 2, 7));
    assert!(has_factor(16777259 * 3, 2, 100));
    // an empty range asks for the lower end alone
    assert!(has_factor(9, 3, 3));
    assert!(!has_factor(9, 4, 4));
    assert!(!has_factor(2, 2, 2));
}

#[test]
fn colliding_keys_replace_each_other() {
    let mut tb = TranspositionTable::new();
    let k1: u64 = 123_456;
    let k2: u64 = k1 + TranspositionTable::SIZE;
    tb.put(k1, 1, 0);
    assert_eq!(tb.get(k1), Some(PosInfo::new(1, 0)));
    assert_eq!(tb.get(k2), None);
    tb.put(k2, 2, 5);
    assert_eq!(tb.get(k1), None);
    assert_eq!(tb.get(k2), Some(PosInfo::new(2, 5)));
    assert_eq!(tb.get(k2).unwrap().score(), 2);
    assert_eq!(tb.get(k2).unwrap().column(), 5);
    tb.reset();
    assert_eq!(tb.get(k1), None);
    assert_eq!(tb.get(k2), None);
}

#[test]
fn zero_key_is_not_found_in_empty_table() {
    let mut tb = TranspositionTable::new();
    assert_eq!(tb.get(0), None);
    tb.put(0, 0, 0);
    assert_eq!(tb.get(0), Some(PosInfo::zero()));
}

#[test]
fn put_checked_keeps_preferred_bound() {
    let mut tb = TranspositionTable::new();
    // nothing stored: the entry is stored
    tb.put_checked(7, 60, 1, false);
    assert_eq!(tb.get(7), Some(PosInfo::new(60, 1)));
    // a lower bound that is not above the stored one is not stored
    tb.put_checked(7, 59, 2, false);
    assert_eq!(tb.get(7), Some(PosInfo::new(60, 1)));
    tb.put_checked(7, 60, 2, false);
    assert_eq!(tb.get(7), Some(PosInfo::new(60, 1)));
    // a higher lower bound is stored
    tb.put_checked(7, 61, 3, false);
    assert_eq!(tb.get(7), Some(PosInfo::new(61, 3)));
    // an upper bound replaces a lower bound
    tb.put_checked(7, 20, 4, true);
    assert_eq!(tb.get(7), Some(PosInfo::new(20, 4)));
    // a stored upper bound stays unless the new score is below it
    tb.put_checked(7, 20, 5, true);
    assert_eq!(tb.get(7), Some(PosInfo::new(20, 4)));
    tb.put_checked(7, 25, 5, true);
    assert_eq!(tb.get(7), Some(PosInfo::new(20, 4)));
    tb.put_checked(7, 19, 6, true);
    assert_eq!(tb.get(7), Some(PosInfo::new(19, 6)));
}

#[test]
fn torn_writes_read_as_empty() {
    // Both i and SIZE + i have the same slot. If the slot ends up with the
    // key word of one store and the value word of the other, it is read as
    // if nothing was stored.
    for i in 0..1000u64 {
        let first = i;
        let second = TranspositionTable::SIZE + i;
        let (key1, value1) = TranspositionTable::slot_words(first, 1, 0);
        let (key2, value2) = TranspositionTable::slot_words(second, 2, 0);
        // whole stores
        assert_eq!(
            TranspositionTable::slot_lookup(key1, value1, first),
            Some(PosInfo::new(1, 0))
        );
        assert_eq!(TranspositionTable::slot_lookup(key1, value1, second), None);
        assert_eq!(
            TranspositionTable::slot_lookup(key2, value2, second),
            Some(PosInfo::new(2, 0))
        );
        assert_eq!(TranspositionTable::slot_lookup(key2, value2, first), None);
        // torn stores
        assert_eq!(TranspositionTable::slot_lookup(key1, value2, first), None);
        assert_eq!(TranspositionTable::slot_lookup(key1, value2, second), None);
        assert_eq!(TranspositionTable::slot_lookup(key2, value1, first), None);
        assert_eq!(TranspositionTable::slot_lookup(key2, value1, second), None);
    }
    // with equal values a torn store is a whole one
    let (key1, value1) = TranspositionTable::slot_words(5, 3, 4);
    let (_, value2) = TranspositionTable::slot_words(TranspositionTable::SIZE + 5, 3, 4);
    assert_eq!(
        TranspositionTable::slot_lookup(key1, value2, 5),
        Some(PosInfo::new(3, 4))
    );
    assert_eq!(value1, value2);
    assert_eq!(value1, 4 * 256 + 3);
    assert_eq!(key1, 5 ^ (4 * 256 + 3));
}
