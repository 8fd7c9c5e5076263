use connect_4::move_sorter::MoveSorter;
use connect_4::position::{Bitboard, Position};

#[test]
fn correct_insertion_sort() {
    let mut ms = MoveSorter::new();
    for i in 0..Position::WIDTH {
        ms.add(u64::from(i), i, Position::WIDTH - i + 4);
    }
    let mut i = 0;
    while let Some((bmove, _)) = ms.next() {
        assert_eq!(bmove, i as Bitboard);
        i += 1;
    }
    assert_eq!(i, 7);
}

#[test]
fn sorter_hands_out_best_score_first() {
    let mut ms = MoveSorter::new();
    ms.add(1, 0, 5);
    ms.add(2, 1, 9);
    ms.add(4, 2, 1);
    ms.add(8, 3, 7);
    assert_eq!(ms.next(), Some((2, 1)));
    assert_eq!(ms.next(), Some((8, 3)));
    assert_eq!(ms.next(), Some((1, 0)));
    assert_eq!(ms.next(), Some((4, 2)));
    assert_eq!(ms.next(), None);
    assert_eq!(ms.next(), None);
}

#[test]
fn sorter_hands_out_later_of_equal_scores_first() {
    let mut ms = MoveSorter::new();
    ms.add(1, 0, 3);
    ms.add(2, 1, 3);
    ms.add(4, 2, 2);
    ms.add(8, 3, 3);
    assert_eq!(ms.next(), Some((8, 3)));
    assert_eq!(ms.next(), Some((2, 1)));
    assert_eq!(ms.next(), Some((1, 0)));
    assert_eq!(ms.next(), Some((4, 2)));
    assert_eq!(ms.next(), None);
}

#[test]
fn sorter_reset_empties() {
    let mut ms = MoveSorter::new();
    ms.add(1, 0, 3);
    ms.add(2, 1, 4);
    ms.reset();
    assert_eq!(ms.next(), None);
    ms.add(16, 4, 1);
    assert_eq!(ms.next(), Some((16, 4)));
}
