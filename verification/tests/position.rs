use connect_4::position::{play_result_ok, PlayResult, Position, BOARD_MASK, BOTTOM_MASK};

#[test]
fn simple_moves() {
    let mut pos = Position::new();
    assert_eq!(pos.nb_moves(), 0);
    for col in 0..Position::WIDTH {
        assert!(pos.can_play(col));
    }
    // play a move 0-based indices
    pos.play_col(1);
    assert_eq!(pos.nb_moves(), 1);
    pos.play_col(2);
    assert_eq!(pos.nb_moves(), 2);
    pos.play_col(1);
    assert_eq!(pos.nb_moves(), 3);
    // 1-based indices
    let result = pos.play_sequence(&[3, 2, 3]);
    // current position:
    // .......
    // .......
    // .......
    // .xo....
    // .xo....
    // .xo....

    assert!(play_result_ok(result));
    assert_eq!(pos.nb_moves(), 6);
    assert!(pos.is_winning_move(1));
}

#[test]
fn find_all_moves() {
    let mut pos = Position::new();
    for row in Position::display_bitboard(pos.possible_non_losing_moves()) {
        println!("{row}");
    }
    assert_eq!(pos.possible_non_losing_moves(), BOTTOM_MASK);
    let result = pos.play_sequence(&[4, 4, 3, 3, 5]);
    assert!(play_result_ok(result));
    // Every move loses
    assert_eq!(0u64, pos.possible_non_losing_moves());
}

#[test]
fn board_constants() {
    assert_eq!(Position::WIDTH, 7);
    assert_eq!(Position::HEIGHT, 6);
    assert_eq!(Position::MIN_SCORE, -18);
    assert_eq!(Position::MAX_SCORE, 18);
    let mut bottom = 0u64;
    for c in 0..7 {
        bottom |= 1u64 << (c * 7);
    }
    assert_eq!(BOTTOM_MASK, bottom);
    assert_eq!(BOARD_MASK, bottom * 63);
    assert_eq!(Position::bottom(Position::WIDTH, Position::HEIGHT), BOTTOM_MASK);
    assert_eq!(Position::bottom(0, 6), 0);
    assert_eq!(Position::bottom(2, 3), 0b10001);
    assert_eq!(Position::column_mask(0), 63);
    assert_eq!(Position::column_mask(6), 63u64 << 42);
}

#[test]
fn play_sequence_errors() {
    let mut pos = Position::new();
    assert_eq!(pos.play_sequence(&[1, 0, 2]), PlayResult::TooSmall);
    assert_eq!(pos.nb_moves(), 1);
    let mut pos = Position::new();
    assert_eq!(pos.play_sequence(&[8]), PlayResult::TooBig(7));
    assert_eq!(pos.play_sequence(&[200]), PlayResult::TooBig(199));
    assert_eq!(pos.nb_moves(), 0);
    let mut pos = Position::new();
    assert_eq!(
        pos.play_sequence(&[1, 1, 1, 1, 1, 1, 1]),
        PlayResult::Unplayable(0)
    );
    assert_eq!(pos.nb_moves(), 6);
    assert!(!pos.can_play(0));
    let mut pos = Position::new();
    assert_eq!(
        pos.play_sequence(&[1, 2, 1, 2, 1, 2, 1]),
        PlayResult::AlreadyWinning(0)
    );
    assert_eq!(pos.nb_moves(), 6);
    assert_eq!(pos.play_sequence(&[]), PlayResult::Played);
    assert!(!play_result_ok(PlayResult::TooSmall));
    assert!(!play_result_ok(PlayResult::TooBig(9)));
    assert!(!play_result_ok(PlayResult::Unplayable(1)));
    assert!(!play_result_ok(PlayResult::AlreadyWinning(1)));
    assert!(play_result_ok(PlayResult::Played));
}

#[test]
fn keys_of_small_positions() {
    let mut pos = Position::new();
    assert_eq!(pos.key(), 0);
    assert_eq!(pos.key3(), 0);
    // game "45": 0 0 0 1 0 2 0 0 0 read from the left
    assert!(play_result_ok(pos.play_sequence(&[4, 5])));
    // after two moves the first player is to move again: its stone is in column 4
    let forward: u64 = 3u64.pow(5) + 2 * 3u64.pow(3);
    let reverse: u64 = 2 * 3u64.pow(5) + 3u64.pow(3);
    assert_eq!(pos.key3(), forward.min(reverse) / 3);
    assert_eq!(pos.key(), (1u64 << 21) + (1u64 << 21) + (1u64 << 28));
    let mut mirrored = Position::new();
    assert!(play_result_ok(mirrored.play_sequence(&[4, 3])));
    assert_eq!(mirrored.key3(), pos.key3());
    assert_eq!(mirrored.key(), pos.mirrored_key());
    assert_eq!(pos.key(), mirrored.mirrored_key());
}

#[test]
fn mirror_image_has_same_key3() {
    let moves: [u8; 12] = [1, 2, 2, 4, 7, 7, 6, 3, 3, 3, 5, 1];
    let mut pos = Position::new();
    let mut mirrored = Position::new();
    for m in moves {
        assert!(play_result_ok(pos.play_sequence(&[m])));
        assert!(play_result_ok(mirrored.play_sequence(&[8 - m])));
        assert_eq!(pos.key3(), mirrored.key3());
        assert_eq!(pos.mirrored_key(), mirrored.key());
    }
}

#[test]
fn symmetric_positions() {
    let mut pos = Position::new();
    assert!(pos.can_become_symmetric());
    pos.play_col(3);
    assert!(pos.can_become_symmetric());
    pos.play_col(2);
    assert!(!pos.can_become_symmetric());
    pos.play_col(4);
    assert!(!pos.can_become_symmetric());
    let mut pos = Position::new();
    assert!(play_result_ok(pos.play_sequence(&[1, 4, 7])));
    assert!(pos.can_become_symmetric());
}

#[test]
fn stones_left() {
    let mut pos = Position::new();
    assert_eq!(pos.num_stones_left(0), 21);
    assert_eq!(pos.num_stones_left(1), 21);
    assert_eq!(pos.num_stones_left(-1), 20);
    assert_eq!(pos.num_stones_left(-2), 20);
    pos.play_col(3);
    assert_eq!(pos.num_stones_left(0), 20);
    assert_eq!(pos.num_stones_left(1), 21);
    assert_eq!(pos.num_stones_left(-1), 20);
    assert_eq!(pos.num_stones_left(-2), 19);
    assert_eq!(pos.num_stones_left(-43), -(2 / 2));
    assert_eq!(pos.num_stones_left(-44), -1);
}

#[test]
fn move_scores() {
    let mut pos = Position::new();
    assert_eq!(pos.move_score(1 << 21), 0);
    // x on 3 and 4 of the bottom row, o above them
    assert!(play_result_ok(pos.play_sequence(&[3, 3, 4, 4])));
    // a third stone beside them makes two winning cells in the bottom row
    assert_eq!(pos.move_score(1 << 28), 2);
    assert_eq!(pos.move_score(1 << 7), 2);
    // beside a gap it makes one
    assert_eq!(pos.move_score(1), 1);
    assert_eq!(pos.move_score(1 << 42), 0);
}

#[test]
fn players() {
    let mut pos = Position::new();
    assert_eq!(pos.current_player(), ("x", "o"));
    pos.play_col(0);
    assert_eq!(pos.current_player(), ("o", "x"));
    pos.play_col(0);
    assert_eq!(pos.current_player(), ("x", "o"));
}

#[test]
fn win_detection() {
    let mut pos = Position::new();
    assert!(!pos.can_win_next());
    assert!(play_result_ok(pos.play_sequence(&[1, 2, 1, 2, 1, 2])));
    assert!(pos.can_win_next());
    assert!(pos.is_winning_move(0));
    assert!(!pos.is_winning_move(1));
    assert!(!pos.is_winning_move(3));
    // horizontal
    let mut pos = Position::new();
    assert!(play_result_ok(pos.play_sequence(&[1, 1, 2, 2, 3, 3])));
    assert!(pos.is_winning_move(3));
    assert!(!pos.is_winning_move(4));
    // diagonal
    let mut pos = Position::new();
    assert!(play_result_ok(pos.play_sequence(&[1, 2, 2, 3, 3, 4, 3, 4, 4, 6])));
    assert!(pos.is_winning_move(3));
    assert!(!pos.is_winning_move(0));
}

#[test]
fn from_string_plays_digits() {
    let pos = Position::from_string("44335").unwrap();
    assert_eq!(pos.nb_moves(), 5);
    let mut expected = Position::new();
    assert!(play_result_ok(expected.play_sequence(&[4, 4, 3, 3, 5])));
    assert_eq!(pos.key(), expected.key());
    assert_eq!(Position::from_string("").unwrap().key(), 0);
    // any other character stands for the first column
    let pos = Position::from_string("a4?").unwrap();
    let mut expected = Position::new();
    assert!(play_result_ok(expected.play_sequence(&[1, 4, 1])));
    assert_eq!(pos.key(), expected.key());
    assert!(Position::from_string("0").is_none());
    assert!(Position::from_string("8").is_none());
    assert!(Position::from_string("9").is_none());
    assert!(Position::from_string("1111111").is_none());
    assert!(Position::from_string("1212121").is_none());
}

#[test]
fn digit_string_round_trip() {
    let sequences: [&[u8]; 4] = [
        &[],
        &[4],
        &[4, 4, 5, 5],
        &[1, 2, 2, 4, 7, 7, 6, 3, 3, 3, 5, 1],
    ];
    for seq in sequences {
        let mut pos = Position::new();
        assert!(play_result_ok(pos.play_sequence(seq)));
        let digits: String = seq.iter().map(|c| char::from(b'0' + c)).collect();
        let parsed = Position::from_string(&digits).unwrap();
        assert_eq!(parsed.key(), pos.key());
        assert_eq!(parsed.nb_moves(), pos.nb_moves());
    }
}

#[test]
fn board_rows() {
    let mut pos = Position::new();
    assert_eq!(pos.display_position(), vec!["......."; 6]);
    assert!(play_result_ok(pos.play_sequence(&[4, 4, 5])));
    // three moves are played: the side to move is drawn with the second
    // symbol of `current_player`
    assert_eq!(pos.current_player(), ("o", "x"));
    assert_eq!(
        pos.display_position(),
        vec![
            ".......",
            ".......",
            ".......",
            ".......",
            "...x...",
            "...oo..",
        ]
    );
    pos.play_col(0);
    assert_eq!(
        pos.display_position(),
        vec![
            ".......",
            ".......",
            ".......",
            ".......",
            "...x...",
            "x..oo..",
        ]
    );
    assert_eq!(
        Position::display_bitboard(pos.possible_non_losing_moves()),
        vec![
            ".......",
            ".......",
            ".......",
            "...x...",
            "x...x..",
            ".xx..xx",
        ]
    );
    assert_eq!(
        Position::display_bitboard(Position::column_mask(6) | 1),
        vec![
            "......x",
            "......x",
            "......x",
            "......x",
            "......x",
            "x.....x",
        ]
    );
}
