use connect_4::opening_book::{BookEntry, OpeningBook, ParseBookEntryError};
use connect_4::position::{Column, Position};

#[test]
fn adding_book_entries() {
    let mut book = OpeningBook::new();
    let mut pos = Position::new();
    assert_eq!(book.get(&pos), None);
    for j in 0..20 {
        pos.play_col(j * 5 % Position::WIDTH);
        assert_eq!(book.get(&pos), None);
        for i in 0..Position::WIDTH {
            let bmove = pos.possible_non_losing_moves() & Position::column_mask(i);
            let score = pos.move_score(bmove) as Column;
            // Just for testing we put in dummy score and best move.
            book.put(&pos, score.into());
            assert_eq!(book.get(&pos), Some(isize::from(score)));
        }
    }
    assert!(book.is_valid());
}

#[test]
fn adding_book_entries_at_once() {
    let mut pos = Position::new();
    let mut entries = Vec::new();
    for j in 0..20 {
        pos.play_col(j * 5 % Position::WIDTH);
        // Opening book can only store one entry per position, so only one of these will get added.
        for i in 0..Position::WIDTH {
            let bmove = pos.possible_non_losing_moves() & Position::column_mask(i);
            let score = pos.move_score(bmove) as Column;
            // Just for testing we put in dummy score and best move.
            entries.push(BookEntry::new(pos.key3(), score.into()));
        }
    }
    let book = OpeningBook::from(entries);
    assert!(book.is_valid());
    assert_eq!(book.num_entries(), 20);
}

#[test]
fn book_moves() {
    let mut pos = Position::new();
    let mut book = OpeningBook::new();
    book.put(&pos, 0);
    let mut moves = book.book_moves_from_position(pos.clone());
    // No book moves in starting position.
    assert_eq!(moves.next(), None);
    // Add 2 moves in the book.
    pos.play_col(0);
    book.put(&pos, 0);
    pos = Position::new();
    pos.play_col(2);
    book.put(&pos, 0);
    pos = Position::new();
    // Look at moves from the starting position
    let mut moves = book.book_moves_from_position(pos);
    assert_eq!(moves.next(), Some(0));
    assert_eq!(moves.next(), Some(2));
    // Key is symmetric!
    assert_eq!(moves.next(), Some(4));
    assert_eq!(moves.next(), Some(6));
    assert_eq!(moves.next(), None);
}

#[test]
fn book_from_unsorted_entries_keeps_last_of_each_key() {
    let entries = vec![
        BookEntry::new(30, 1),
        BookEntry::new(10, 2),
        BookEntry::new(20, 3),
        BookEntry::new(10, 4),
        BookEntry::new(30, 5),
    ];
    let book = OpeningBook::from(entries);
    assert!(book.is_valid());
    assert_eq!(book.num_entries(), 3);
    assert_eq!(book.get_by_key(10), Some(4));
    assert_eq!(book.get_by_key(20), Some(3));
    assert_eq!(book.get_by_key(30), Some(5));
    assert_eq!(book.get_by_key(15), None);
}

#[test]
fn book_from_sorted_entries_is_kept() {
    let entries = vec![BookEntry::new(1, -3), BookEntry::new(5, 0), BookEntry::new(9, 18)];
    let book = OpeningBook::from(entries);
    assert_eq!(book.num_entries(), 3);
    assert_eq!(book.get_by_key(1), Some(-3));
    assert_eq!(book.get_by_key(5), Some(0));
    assert_eq!(book.get_by_key(9), Some(18));
    assert_eq!(book.get_by_key(0), None);
    assert_eq!(book.get_by_key(10), None);
}

#[test]
fn put_by_key_overwrites() {
    let mut book = OpeningBook::new();
    book.put_by_key(7, 1);
    book.put_by_key(3, 2);
    book.put_by_key(7, 3);
    assert_eq!(book.num_entries(), 2);
    assert_eq!(book.get_by_key(7), Some(3));
    assert_eq!(book.get_by_key(3), Some(2));
    assert!(book.is_valid());
}

#[test]
fn deep_positions_are_not_in_the_book() {
    let mut pos = Position::new();
    let mut played = 0;
    // fill the columns pairwise so that nobody gets four in a row
    let order: [u8; 42] = [
        1, 2, 1, 2, 1, 2, 2, 1, 2, 1, 2, 1, 3, 4, 3, 4, 3, 4, 4, 3, 4, 3, 4, 3, 5, 6, 5, 6, 5, 6,
        6, 5, 6, 5, 6, 5, 7, 7, 7, 7, 7, 7,
    ];
    let book = OpeningBook::new();
    for m in order {
        if played == 36 {
            break;
        }
        pos.play_col(m - 1);
        played += 1;
        assert_eq!(book.get(&pos), None);
    }
    assert_eq!(pos.nb_moves(), 36);
}

fn parse_with_std(line: &str) -> Result<(u64, isize), ParseBookEntryError> {
    let v: Vec<&str> = line.split(' ').collect();
    if v.len() != 2 {
        return Err(ParseBookEntryError::WrongFieldCount);
    }
    let pos = match v[0].parse::<u64>() {
        Ok(p) => p,
        Err(_) => return Err(ParseBookEntryError::BadPositionKey),
    };
    let score = match v[1].parse::<isize>() {
        Ok(s) => s,
        Err(_) => return Err(ParseBookEntryError::BadScore),
    };
    Ok((pos, score))
}

#[test]
fn book_lines_are_read_as_numbers_are() {
    let lines = [
        "",
        " ",
        "  ",
        "1",
        "1 2",
        "1 2 3",
        "1  2",
        " 1",
        "1 ",
        "0 0",
        "+5 -3",
        "+5 +3",
        "-5 3",
        "5 --3",
        "5 -+3",
        "5 +-3",
        "++5 3",
        "+ 3",
        "5 +",
        "5 -",
        "007 +0002",
        "12a 3",
        "12 3a",
        "1\t2",
        "18446744073709551615 9223372036854775807",
        "18446744073709551616 0",
        "18446744073709551615 9223372036854775808",
        "18446744073709551615 -9223372036854775808",
        "18446744073709551615 -9223372036854775809",
        "000000000000000000000000018446744073709551615 -0",
        "99999999999999999999999 1",
        "1 99999999999999999999999",
        "1 -99999999999999999999999",
        "é 1",
        "1 é",
        "1٣ 1",
        "4294967296 -18",
        "123456789 18\n",
    ];
    for line in lines {
        let expected = parse_with_std(line);
        match BookEntry::from_string(line) {
            Ok(entry) => assert_eq!(Ok((entry.pos(), entry.score())), expected, "{line:?}"),
            Err(e) => assert_eq!(Err(e), expected, "{line:?}"),
        }
    }
}

#[test]
fn book_entry_errors() {
    assert_eq!(
        BookEntry::from_string("12").unwrap_err(),
        ParseBookEntryError::WrongFieldCount
    );
    assert_eq!(
        BookEntry::from_string("1 2 3").unwrap_err(),
        ParseBookEntryError::WrongFieldCount
    );
    assert_eq!(
        BookEntry::from_string("x 2").unwrap_err(),
        ParseBookEntryError::BadPositionKey
    );
    assert_eq!(
        BookEntry::from_string("1 y").unwrap_err(),
        ParseBookEntryError::BadScore
    );
    assert_eq!(
        ParseBookEntryError::WrongFieldCount.to_string(),
        "Expected 2 values in the entry"
    );
    assert_eq!(
        ParseBookEntryError::BadPositionKey.to_string(),
        "Could not parse first value into a valid position"
    );
    assert_eq!(
        ParseBookEntryError::BadScore.to_string(),
        "Could not parse second value into a valid score"
    );
    let entry = BookEntry::from_string("42 -7").unwrap();
    assert_eq!(entry.pos(), 42);
    assert_eq!(entry.score(), -7);
}

#[test]
fn book_entry_lines() {
    assert_eq!(BookEntry::new(0, 0).to_line(), "0 0");
    assert_eq!(BookEntry::new(42, -7).to_line(), "42 -7");
    assert_eq!(BookEntry::new(1000, 18).to_line(), "1000 18");
    assert_eq!(
        BookEntry::new(u64::MAX, isize::MIN).to_line(),
        format!("{} {}", u64::MAX, isize::MIN)
    );
    assert_eq!(
        BookEntry::new(u64::MAX, isize::MAX).to_line(),
        format!("{} {}", u64::MAX, isize::MAX)
    );
    for (pos, score) in [
        (0u64, 0isize),
        (9, -1),
        (10, 1),
        (99, -10),
        (100, 100),
        (12345678901234567890, -1234567890),
        (u64::MAX, isize::MIN),
        (u64::MAX, isize::MAX),
    ] {
        let line = BookEntry::new(pos, score).to_line();
        let entry = BookEntry::from_string(&line).unwrap();
        assert_eq!((entry.pos(), entry.score()), (pos, score));
    }
}

#[test]
fn store_load_book() {
    let mut pos = Position::new();
    let mut book = OpeningBook::new();
    book.put(&pos, 0);
    let mut moves = book.book_moves_from_position(pos.clone());
    // No book moves in starting position.
    assert_eq!(moves.next(), None);
    // Add 2 moves in the book.
    pos.play_col(0);
    println!("Played col 0");
    for row in pos.display_position() {
        println!("{row}");
    }
    book.put(&pos, 0);
    pos = Position::new();
    pos.play_col(2);
    println!("Played col 2");
    for row in pos.display_position() {
        println!("{row}");
    }
    book.put(&pos, 0);
    pos = Position::new();
    pos.play_col(3);
    println!("Played col 3");
    for row in pos.display_position() {
        println!("{row}");
    }
    book.put(&pos, 0);

    // the text of the book, line by line, and the book read from it
    let mut text = String::new();
    for line in book.to_lines() {
        text.push_str(&line);
        text.push('\n');
    }
    let mut entries = Vec::new();
    for line in text.lines() {
        entries.push(BookEntry::from_string(line).unwrap());
    }
    let book = OpeningBook::from(entries);

    pos = Position::new();
    // Look at moves from the starting position
    let mut moves = book.book_moves_from_position(pos);
    assert_eq!(moves.next(), Some(0));
    assert_eq!(moves.next(), Some(2));
    assert_eq!(moves.next(), Some(3));
    // Key is symmetric!
    assert_eq!(moves.next(), Some(4));
    assert_eq!(moves.next(), Some(6));
    assert_eq!(moves.next(), None);
}

#[test]
fn stored_book_is_loaded_as_it_was() {
    let mut pos = Position::new();
    let mut book = OpeningBook::new();
    book.put(&pos, 0);
    pos.play_col(0);
    book.put(&pos, -2);
    pos = Position::new();
    pos.play_col(2);
    book.put(&pos, 1);
    pos = Position::new();
    pos.play_col(3);
    book.put(&pos, 18);

    let lines = book.to_lines();
    assert_eq!(lines.len(), 4);
    let mut entries = Vec::new();
    for line in &lines {
        entries.push(BookEntry::from_string(line).unwrap());
    }
    let loaded = OpeningBook::from(entries);
    assert_eq!(loaded.num_entries(), book.num_entries());
    let before = book.entries();
    let after = loaded.entries();
    for i in 0..before.len() {
        assert_eq!(before[i].pos(), after[i].pos());
        assert_eq!(before[i].score(), after[i].score());
    }
    pos = Position::new();
    assert_eq!(loaded.get(&pos), Some(0));
    pos.play_col(6);
    assert_eq!(loaded.get(&pos), Some(-2));
    pos = Position::new();
    pos.play_col(4);
    assert_eq!(loaded.get(&pos), Some(1));
    pos = Position::new();
    pos.play_col(3);
    assert_eq!(loaded.get(&pos), Some(18));
}
