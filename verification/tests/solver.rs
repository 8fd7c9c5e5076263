use connect_4::opening_book::OpeningBook;
use connect_4::position::{play_result_ok, Position};
use connect_4::solver::{conv_score, Searcher, Solver};

#[test]
fn column_order() {
    if Position::WIDTH == 7 {
        assert_eq!(Searcher::COLUMN_ORDER1, [3, 2, 4, 1, 5, 0, 6]);
        assert_eq!(Searcher::COLUMN_ORDER2, [3, 4, 2, 5, 1, 6, 0]);
    }
}

#[test]
fn test_scores() {
    let mut pos = Position::new();
    let _ = pos.play_sequence(&[4, 4, 5]);
    assert_eq!(Solver::score_to_moves_to_win(&pos, 2), 19);
    pos.play_col(3);
    assert_eq!(Solver::score_to_moves_to_win(&pos, -2), 18);
    pos.play_col(6);
    assert_eq!(Solver::score_to_moves_to_win(&pos, 2), 18);
    pos.play_col(6);
    assert_eq!(Solver::score_to_moves_to_win(&pos, -2), 17);
    pos = Position::new();
    let _ = pos.play_sequence(&[4, 4, 5, 5]);
    assert_eq!(Solver::score_to_moves_to_win(&pos, 18), 2);
    pos.play_col(3);
    assert_eq!(Solver::score_to_moves_to_win(&pos, -18), 1);
}

#[test]
fn forced_win_after_4455() {
    let mut solver = Solver::new(None);
    let mut pos = Position::new();
    assert!(play_result_ok(pos.play_sequence(&[4, 4, 5, 5])));
    let (score, nodes) = solver.solve(&pos, false);
    assert_eq!(score, 18);
    assert!(nodes > 0);
    assert_eq!(Solver::score_to_moves_to_win(&pos, score), 2);
    let (weak_score, _) = solver.solve(&pos, true);
    assert!(weak_score > 0);
    assert_eq!(conv_score(weak_score, true), 1);
}

#[test]
fn every_reply_loses_after_44335() {
    let mut solver = Solver::new(None);
    let mut pos = Position::new();
    assert!(play_result_ok(pos.play_sequence(&[4, 4, 3, 3, 5])));
    assert_eq!(pos.possible_non_losing_moves(), 0);
    let (score, nodes) = solver.solve(&pos, false);
    assert_eq!(score, -18);
    assert_eq!(nodes, 1);
    let (weak_score, _) = solver.solve(&pos, true);
    assert_eq!(weak_score, -1);
}

#[test]
fn immediate_win_is_not_searched() {
    let mut solver = Solver::new(None);
    let mut pos = Position::new();
    assert!(play_result_ok(pos.play_sequence(&[1, 2, 1, 2, 1, 2])));
    assert_eq!(solver.solve(&pos, false), (18, 0));
    assert_eq!(solver.solve(&pos, true), (18, 0));
}

#[test]
fn conv_score_keeps_sign_only_when_weak() {
    assert_eq!(conv_score(5, false), 5);
    assert_eq!(conv_score(-7, false), -7);
    assert_eq!(conv_score(5, true), 1);
    assert_eq!(conv_score(-7, true), -1);
    assert_eq!(conv_score(0, true), 0);
    assert_eq!(conv_score(0, false), 0);
}

#[test]
fn book_score_is_returned_unsearched() {
    let mut book = OpeningBook::new();
    let mut pos = Position::new();
    assert!(play_result_ok(pos.play_sequence(&[4, 4, 5, 5])));
    book.put(&pos, 7);
    let mut solver = Solver::new(Some(book));
    assert_eq!(solver.solve(&pos, false), (7, 0));
    assert_eq!(solver.get_book().num_entries(), 1);
    let mut mirrored = Position::new();
    assert!(play_result_ok(mirrored.play_sequence(&[4, 4, 3, 3])));
    assert_eq!(solver.solve(&mirrored, false), (7, 0));
    solver.set_book(OpeningBook::new());
    assert_eq!(solver.solve(&pos, false).0, 18);
}

fn position_of(moves: &str) -> Position {
    Position::from_string(moves).unwrap()
}

fn mirrored(moves: &str) -> String {
    moves
        .chars()
        .map(|c| char::from(b'0' + (8 - (c as u8 - b'0'))))
        .collect()
}

const KNOWN: [(&str, isize, [isize; 7]); 7] = [
    (
        "6466672615617443714123731417",
        -7,
        [-1000, -7, -7, -7, -7, -1000, -7],
    ),
    ("5357113575332732721643", 9, [-6, -6, -1000, 9, -7, 9, -7]),
    ("3271513777536636341552", 2, [-8, -8, -8, -10, -8, 2, 2]),
    (
        "125746257523327641667775",
        -2,
        [-9, -9, -9, -9, -2, -9, -1000],
    ),
    ("337514314713551622665664", 0, [-9, -9, -9, -9, -9, -9, 0]),
    ("7711315616621526474313", -2, [-1000, -9, -2, -2, -9, -9, -9]),
    ("536213656753566725657232", 4, [-6, 0, 4, -3, -1000, -1000, -3]),
];

#[test]
fn full_solve_finds_known_scores() {
    let mut solver = Solver::new(None);
    for (moves, score, _) in KNOWN {
        let pos = position_of(moves);
        assert!(!pos.can_win_next());
        assert_eq!(solver.solve(&pos, false).0, score, "{moves}");
        // the table of the first search does not change the result
        assert_eq!(solver.solve(&pos, false).0, score, "{moves}");
    }
}

#[test]
fn solve_lies_between_lowest_and_highest_score() {
    let mut solver = Solver::new(None);
    for (moves, _, _) in KNOWN {
        let pos = position_of(moves);
        let (score, _) = solver.solve(&pos, false);
        assert!(Position::MIN_SCORE <= score && score <= Position::MAX_SCORE);
    }
}

#[test]
fn weak_solve_agrees_in_sign() {
    for (moves, score, _) in KNOWN {
        let pos = position_of(moves);
        let mut solver = Solver::new(None);
        let (weak, _) = solver.solve(&pos, true);
        assert_eq!(conv_score(weak, true), conv_score(score, true), "{moves}");
        if score <= 0 {
            assert_eq!(weak, conv_score(score, true));
        } else {
            assert!(1 <= weak && weak <= score);
        }
        // and after a full search has filled the table
        let mut solver = Solver::new(None);
        let _ = solver.solve(&pos, false);
        let (weak, _) = solver.solve(&pos, true);
        assert_eq!(conv_score(weak, true), conv_score(score, true), "{moves}");
    }
}

#[test]
fn weak_solve_looks_at_no_more_positions() {
    for (moves, _, _) in KNOWN {
        let pos = position_of(moves);
        let mut solver = Solver::new(None);
        let (_, weak_nodes) = solver.solve(&pos, true);
        let mut solver = Solver::new(None);
        let (_, full_nodes) = solver.solve(&pos, false);
        assert!(weak_nodes <= full_nodes, "{moves}");
    }
    let pos = position_of("3271513777536636341552");
    let mut solver = Solver::new(None);
    let (_, weak_nodes) = solver.solve(&pos, true);
    let mut solver = Solver::new(None);
    let (_, full_nodes) = solver.solve(&pos, false);
    assert!(weak_nodes < full_nodes);
}

#[test]
fn mirror_image_has_same_score() {
    let mut solver = Solver::new(None);
    for (moves, score, _) in KNOWN {
        let pos = position_of(&mirrored(moves));
        assert_eq!(solver.solve(&pos, false).0, score, "{moves}");
    }
    let mut solver = Solver::new(None);
    for (moves, score, _) in KNOWN {
        let pos = position_of(moves);
        let mirror = position_of(&mirrored(moves));
        assert_eq!(pos.key3(), mirror.key3());
        assert_eq!(solver.solve(&mirror, false).0, score);
        assert_eq!(solver.solve(&pos, false).0, score);
    }
}

#[test]
fn analyze_scores_every_column() {
    let mut solver = Solver::new(None);
    for (moves, score, columns) in KNOWN {
        let pos = position_of(moves);
        let scores = solver.analyze(&pos, false);
        assert_eq!(scores, columns.to_vec(), "{moves}");
        assert_eq!(*scores.iter().max().unwrap(), score);
        for col in 0..Position::WIDTH {
            let found = scores[col as usize];
            if !pos.can_play(col) {
                assert_eq!(found, Searcher::INVALID_MOVE);
                assert_eq!(found, -1000);
            } else if pos.is_winning_move(col) {
                assert_eq!(found, pos.num_stones_left(1));
            } else {
                let mut child = pos;
                child.play_col(col);
                assert_eq!(found, -solver.solve(&child, false).0);
            }
        }
    }
}

#[test]
fn analyze_scores_winning_moves() {
    let mut solver = Solver::new(None);
    let pos = position_of("121212");
    let scores = solver.analyze(&pos, false);
    assert_eq!(scores[0], 18);
    assert_eq!(scores[0], pos.num_stones_left(1));
    assert_eq!(scores.len(), 7);
    // the second player has three in the second column: after a move
    // into another column it wins there
    for col in 2..7 {
        assert_eq!(scores[col], -18);
    }
    assert!(scores[1] > -18);
}

#[test]
fn analyze_of_symmetric_position_is_symmetric() {
    let mut solver = Solver::new(None);
    let pos = position_of("44444412761276");
    assert!(pos.can_become_symmetric());
    let scores = solver.analyze(&pos, false);
    assert_eq!(scores[3], -1000);
    assert_eq!(scores[0], scores[6]);
    assert_eq!(scores[1], scores[5]);
    assert_eq!(scores[2], scores[4]);
}

#[test]
fn moves_to_win_of_first_move() {
    // a win with the last stone, from the empty board, is 41 moves away
    let pos = Position::new();
    assert_eq!(Solver::score_to_moves_to_win(&pos, 1), 21);
    assert_eq!(2 * Solver::score_to_moves_to_win(&pos, 1) - 1, 41);
    assert_eq!(Solver::score_to_moves_to_win(&pos, 0), 22);
    assert_eq!(Solver::score_to_moves_to_win(&pos, -1), 21);
}

#[test]
fn column_orders_are_computed() {
    assert_eq!(Searcher::column_order1(0, [0; 7]), Searcher::COLUMN_ORDER1);
    assert_eq!(Searcher::column_order2(0, [0; 7]), Searcher::COLUMN_ORDER2);
    assert_eq!(Searcher::column_order1(5, [9; 7]), [9, 9, 9, 9, 9, 0, 6]);
    assert_eq!(Searcher::column_order2(7, [9; 7]), [9; 7]);
}

#[test]
fn generated_book_holds_scores() {
    let moves = "337514314713551622665664";
    let pos = position_of(moves);
    let mut solver = Solver::new(None);
    solver.generate_book(&pos, 25);
    let book = solver.get_book();
    assert!(book.is_valid());
    assert_eq!(book.get(&pos), Some(0));
    let mut entries = 1;
    for col in 0..Position::WIDTH {
        if pos.can_play(col) && !pos.is_winning_move(col) {
            let mut child = pos;
            child.play_col(col);
            assert!(book.get(&child).is_some());
            entries += 1;
            let mut plain = Solver::new(None);
            assert_eq!(book.get(&child), Some(plain.solve(&child, false).0));
        }
    }
    assert_eq!(book.num_entries(), entries);
    // what is in the book is not searched again
    assert_eq!(solver.solve(&pos, false), (0, 0));
    // a second run adds nothing
    solver.generate_book(&pos, 25);
    assert_eq!(solver.get_book().num_entries(), entries);
    // beyond the depth nothing is added
    let mut shallow = Solver::new(None);
    shallow.generate_book(&pos, 23);
    assert_eq!(shallow.get_book().num_entries(), 0);
}

#[test]
fn reset_of_table_keeps_results() {
    let mut solver = Solver::default();
    let pos = position_of("3271513777536636341552");
    let (score, nodes) = solver.solve(&pos, false);
    let (again, fewer) = solver.solve(&pos, false);
    assert_eq!(score, again);
    assert!(fewer <= nodes);
    solver.reset_transposition_table();
    assert_eq!(solver.solve(&pos, false), (score, nodes));
}

#[test]
fn generated_book_holds_all_positions_up_to_depth() {
    let root = position_of("337514314713551622665664");
    let mut solver = Solver::new(None);
    solver.generate_book(&root, 26);
    let mut level = vec![root];
    let mut seen = 0;
    for _ in 0..3 {
        let mut next = Vec::new();
        for pos in &level {
            let mut plain = Solver::new(None);
            assert_eq!(
                solver.get_book().get(pos),
                Some(plain.solve(pos, false).0)
            );
            seen += 1;
            for col in 0..Position::WIDTH {
                if pos.can_play(col) && !pos.is_winning_move(col) {
                    let mut child = *pos;
                    child.play_col(col);
                    next.push(child);
                }
            }
        }
        level = next;
    }
    assert!(seen > 8);
    // the positions of one more stone are not in the book
    for pos in &level {
        assert_eq!(pos.nb_moves(), 27);
        assert_eq!(solver.get_book().get(pos), None);
    }
}

#[test]
fn late_positions_with_a_holding_move_are_drawn_at_once() {
    for moves in [
        "16316757243361576322344575734522512667114",
        "7311654254274535333711737576165222612664",
        "43573123315237625545131115722774424746666",
    ] {
        let pos = position_of(moves);
        assert!(pos.nb_moves() >= 40);
        assert!(!pos.can_win_next());
        assert!(pos.possible_non_losing_moves() != 0);
        let mut solver = Solver::new(None);
        // every search of the position looks at it alone and finds a draw
        let (score, nodes) = solver.solve(&pos, false);
        assert_eq!(score, 0);
        assert!(1 <= nodes && nodes <= 2, "{nodes}");
        let (weak_score, _) = solver.solve(&pos, true);
        assert_eq!(weak_score, 0);
    }
}

#[test]
fn immediate_win_has_the_same_score_in_weak_mode() {
    let mut solver = Solver::new(None);
    for moves in ["121212", "112233", "445566"] {
        let pos = position_of(moves);
        assert!(pos.can_win_next());
        assert_eq!(solver.solve(&pos, true), (pos.num_stones_left(1), 0));
        assert_eq!(solver.solve(&pos, false), (pos.num_stones_left(1), 0));
    }
    let pos = position_of("121212");
    assert!(pos.can_win_next());
    assert_eq!(solver.solve(&pos, true).0, 18);
}
