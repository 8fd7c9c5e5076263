//! A solver for Connect Four on the board of seven columns and six rows.
//!
//! A position is held as two bitboards (`bitboard`, `position`) and spoken
//! of in contracts through its model (`board`). `game` defines the score of
//! a position under best play; `solver` finds it by a search that is proved
//! to return that score, with the help of a table of bounds found before
//! (`transposition_table`, `search`) and of a book of known scores
//! (`opening_book`, `book`, `book_text`). `alignment` says cell by cell
//! what four in a row is, and `canonical_key` that the key of the book
//! tells positions apart up to their mirror image.

pub mod alignment;
pub mod bitboard;
pub mod board;
pub mod book;
pub mod book_text;
pub mod canonical_key;
pub mod game;
pub mod move_sorter;
pub mod opening_book;
pub mod position;
pub mod search;
pub mod solver;
pub mod transposition_table;
