use connect_4::move_sorter::MoveSorter;
use connect_4::opening_book::OpeningBook;
use connect_4::solver::{LocalContext, Searcher, Solver};
use connect_4::transposition_table::TranspositionTable;

#[test]
fn node_counter_counts() {
    let mut context = LocalContext::new();
    assert_eq!(context.nodes(), 0);
    context.increment_nodes();
    context.increment_nodes();
    assert_eq!(context.nodes(), 2);
    context.reset_nodes();
    assert_eq!(context.nodes(), 0);
}

#[test]
fn defaults_are_empty() {
    let mut sorter = MoveSorter::default();
    assert_eq!(sorter.next(), None);
    assert_eq!(OpeningBook::default().num_entries(), 0);
    assert_eq!(TranspositionTable::default().get(5), None);
    let _ = Solver::default();
    let _ = Searcher::new();
}
