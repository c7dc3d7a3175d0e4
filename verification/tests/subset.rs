use sudoku::solvers::{LastRemainingCell, SolveProbabilities};
use sudoku::Board;
use std::collections::HashSet;

const PUZZLE: &str =
    "400000938032094100095300240370609004529001673604703090957008300003900400240030709";
const SOLUTION: &str =
    "461572938732894156895316247378629514529481673614753892957248361183967425246135789";

#[test]
fn subset_contains_looks_at_solved_cells_only() {
    let board = Board::from_string(PUZZLE).unwrap();
    let row = board.row(0);
    for digit in [3u8, 4, 8, 9] {
        assert!(row.contains(&digit));
    }
    for digit in [0u8, 1, 2, 5, 6, 7, 10] {
        assert!(!row.contains(&digit));
    }
}

#[test]
fn subset_values_solved_and_missing() {
    let board = Board::from_string(PUZZLE).unwrap();
    assert_eq!(HashSet::from([3u8, 4, 8, 9]), board.row(0).values_solved());
    assert_eq!(HashSet::from([1u8, 2, 5, 6, 7]), board.row(0).values_missing());
    assert_eq!(HashSet::from([2u8, 3, 4, 5, 6, 9]), board.column(0).values_solved());
    assert_eq!(HashSet::from([1u8, 7, 8]), board.column(0).values_missing());
    let solved = Board::from_string(SOLUTION).unwrap();
    assert_eq!(HashSet::from([1u8, 2, 3, 4, 5, 6, 7, 8, 9]), solved.block(4).values_solved());
    assert!(solved.block(4).values_missing().is_empty());
}

#[test]
fn subset_missing_lists_unsolved_cells_in_order() {
    let board = LastRemainingCell::get_and_apply_strategies(Board::from_string(PUZZLE).unwrap());
    let row = board.row(0);
    assert_eq!(vec![1, 2, 3, 4, 5], row.indices_missing());
    let missing = row.missing();
    assert_eq!(5, missing.len());
    assert_eq!(1, missing[0].index);
    assert_eq!(vec![1, 6], missing[0].probabilities);
    assert_eq!(3, missing[2].index);
    assert_eq!(vec![1, 2, 5], missing[2].probabilities);
    assert_eq!(vec![2, 5, 6, 7], missing[4].probabilities);
    assert_eq!(vec![1, 46, 64], board.column(1).indices_missing());
}

#[test]
fn subset_is_solved() {
    let board = Board::from_string(PUZZLE).unwrap();
    assert!(!board.row(0).is_solved());
    assert!(!board.block(8).is_solved());
    let solved = Board::from_string(SOLUTION).unwrap();
    for unit in 0..9 {
        assert!(solved.row(unit).is_solved());
        assert!(solved.column(unit).is_solved());
        assert!(solved.block(unit).is_solved());
        assert!(solved.row(unit).missing().is_empty());
    }
}

#[test]
fn subset_union_lists_each_solved_digit_once() {
    let board = Board::from_string(PUZZLE).unwrap();
    let row = board.row(0);
    let column = board.column(0);
    assert_eq!(vec![4, 9, 3, 8, 5, 6, 2], row.union(&column));
    assert_eq!(vec![4, 3, 5, 6, 9, 2, 8], column.union(&row));
    assert_eq!(vec![4, 9, 3, 8], row.union(&row));
}
