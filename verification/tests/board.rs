use sudoku::solvers::{LastRemainingCell, SolveProbabilities};
use sudoku::{Board, BoardIndexFormulas, InvalidInput, Strategy, SubsetIndexToSubset};
use std::collections::{HashMap, HashSet};

const PUZZLE: &str =
    "400000938032094100095300240370609004529001673604703090957008300003900400240030709";
const SOLUTION: &str =
    "461572938732894156895316247378629514529481673614753892957248361183967425246135789";

#[test]
fn from_string_reads_givens_and_blanks() {
    let board = Board::from_string(PUZZLE).unwrap();
    assert_eq!(81, board.cells.len());
    assert_eq!(vec![4], board.cells[0].probabilities);
    assert_eq!(vec![1, 2, 3, 4, 5, 6, 7, 8, 9], board.cells[1].probabilities);
    for i in 0..81 {
        assert_eq!(i as u8, board.cells[i].index);
    }
    assert_eq!(4, board.get(0));
    assert_eq!(0, board.get(1));
    assert_eq!(9, board.get(80));
}

#[test]
fn from_string_rejects_short_text() {
    let text = &PUZZLE[..80];
    assert!(matches!(Board::from_string(text), Err(InvalidInput::WrongLength)));
}

#[test]
fn from_string_rejects_long_text() {
    let text = format!("{}0", PUZZLE);
    assert!(matches!(Board::from_string(&text), Err(InvalidInput::WrongLength)));
}

#[test]
fn from_string_rejects_empty_text() {
    assert!(matches!(Board::from_string(""), Err(InvalidInput::WrongLength)));
}

#[test]
fn from_string_rejects_a_letter() {
    let text = format!("{}x{}", &PUZZLE[..40], &PUZZLE[41..]);
    assert_eq!(81, text.len());
    assert!(matches!(Board::from_string(&text), Err(InvalidInput::NotADigit)));
}

#[test]
fn from_string_rejects_a_letter_in_long_text_as_wrong_length() {
    let text = format!("{}xy", PUZZLE);
    assert!(matches!(Board::from_string(&text), Err(InvalidInput::WrongLength)));
}

#[test]
fn from_string_counts_characters_not_bytes() {
    let text = format!("{}\u{e9}", &PUZZLE[..80]);
    assert_eq!(82, text.len());
    assert!(matches!(Board::from_string(&text), Err(InvalidInput::NotADigit)));
}

#[test]
fn round_trip_of_a_puzzle() {
    let board = Board::from_string(PUZZLE).unwrap();
    assert_eq!(PUZZLE, board.to_string());
}

#[test]
fn round_trip_of_a_solved_grid_and_of_an_empty_grid() {
    assert_eq!(SOLUTION, Board::from_string(SOLUTION).unwrap().to_string());
    let empty = "0".repeat(81);
    assert_eq!(empty, Board::from_string(&empty).unwrap().to_string());
}

#[test]
fn to_string_renders_unsolved_cells_as_zero() {
    let mut board = Board::from_string(PUZZLE).unwrap();
    board = LastRemainingCell::get_and_apply_strategies(board);
    assert_eq!(PUZZLE, board.to_string());
}

#[test]
fn uncertainty_counts_candidates() {
    let board = Board::from_string(PUZZLE).unwrap();
    assert_eq!(377, board.uncertainty());
    let board = LastRemainingCell::get_and_apply_strategies(board);
    assert_eq!(152, board.uncertainty());
    assert_eq!(81, Board::from_string(SOLUTION).unwrap().uncertainty());
}

#[test]
fn blanks_are_listed_in_index_order() {
    let board = Board::from_string(PUZZLE).unwrap();
    let blanks = board.blanks();
    assert_eq!(vec![1, 2, 3, 4, 5, 9, 12, 16, 17, 18], blanks[..10].to_vec());
    assert_eq!(37, blanks.len());
    assert!(Board::from_string(SOLUTION).unwrap().blanks().is_empty());
}

#[test]
fn solved_is_true_only_when_every_cell_is() {
    assert!(!Board::from_string(PUZZLE).unwrap().solved());
    assert!(Board::from_string(SOLUTION).unwrap().solved());
}

#[test]
fn try_set_refuses_a_digit_of_the_row_column_or_block() {
    let mut board = Board::from_string(PUZZLE).unwrap();
    for digit in [2u8, 3, 4, 5, 7, 8, 9] {
        assert!(!board.try_set(1, digit));
        assert_eq!(0, board.get(1));
    }
    assert_eq!(PUZZLE, board.to_string());
}

#[test]
fn try_set_places_a_free_digit() {
    let mut board = Board::from_string(PUZZLE).unwrap();
    assert!(board.try_set(1, 6));
    assert_eq!(6, board.get(1));
    assert_eq!(vec![6], board.cells[1].probabilities);
    assert_eq!(36, board.blanks().len());
    assert!(!board.try_set(2, 6));
    assert!(board.try_set(2, 1));
}

#[test]
fn try_set_refuses_the_digit_that_the_cell_already_has() {
    let mut board = Board::from_string(PUZZLE).unwrap();
    assert!(!board.try_set(0, 4));
    assert_eq!(4, board.get(0));
}

#[test]
fn apply_strategy_takes_candidates_and_passes_over_absent_ones() {
    let mut board = Board::from_string(PUZZLE).unwrap();
    let mut table: HashMap<u8, HashSet<u8>> = HashMap::new();
    table.insert(1, HashSet::from([2u8, 3, 4]));
    table.insert(0, HashSet::from([7u8]));
    board.apply_strategy(Strategy::new(String::from("hand"), table));
    assert_eq!(vec![1, 5, 6, 7, 8, 9], board.cells[1].probabilities);
    assert_eq!(vec![4], board.cells[0].probabilities);
    let mut again: HashMap<u8, HashSet<u8>> = HashMap::new();
    again.insert(1, HashSet::from([2u8, 3, 4]));
    board.apply_strategy(Strategy::new(String::from("hand"), again));
    assert_eq!(vec![1, 5, 6, 7, 8, 9], board.cells[1].probabilities);
    assert_eq!(vec![1, 2, 3, 4, 5, 6, 7, 8, 9], board.cells[2].probabilities);
}

#[test]
fn apply_strategy_passes_over_cells_that_do_not_exist() {
    let mut board = Board::from_string(PUZZLE).unwrap();
    let mut table: HashMap<u8, HashSet<u8>> = HashMap::new();
    table.insert(200, HashSet::from([1u8]));
    board.apply_strategy(Strategy::new(String::from("hand"), table));
    assert!(board == Board::from_string(PUZZLE).unwrap());
}

#[test]
fn apply_strategy_can_empty_a_cell() {
    let mut board = Board::from_string(PUZZLE).unwrap();
    let mut table: HashMap<u8, HashSet<u8>> = HashMap::new();
    table.insert(0, HashSet::from([4u8]));
    board.apply_strategy(Strategy::new(String::from("hand"), table));
    assert!(board.cells[0].probabilities.is_empty());
    assert_eq!(0, board.get(0));
    assert!(!board.cells[0].solved());
}

#[test]
fn strategy_keeps_its_name_and_table() {
    let mut table: HashMap<u8, HashSet<u8>> = HashMap::new();
    table.insert(5, HashSet::from([1u8, 2]));
    let strategy = Strategy::new(String::from("hand"), table);
    assert_eq!("hand", strategy.name());
    assert_eq!(1, strategy.removals().len());
    assert_eq!(Some(&HashSet::from([1u8, 2])), strategy.removal_for(5));
    assert_eq!(None, strategy.removal_for(6));
}

#[test]
fn remove_probabilities_from_cells_takes_the_digits_from_each_cell() {
    let mut board = Board::from_string(PUZZLE).unwrap();
    board.remove_probabilities_from_cells(vec![1, 2, 0, 1, 99], vec![1, 4, 9, 9]);
    assert_eq!(vec![2, 3, 5, 6, 7, 8], board.cells[1].probabilities);
    assert_eq!(vec![2, 3, 5, 6, 7, 8], board.cells[2].probabilities);
    assert!(board.cells[0].probabilities.is_empty());
    assert_eq!(vec![1, 2, 3, 4, 5, 6, 7, 8, 9], board.cells[3].probabilities);
}

#[test]
fn clone_and_equality() {
    let board = Board::from_string(PUZZLE).unwrap();
    let copy = board.clone();
    assert!(board == copy);
    let mut other = board.clone();
    assert!(other.try_set(1, 6));
    assert!(board != other);
    assert!(board == copy);
}

#[test]
fn unit_formulas_are_exact() {
    assert_eq!(0, SubsetIndexToSubset::row(0, 0));
    assert_eq!(80, SubsetIndexToSubset::row(8, 8));
    assert_eq!(39, SubsetIndexToSubset::row(4, 3));
    assert_eq!(31, SubsetIndexToSubset::column(4, 3));
    assert_eq!(80, SubsetIndexToSubset::column(8, 8));
    assert_eq!(41, SubsetIndexToSubset::block(4, 5));
    assert_eq!(0, SubsetIndexToSubset::block(0, 0));
    assert_eq!(60, SubsetIndexToSubset::block(8, 0));
    assert_eq!(80, SubsetIndexToSubset::block(8, 8));
    assert_eq!(26, SubsetIndexToSubset::block(2, 8));
    assert_eq!(39, BoardIndexFormulas::row(41, 3));
    assert_eq!(23, BoardIndexFormulas::column(41, 2));
    assert_eq!(30, BoardIndexFormulas::block(41, 0));
    assert_eq!(50, BoardIndexFormulas::block(41, 8));
}

#[test]
fn rows_columns_and_blocks_list_their_cells() {
    let board = Board::from_string(PUZZLE).unwrap();
    assert_eq!([0, 1, 2, 3, 4, 5, 6, 7, 8], board.row(0).indices);
    assert_eq!([9, 10, 11, 12, 13, 14, 15, 16, 17], board.row(1).indices);
    assert_eq!([1, 10, 19, 28, 37, 46, 55, 64, 73], board.column(1).indices);
    assert_eq!([30, 31, 32, 39, 40, 41, 48, 49, 50], board.block(4).indices);
    assert_eq!([60, 61, 62, 69, 70, 71, 78, 79, 80], board.block(8).indices);
    assert_eq!(board.row(4).indices, board.row_from_index(41).indices);
    assert_eq!(board.column(5).indices, board.column_from_index(41).indices);
    assert_eq!(board.block(4).indices, board.block_from_index(41).indices);
    assert_eq!(board.block(8).indices, board.block_from_index(80).indices);
    assert_eq!(board.block(0).indices, board.block_from_index(10).indices);
    let row = board.row(0);
    for p in 0..9 {
        assert!(row.cells[p] == board.cells[p]);
    }
}

#[test]
fn a_board_keeps_no_history_unless_asked() {
    let mut board = Board::from_string(PUZZLE).unwrap();
    assert!(board.history.is_none());
    assert!(board.try_set(1, 6));
    assert!(board.history.is_none());
    board.keep_history();
    assert_eq!(Some(0), board.history.as_ref().map(|taken| taken.len()));
    board.keep_history();
    assert_eq!(Some(0), board.history.as_ref().map(|taken| taken.len()));
}

#[test]
fn validated_placements_leave_snapshots_and_rollback_restores_them() {
    let mut board = Board::from_string(PUZZLE).unwrap();
    board.keep_history();
    assert!(board.try_set(1, 6));
    let first = board.to_string();
    assert!(!board.try_set(2, 6));
    assert_eq!(1, board.history.as_ref().unwrap().len());
    assert!(board.try_set(2, 1));
    let second = board.to_string();
    assert_eq!(2, board.history.as_ref().unwrap().len());
    let mut table: HashMap<u8, HashSet<u8>> = HashMap::new();
    table.insert(3, HashSet::from([1u8, 2]));
    board.apply_strategy(Strategy::new(String::from("hand"), table));
    assert_eq!(2, board.history.as_ref().unwrap().len());
    assert_eq!(vec![3, 4, 5, 6, 7, 8, 9], board.cells[3].probabilities);

    board.rollback(0);
    assert_eq!(first, board.to_string());
    assert_eq!(0, board.get(2));
    assert_eq!(vec![1, 2, 3, 4, 5, 6, 7, 8, 9], board.cells[3].probabilities);
    assert_eq!(2, board.history.as_ref().unwrap().len());
    board.rollback(1);
    assert_eq!(second, board.to_string());
    assert_eq!(1, board.get(2));
    assert_eq!(2, board.history.as_ref().unwrap().len());

    let copy = board.clone();
    assert!(copy == board);
    assert_eq!(2, copy.history.as_ref().unwrap().len());
}
