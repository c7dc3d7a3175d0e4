use sudoku::solvers::{
    BoxLineReduction, Hidden, LastRemainingCell, Naked, Pointing, SolveProbabilities,
};
use sudoku::{Board, Orientation};
use std::collections::HashSet;

const PUZZLE: &str =
    "400000938032094100095300240370609004529001673604703090957008300003900400240030709";
const SOLUTION: &str =
    "461572938732894156895316247378629514529481673614753892957248361183967425246135789";
const POINTING: &str =
    "017903600000080000900000507072010430000402070064370250701000065000030000005601720";

fn candidates(board: &Board) -> Vec<Vec<u8>> {
    board.cells.iter().map(|cell| cell.probabilities.clone()).collect()
}

fn units_are_distinct(board: &Board) -> bool {
    for unit in 0..9u8 {
        for subset in [board.row(unit), board.column(unit), board.block(unit)] {
            let mut seen: HashSet<u8> = HashSet::new();
            for cell in subset.cells.iter() {
                if cell.solved() && !seen.insert(cell.value()) {
                    return false;
                }
            }
        }
    }
    true
}

fn allows(board: &Board, solution: &str) -> bool {
    let digits: Vec<u8> = solution.bytes().map(|b| b - b'0').collect();
    (0..81).all(|i| board.cells[i].contains(&digits[i]))
}

#[test]
fn last_remaining_cell_twice_is_last_remaining_cell_once() {
    let start = Board::from_string(PUZZLE).unwrap();
    let once = LastRemainingCell::get_and_apply_strategies(start.clone());
    assert_eq!(start.blanks(), once.blanks());
    let twice = LastRemainingCell::get_and_apply_strategies(once.clone());
    assert!(once == twice);
    assert_eq!(candidates(&once), candidates(&twice));
}

#[test]
fn last_remaining_cell_takes_solved_digits_from_unsolved_cells() {
    let board = Board::from_string(PUZZLE).unwrap();
    let strategies = LastRemainingCell::logic(&board, &Orientation::Row, 0);
    assert_eq!(5, strategies.len());
    for (strategy, index) in strategies.iter().zip([1u8, 2, 3, 4, 5]) {
        assert_eq!("LastRemainingCell", strategy.name());
        assert_eq!(1, strategy.removals().len());
        assert_eq!(Some(&HashSet::from([3u8, 4, 8, 9])), strategy.removal_for(index));
    }
    let empty = Board::from_string(&"0".repeat(81)).unwrap();
    assert!(LastRemainingCell::logic(&empty, &Orientation::Block, 4).is_empty());
    let after = LastRemainingCell::get_and_apply_strategies(empty.clone());
    assert!(after == empty);
}

#[test]
fn a_pass_reads_the_board_as_it_was_given() {
    // Cell 1 is left with one candidate by the pass; a second pass, not the
    // first, takes that digit from the rest of its units.
    let text = format!("023456780{}", "0".repeat(72));
    let board = LastRemainingCell::get_and_apply_strategies(Board::from_string(&text).unwrap());
    assert_eq!(vec![1, 9], board.cells[0].probabilities);
    assert_eq!(vec![1, 9], board.cells[8].probabilities);
    let text = format!("023456789{}", "0".repeat(72));
    let once = LastRemainingCell::get_and_apply_strategies(Board::from_string(&text).unwrap());
    assert_eq!(vec![1], once.cells[0].probabilities);
    assert!(once.cells[9].contains(&1));
    let twice = LastRemainingCell::get_and_apply_strategies(once);
    assert!(!twice.cells[9].contains(&1));
    assert!(!twice.cells[72].contains(&1));
}

#[test]
fn naked_pair_clears_the_rest_of_the_unit_and_keeps_its_own_cells() {
    let board = LastRemainingCell::get_and_apply_strategies(Board::from_string(PUZZLE).unwrap());
    assert_eq!(vec![1, 6], board.cells[1].probabilities);
    assert_eq!(vec![1, 6], board.cells[2].probabilities);
    let strategies = Naked::logic(&board, &Orientation::Row, 0);
    assert_eq!(1, strategies.len());
    assert_eq!("Naked", strategies[0].name());
    let table = strategies[0].removals();
    assert_eq!(7, table.len());
    for index in [0u8, 3, 4, 5, 6, 7, 8] {
        assert_eq!(Some(&HashSet::from([1u8, 6])), table.get(&index));
    }
    assert!(table.get(&1).is_none());
    assert!(table.get(&2).is_none());
    let after = Naked::get_and_apply_strategies(board);
    assert_eq!(vec![1, 6], after.cells[1].probabilities);
    assert_eq!(vec![1, 6], after.cells[2].probabilities);
    for index in [0usize, 3, 4, 5, 6, 7, 8] {
        assert!(!after.cells[index].contains(&1));
        assert!(!after.cells[index].contains(&6));
    }
    assert_eq!(vec![2, 5], after.cells[3].probabilities);
    assert_eq!(vec![2, 5, 7], after.cells[4].probabilities);
}

#[test]
fn pointing_clears_the_line_outside_the_block_and_keeps_the_block() {
    let board = LastRemainingCell::get_and_apply_strategies(Board::from_string(POINTING).unwrap());
    assert!(board.cells[15].contains(&3));
    assert!(board.cells[17].contains(&3));
    let strategies = Pointing::logic(&board, &Orientation::Row, 2);
    assert_eq!(2, strategies.len());
    assert_eq!("Pointing", strategies[0].name());
    let table = strategies[0].removals();
    assert_eq!(5, table.len());
    for index in [9u8, 10, 11, 12, 14] {
        assert_eq!(Some(&HashSet::from([3u8])), table.get(&index));
    }
    let after = Pointing::get_and_apply_strategies(board);
    for index in [9usize, 10, 11, 12, 13, 14] {
        assert!(!after.cells[index].contains(&3));
    }
    assert!(after.cells[15].contains(&3));
    assert!(after.cells[17].contains(&3));
    assert_eq!(vec![8], after.cells[13].probabilities);
}

#[test]
fn pointing_example_of_three_cells() {
    let mut board = Board::from_string(POINTING).unwrap();
    board = LastRemainingCell::get_and_apply_strategies(board);
    board = Pointing::get_and_apply_strategies(board);
    assert!(!board.cells[9].contains(&3));
    assert!(!board.cells[10].contains(&3));
    assert!(!board.cells[11].contains(&3));
}

#[test]
fn box_line_reduction_names_its_strategies_and_skips_empty_ones() {
    let board = LastRemainingCell::get_and_apply_strategies(
        Board::from_string(
            "016007803090800000870001060048000300650009082239000650060900020080002936924600510",
        )
        .unwrap(),
    );
    let strategies = BoxLineReduction::logic(&board, &Orientation::Row, 0);
    assert!(!strategies.is_empty());
    for strategy in strategies.iter() {
        assert_eq!("BoxLineReduction", strategy.name());
        assert!(!strategy.removals().is_empty());
    }
    assert!(strategies.iter().any(|strategy| {
        strategy.removals().len() == 3
            && [13u8, 21, 22]
                .iter()
                .all(|index| strategy.removal_for(*index) == Some(&HashSet::from([2u8])))
    }));
}

#[test]
fn box_line_reduction_counts_a_solved_cell_of_the_line() {
    // Row 0 has its 5 in block 2. The blanks of the row in block 0 still
    // list 5, since nothing has been taken from them yet; that is no reason
    // to take 5 from the rest of block 0.
    let text = format!("000123456{}", "0".repeat(72));
    let board = Board::from_string(&text).unwrap();
    let strategies = BoxLineReduction::logic(&board, &Orientation::Row, 0);
    assert_eq!(3, strategies.len());
    for strategy in strategies.iter() {
        assert_eq!(6, strategy.removals().len());
        assert!(strategy.removals().values().all(|digits| !digits.contains(&5)));
    }
    assert_eq!(Some(&HashSet::from([7u8])), strategies[0].removal_for(9));
    assert_eq!(Some(&HashSet::from([9u8])), strategies[2].removal_for(20));
    let after = BoxLineReduction::get_and_apply_strategies(board);
    assert!(after.cells[9].contains(&5));
    assert!(after.cells[20].contains(&5));
    assert!(!after.cells[9].contains(&7));
    assert!(!after.cells[20].contains(&9));
}

#[test]
fn hidden_strategies_leave_only_the_hidden_digits() {
    let board = LastRemainingCell::get_and_apply_strategies(
        Board::from_string(
            "000000000904607000076804100309701080708000301051308702007502610005403208000000000",
        )
        .unwrap(),
    );
    let after = Hidden::get_and_apply_strategies(board.clone());
    assert_eq!(vec![6, 7], after.cells[7].probabilities);
    assert_eq!(vec![6, 7], after.cells[8].probabilities);
    for strategy in Hidden::get_strategies(&board).iter() {
        assert_eq!("Hidden", strategy.name());
    }
}

#[test]
fn solved_cells_stay_distinct_under_deduction() {
    let mut board = Board::from_string(PUZZLE).unwrap();
    assert!(units_are_distinct(&board));
    assert!(allows(&board, SOLUTION));
    for _ in 0..4 {
        board = LastRemainingCell::get_and_apply_strategies(board);
        assert!(units_are_distinct(&board) && allows(&board, SOLUTION));
        board = Naked::get_and_apply_strategies(board);
        assert!(units_are_distinct(&board) && allows(&board, SOLUTION));
        board = Hidden::get_and_apply_strategies(board);
        assert!(units_are_distinct(&board) && allows(&board, SOLUTION));
        board = Pointing::get_and_apply_strategies(board);
        assert!(units_are_distinct(&board) && allows(&board, SOLUTION));
        board = BoxLineReduction::get_and_apply_strategies(board);
        assert!(units_are_distinct(&board) && allows(&board, SOLUTION));
    }
    for cell in board.cells.iter() {
        assert!(!cell.probabilities.is_empty());
    }
}

#[test]
fn solved_cells_stay_distinct_under_try_set() {
    let mut board = Board::from_string(PUZZLE).unwrap();
    for index in board.blanks() {
        for digit in 1..=9u8 {
            if board.try_set(index, digit) {
                break;
            }
        }
        assert!(units_are_distinct(&board));
    }
}

#[test]
fn deduction_on_a_fresh_board_keeps_the_solution() {
    for text in [PUZZLE, POINTING] {
        let board = Board::from_string(text).unwrap();
        let solution = sudoku::utils::brute_force(board.clone()).to_string();
        assert!(allows(&Naked::get_and_apply_strategies(board.clone()), &solution));
        assert!(allows(&Hidden::get_and_apply_strategies(board.clone()), &solution));
        assert!(allows(&Pointing::get_and_apply_strategies(board.clone()), &solution));
        assert!(allows(&BoxLineReduction::get_and_apply_strategies(board.clone()), &solution));
    }
}

#[test]
fn solvers_name_the_units_they_look_at() {
    assert_eq!(3, LastRemainingCell::orientations().len());
    assert_eq!(3, Naked::orientations().len());
    assert_eq!(3, Hidden::orientations().len());
    assert_eq!(
        vec![Orientation::Row, Orientation::Column],
        Pointing::orientations()
    );
    assert_eq!(
        vec![Orientation::Row, Orientation::Column],
        BoxLineReduction::orientations()
    );
    assert_eq!("LastRemainingCell", LastRemainingCell::name());
    assert_eq!("Naked", Naked::name());
    assert_eq!("Hidden", Hidden::name());
    assert_eq!("Pointing", Pointing::name());
    assert_eq!("BoxLineReduction", BoxLineReduction::name());
}

#[test]
fn applying_strategies_does_not_depend_on_their_order() {
    let board = LastRemainingCell::get_and_apply_strategies(Board::from_string(PUZZLE).unwrap());
    let forward = Naked::get_strategies(&board);
    let mut backward = Naked::get_strategies(&board);
    backward.reverse();
    let a = Naked::apply_strategies(board.clone(), forward);
    let b = Naked::apply_strategies(board.clone(), backward);
    assert!(a == b);
    assert!(a == Naked::get_and_apply_strategies(board));
}

#[test]
fn create_subset_follows_the_orientation() {
    let board = Board::from_string(PUZZLE).unwrap();
    assert_eq!(
        board.row(3).indices,
        Naked::create_subset(&board, &Orientation::Row, 3).indices
    );
    assert_eq!(
        board.column(3).indices,
        Naked::create_subset(&board, &Orientation::Column, 3).indices
    );
    assert_eq!(
        board.block(3).indices,
        Naked::create_subset(&board, &Orientation::Block, 3).indices
    );
}

#[test]
fn pointing_leaves_a_solved_cell_of_the_line_alone() {
    // Block 0 can take its 5 in row 0 only. The 5 at the end of that row is
    // solved and stays; the unsolved cells of the row outside the block lose
    // their 5.
    let text = format!("000000005123000000467000000{}", "0".repeat(54));
    let board = Pointing::get_and_apply_strategies(Board::from_string(&text).unwrap());
    assert_eq!(vec![5], board.cells[8].probabilities);
    for index in 3..8 {
        assert!(!board.cells[index].contains(&5));
    }
    for index in 0..3 {
        assert!(board.cells[index].contains(&5));
    }
}
