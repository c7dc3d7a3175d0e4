use sudoku::utils::brute_force;
use sudoku::Board;

const PUZZLE: &str =
    "400000938032094100095300240370609004529001673604703090957008300003900400240030709";
const SOLUTION: &str =
    "461572938732894156895316247378629514529481673614753892957248361183967425246135789";

#[test]
fn brute_force_solves_a_puzzle() {
    let board = brute_force(Board::from_string(PUZZLE).unwrap());
    assert!(board.solved());
    assert_eq!(SOLUTION, board.to_string());
}

#[test]
fn brute_force_leaves_a_solved_board_as_it_is() {
    let solved = Board::from_string(SOLUTION).unwrap();
    let board = brute_force(solved.clone());
    assert!(board == solved);
    assert_eq!(SOLUTION, board.to_string());
}

#[test]
fn brute_force_fills_a_single_blank() {
    let text = format!("0{}", &SOLUTION[1..]);
    let board = brute_force(Board::from_string(&text).unwrap());
    assert_eq!(SOLUTION, board.to_string());
}

#[test]
fn brute_force_goes_back_when_a_blank_has_no_digit_left() {
    // The smallest free digit of the first blank is not the one that leads
    // to a solution.
    let text = format!("{}{}", "0".repeat(9), &SOLUTION[9..]);
    let board = brute_force(Board::from_string(&text).unwrap());
    assert_eq!(SOLUTION, board.to_string());
}

#[test]
fn brute_force_gives_up_on_a_blank_without_a_free_digit() {
    let text =
        "061572938432894156895316247378629514529481673614753892957248361183967425246135789";
    let start = Board::from_string(text).unwrap();
    let board = brute_force(start.clone());
    assert!(!board.solved());
    assert!(board == start);
    assert_eq!(text, board.to_string());
}

#[test]
fn brute_force_gives_up_with_the_first_blank_filled() {
    let text =
        "001572938732894156895316247348629514569481673614753892957248361183967425246135789";
    let board = brute_force(Board::from_string(text).unwrap());
    assert!(!board.solved());
    assert_eq!(
        "401572938732894156895316247348629514569481673614753892957248361183967425246135789",
        board.to_string()
    );
    assert_eq!(vec![1, 2, 3, 4, 5, 6, 7, 8, 9], board.cells[1].probabilities);
}

#[test]
fn brute_force_looks_at_solved_cells_only() {
    // Candidates that deduction has left in the blanks do not matter.
    let mut board = Board::from_string(PUZZLE).unwrap();
    board.remove_probabilities_from_cells(vec![1], vec![6]);
    let board = brute_force(board);
    assert_eq!(SOLUTION, board.to_string());
}

#[test]
fn brute_force_returns_a_board_without_history() {
    let mut board = Board::from_string(PUZZLE).unwrap();
    board.keep_history();
    assert!(board.try_set(1, 6));
    let board = brute_force(board);
    assert!(board.history.is_none());
    assert_eq!(SOLUTION, board.to_string());
}
