use sudoku::{Cell, InvalidInput};
use std::collections::HashSet;

#[test]
fn a_blank_holds_every_digit() {
    let cell = Cell::from_number(7, 0).unwrap();
    assert_eq!(7, cell.index);
    assert_eq!(vec![1, 2, 3, 4, 5, 6, 7, 8, 9], cell.probabilities);
    assert!(!cell.solved());
    assert_eq!(0, cell.value());
}

#[test]
fn a_digit_is_the_only_candidate() {
    for digit in 1..=9u8 {
        let cell = Cell::from_number(80, digit).unwrap();
        assert_eq!(80, cell.index);
        assert_eq!(vec![digit], cell.probabilities);
        assert!(cell.solved());
        assert_eq!(digit, cell.value());
    }
}

#[test]
fn a_number_above_nine_is_turned_down() {
    assert!(matches!(Cell::from_number(0, 10), Err(InvalidInput::NotADigit)));
    assert!(matches!(Cell::from_number(0, 255), Err(InvalidInput::NotADigit)));
}

#[test]
fn contains_looks_at_the_candidates() {
    let cell = Cell::from_number(3, 5).unwrap();
    assert!(cell.contains(&5));
    assert!(!cell.contains(&4));
    assert!(!cell.contains(&0));
    let blank = Cell::from_number(3, 0).unwrap();
    assert!(blank.contains(&1));
    assert!(blank.contains(&9));
    assert!(!blank.contains(&0));
    assert!(!blank.contains(&10));
}

#[test]
fn set_forces_one_candidate() {
    let mut cell = Cell::from_number(3, 0).unwrap();
    cell.set(&6);
    assert_eq!(vec![6], cell.probabilities);
    assert_eq!(3, cell.index);
    assert_eq!(6, cell.value());
    cell.set(&2);
    assert_eq!(vec![2], cell.probabilities);
}

#[test]
fn remove_takes_one_candidate_and_passes_over_an_absent_one() {
    let mut cell = Cell::from_number(3, 0).unwrap();
    cell.remove(5);
    assert_eq!(vec![1, 2, 3, 4, 6, 7, 8, 9], cell.probabilities);
    cell.remove(5);
    assert_eq!(vec![1, 2, 3, 4, 6, 7, 8, 9], cell.probabilities);
    cell.remove(12);
    assert_eq!(vec![1, 2, 3, 4, 6, 7, 8, 9], cell.probabilities);
    for digit in [1u8, 2, 3, 4, 6, 7, 8] {
        cell.remove(digit);
    }
    assert!(cell.solved());
    assert_eq!(9, cell.value());
    cell.remove(9);
    assert!(cell.probabilities.is_empty());
    assert!(!cell.solved());
    assert_eq!(0, cell.value());
}

#[test]
fn remove_all_takes_a_set_of_candidates() {
    let mut cell = Cell::from_number(3, 0).unwrap();
    cell.remove_all(&HashSet::from([2u8, 4, 6, 8, 10]));
    assert_eq!(vec![1, 3, 5, 7, 9], cell.probabilities);
}

#[test]
fn as_set_has_the_candidates() {
    let mut cell = Cell::from_number(3, 0).unwrap();
    cell.remove(1);
    assert_eq!(HashSet::from([2u8, 3, 4, 5, 6, 7, 8, 9]), cell.as_set());
}

#[test]
fn row_column_and_block_of_a_cell() {
    let at = |index: usize| Cell::from_number(index, 0).unwrap();
    assert_eq!((0, 0, 0), (at(0).row(), at(0).column(), at(0).block()));
    assert_eq!((0, 8, 2), (at(8).row(), at(8).column(), at(8).block()));
    assert_eq!((1, 1, 0), (at(10).row(), at(10).column(), at(10).block()));
    assert_eq!((2, 0, 0), (at(18).row(), at(18).column(), at(18).block()));
    assert_eq!((4, 5, 4), (at(41).row(), at(41).column(), at(41).block()));
    assert_eq!((6, 6, 8), (at(60).row(), at(60).column(), at(60).block()));
    assert_eq!((8, 8, 8), (at(80).row(), at(80).column(), at(80).block()));
}

#[test]
fn cells_are_equal_by_place_and_candidates() {
    let a = Cell::from_number(3, 0).unwrap();
    let mut b = a.clone();
    assert!(a == b);
    b.remove(4);
    assert!(a != b);
    assert!(Cell::from_number(3, 5).unwrap() != Cell::from_number(4, 5).unwrap());
    assert!(Cell::from_number(3, 5).unwrap() == Cell::from_number(3, 5).unwrap());
}
