use nonogram::game_state::line_to_line_description;
use nonogram::grid::{line_to_description, CellState};
use nonogram::grid::CellState::{Crossed, Empty, Filled};

#[test]
fn game_state_test_line_to_description() {
    let line = vec![Filled, Filled, Empty, Filled, Filled, Filled];
    let result = line_to_line_description(&line);
    assert_eq!(result, vec![2, 3])
}

#[test]
fn game_state_test_line_to_description_with_crosses() {
    let line = vec![Empty, Filled, Crossed, Crossed, Filled, Filled, Filled, Empty, Crossed, Filled];
    let result = line_to_line_description(&line);
    assert_eq!(result, vec![1, 3, 1])
}

#[test]
fn grid_test_line_to_description() {
    let line = vec![Filled, Filled, Empty, Filled, Filled, Filled];
    let result = line_to_description(&line);
    assert_eq!(result, vec![2, 3])
}

#[test]
fn grid_test_line_to_description_with_crosses() {
    let line = vec![Empty, Filled, Crossed, Crossed, Filled, Filled, Filled, Empty, Crossed, Filled];
    let result = line_to_description(&line);
    assert_eq!(result, vec![1, 3, 1])
}

#[test]
fn empty_line_has_empty_description() {
    let line: Vec<CellState> = Vec::new();
    assert_eq!(line_to_description(&line), Vec::<usize>::new());
}

#[test]
fn crosses_and_empties_decompose_alike() {
    let with_empties = vec![Empty, Filled, Empty, Filled, Filled, Empty];
    let with_crosses = vec![Crossed, Filled, Crossed, Filled, Filled, Crossed];
    assert_eq!(line_to_description(&with_empties), line_to_description(&with_crosses));
    assert_eq!(line_to_description(&with_empties), vec![1, 2]);
}

#[test]
fn all_filled_is_one_run() {
    let line = vec![Filled, Filled, Filled, Filled];
    assert_eq!(line_to_description(&line), vec![4]);
}
