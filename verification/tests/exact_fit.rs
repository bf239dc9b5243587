use nonogram::description::{LineDescription, LineDescriptionPart};
use nonogram::grid::GameGridState;
use nonogram::grid::CellState::{Crossed, Empty, Filled};
use nonogram::line::RowLine;
use nonogram::nonogram_target::NonogramTarget;
use nonogram::strategy::{SimpleStrategy, SolvingStrategy};

fn clue(counts: &[usize]) -> LineDescription {
    LineDescription {
        parts: counts
            .iter()
            .map(|&elements_count| LineDescriptionPart { elements_count, is_completed: false })
            .collect(),
    }
}

#[test]
fn clue_two_one_on_length_five_makes_no_deduction() {
    let mut grid = GameGridState::new(5, 1);
    let strategy = SimpleStrategy {};
    let line = RowLine::new(0);
    let fired = strategy.process_one_line(&clue(&[2, 1]), &line, &mut grid);
    assert!(!fired);
    for c in 0..5 {
        assert_eq!(grid.get(c, 0), Empty);
    }
}

#[test]
fn clue_two_one_on_length_four_forces_the_line() {
    let mut grid = GameGridState::new(4, 1);
    let strategy = SimpleStrategy {};
    let line = RowLine::new(0);
    let fired = strategy.process_one_line(&clue(&[2, 1]), &line, &mut grid);
    assert!(fired);
    assert_eq!(grid.get(0, 0), Filled);
    assert_eq!(grid.get(1, 0), Filled);
    assert_eq!(grid.get(2, 0), Crossed);
    assert_eq!(grid.get(3, 0), Filled);
}

#[test]
fn crossed_margins_narrow_the_span() {
    // Clue [2] on [X, _, _, X]: the open span is exactly 2 wide.
    let mut grid = GameGridState::new(4, 1);
    grid.set(0, 0, Crossed);
    grid.set(3, 0, Crossed);
    let strategy = SimpleStrategy {};
    let line = RowLine::new(0);
    let fired = strategy.process_one_line(&clue(&[2]), &line, &mut grid);
    assert!(fired);
    assert_eq!(grid.get(0, 0), Crossed);
    assert_eq!(grid.get(1, 0), Filled);
    assert_eq!(grid.get(2, 0), Filled);
    assert_eq!(grid.get(3, 0), Crossed);
}

#[test]
fn fully_crossed_line_makes_no_deduction() {
    let mut grid = GameGridState::new(2, 1);
    grid.set(0, 0, Crossed);
    grid.set(1, 0, Crossed);
    let strategy = SimpleStrategy {};
    let line = RowLine::new(0);
    let fired = strategy.process_one_line(&clue(&[1]), &line, &mut grid);
    assert!(!fired);
}

#[test]
fn strategy_works_on_columns_too() {
    let mut grid = GameGridState::new(1, 3);
    let strategy = SimpleStrategy {};
    let line = nonogram::line::ColLine::new(0);
    let fired = strategy.process_one_line(&clue(&[3]), &line, &mut grid);
    assert!(fired);
    assert_eq!(grid.get(0, 0), Filled);
    assert_eq!(grid.get(0, 1), Filled);
    assert_eq!(grid.get(0, 2), Filled);
}
