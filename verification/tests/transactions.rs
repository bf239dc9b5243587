use nonogram::grid::{CellState, GameGridState};
use nonogram::grid::CellState::{Crossed, Empty, Filled};
use nonogram::nonogram_target::NonogramTarget;
use nonogram::transaction::TransactionBuilder;

#[test]
fn diff_of_identical_grids_is_empty() {
    let grid = GameGridState::new(3, 2);
    let builder = TransactionBuilder::new(&grid);
    let transaction = builder.to_transaction(&grid);
    assert_eq!(transaction.changes.len(), 0);
}

#[test]
fn diff_carries_old_and_new_state() {
    let grid = GameGridState::new(2, 2);
    let mut builder = TransactionBuilder::new(&grid);
    builder.set(1, 0, Filled);
    let transaction = builder.to_transaction(&grid);
    assert_eq!(transaction.changes.len(), 1);
    let change = &transaction.changes[0];
    assert_eq!(change.col, 1);
    assert_eq!(change.row, 0);
    assert_eq!(change.old_state, Empty);
    assert_eq!(change.new_state, Filled);
}

#[test]
fn transaction_round_trip_restores_every_cell() {
    let mut grid = GameGridState::new(3, 3);
    grid.set(0, 0, Filled);
    grid.set(2, 1, Crossed);
    let before: Vec<Vec<CellState>> = (0..3)
        .map(|r| (0..3).map(|c| grid.get(c, r)).collect())
        .collect();
    let mut builder = TransactionBuilder::new(&grid);
    builder.set(0, 0, Empty);
    builder.set(1, 1, Filled);
    builder.set(2, 2, Crossed);
    let transaction = builder.to_transaction(&grid);
    grid.apply_transaction(&transaction);
    assert_eq!(grid.get(0, 0), Empty);
    assert_eq!(grid.get(1, 1), Filled);
    assert_eq!(grid.get(2, 2), Crossed);
    grid.rollback_transaction(&transaction);
    for r in 0..3 {
        for c in 0..3 {
            assert_eq!(grid.get(c, r), before[r][c]);
        }
    }
}

#[test]
fn builder_snapshots_the_target() {
    let mut grid = GameGridState::new(2, 1);
    grid.set(0, 0, Filled);
    let builder = TransactionBuilder::new(&grid);
    assert_eq!(builder.get(0, 0), Filled);
    assert_eq!(builder.get(1, 0), Empty);
    assert_eq!(builder.width(), 2);
    assert_eq!(builder.height(), 1);
}
