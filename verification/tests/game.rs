use nonogram::description::{LevelDescription, LevelDescriptionTemplate};
use nonogram::game_state::{update_nonogram, GameState};
use nonogram::grid::CellState;
use nonogram::grid::CellState::{Crossed, Empty, Filled};
use nonogram::nonogram_target::NonogramTarget;
use nonogram::transaction::TransactionBuilder;

fn level(rows: &[&[usize]], cols: &[&[usize]]) -> LevelDescription {
    let template = LevelDescriptionTemplate {
        rows: rows.iter().map(|r| r.to_vec()).collect(),
        cols: cols.iter().map(|c| c.to_vec()).collect(),
    };
    assert!(template.is_well_formed());
    template.to_level_description()
}

#[test]
fn new_game_is_all_empty_and_not_done() {
    let game = GameState::new(level(&[&[1], &[1]], &[&[1], &[1]]));
    assert_eq!(game.width(), 2);
    assert_eq!(game.height(), 2);
    for r in 0..2 {
        for c in 0..2 {
            assert_eq!(game.get(c, r), CellState::Empty);
        }
    }
    assert!(!game.lvl_desc().is_done());
    assert_eq!(game.history_len(), 0);
}

#[test]
fn completing_every_line_reports_done() {
    // 2 x 2 picture: a diagonal.
    let mut game = GameState::new(level(&[&[1], &[1]], &[&[1], &[1]]));
    game.set(0, 0, Filled);
    game.set(1, 1, Filled);
    assert_eq!(game.get(0, 0), Filled);
    assert_eq!(game.get(1, 1), Filled);
    // The propagation rule auto-crossed the remaining cells.
    assert_eq!(game.get(1, 0), Crossed);
    assert_eq!(game.get(0, 1), Crossed);
    assert!(game.lvl_desc().is_done());
}

#[test]
fn propagation_is_idempotent_on_a_matching_line() {
    let lvl = level(&[&[1], &[1]], &[&[1], &[1]]);
    let mut game = GameState::new(lvl);
    game.set(0, 0, Filled);
    // Row 0 and column 0 both match now; re-running the propagation pass
    // against the live grid stages no further change.
    let mut builder = TransactionBuilder::new(game.grid());
    update_nonogram(&mut builder, game.lvl_desc(), 0, 0);
    let transaction = builder.to_transaction(game.grid());
    assert_eq!(transaction.changes.len(), 0);
}

#[test]
fn setting_a_cell_to_its_current_state_records_nothing() {
    let mut game = GameState::new(level(&[&[1]], &[&[1]]));
    game.set(0, 0, Empty);
    assert_eq!(game.history_len(), 0);
    assert_eq!(game.get(0, 0), Empty);
}

#[test]
fn one_edit_can_record_two_transactions() {
    // Filling the single cell also triggers the propagation pass, but on a
    // 1 x 1 grid there is nothing left to cross, so only the edit itself
    // is recorded; on a wider grid the auto-crosses form a second entry.
    let mut game = GameState::new(level(&[&[1]], &[&[1]]));
    game.set(0, 0, Filled);
    assert_eq!(game.history_len(), 1);

    let mut wide = GameState::new(level(&[&[1]], &[&[1], &[1]]));
    wide.set(0, 0, Filled);
    // Row clue [1] matches, so cell (1,0) was auto-crossed: two entries.
    assert_eq!(wide.get(1, 0), Crossed);
    assert_eq!(wide.history_len(), 2);
}

#[test]
fn undo_reverts_the_most_recent_transaction() {
    let mut game = GameState::new(level(&[&[1]], &[&[1], &[1]]));
    game.set(0, 0, Filled);
    assert_eq!(game.get(0, 0), Filled);
    assert_eq!(game.get(1, 0), Crossed);
    // The propagation transaction is undone first...
    game.undo();
    assert_eq!(game.get(0, 0), Filled);
    assert_eq!(game.get(1, 0), Empty);
    // ...then the edit itself.
    game.undo();
    assert_eq!(game.get(0, 0), Empty);
    assert_eq!(game.history_len(), 0);
    assert!(!game.lvl_desc().is_done());
}

#[test]
fn undo_on_empty_history_is_a_no_op() {
    let mut game = GameState::new(level(&[&[1]], &[&[1]]));
    game.undo();
    assert_eq!(game.history_len(), 0);
    assert_eq!(game.get(0, 0), CellState::Empty);
}

#[test]
fn crossing_a_cell_skips_propagation() {
    let mut game = GameState::new(level(&[&[1]], &[&[1], &[1]]));
    game.set(1, 0, Crossed);
    // The direct write is recorded, but no completion pass ran.
    assert_eq!(game.history_len(), 1);
    assert_eq!(game.get(1, 0), Crossed);
    assert!(!game.lvl_desc().is_done());
}

#[test]
fn grid_to_iter_is_row_major() {
    let mut game = GameState::new(level(&[&[1], &[1]], &[&[1], &[1]]));
    game.set(1, 0, Crossed);
    let cells = game.grid_to_iter();
    assert_eq!(cells.len(), 4);
    assert_eq!(cells[0], (0, 0, Empty));
    assert_eq!(cells[1], (1, 0, Crossed));
    assert_eq!(cells[2], (0, 1, Empty));
    assert_eq!(cells[3], (1, 1, Empty));
}

#[test]
fn clue_snapshots_report_run_lengths() {
    let game = GameState::new(level(&[&[2], &[1, 1]], &[&[1, 1], &[2]]));
    assert_eq!(game.lvl_desc().row_to_line_description(0), vec![2]);
    assert_eq!(game.lvl_desc().row_to_line_description(1), vec![1, 1]);
    assert_eq!(game.lvl_desc().col_to_line_description(0), vec![1, 1]);
    assert_eq!(game.lvl_desc().col_to_line_description(1), vec![2]);
}

#[test]
fn malformed_templates_are_rejected() {
    let zero_run = LevelDescriptionTemplate { rows: vec![vec![0]], cols: vec![vec![1]] };
    assert!(!zero_run.is_well_formed());
    let empty_line = LevelDescriptionTemplate { rows: vec![vec![]], cols: vec![vec![1]] };
    assert!(!empty_line.is_well_formed());
    let fine = LevelDescriptionTemplate { rows: vec![vec![2], vec![1, 1]], cols: vec![vec![1, 1], vec![2]] };
    assert!(fine.is_well_formed());
}

#[test]
fn template_conversion_copies_counts_and_clears_flags() {
    let template = LevelDescriptionTemplate { rows: vec![vec![2], vec![1, 1]], cols: vec![vec![1, 1], vec![2]] };
    let lvl = template.to_level_description();
    assert_eq!(lvl.rows.len(), 2);
    assert_eq!(lvl.cols.len(), 2);
    assert_eq!(lvl.rows[1].parts.len(), 2);
    assert_eq!(lvl.rows[1].parts[0].elements_count, 1);
    assert!(!lvl.rows[1].parts[0].is_completed);
    assert!(lvl.rows[1].has_incomplete());
}
