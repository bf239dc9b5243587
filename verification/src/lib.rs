//! A nonogram (picture-logic) puzzle state engine.
//!
//! The engine models a rectangular grid of three-valued cells constrained by
//! per-row and per-column clues (ordered run lengths). Mutation goes through a
//! transactional snapshot-and-diff mechanism with undo; a propagation rule
//! keeps clue completion flags in step with the grid and auto-crosses solved
//! lines; an exact-fit line strategy deduces forced cells; and a turn
//! scheduler drives automated play.

pub mod ai_player;
pub mod description;
pub mod game_state;
pub mod grid;
pub mod line;
pub mod nonogram_target;
pub mod strategy;
pub mod transaction;
