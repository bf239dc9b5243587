use nonogram::ai_player::AiPlayer;
use nonogram::description::{LevelDescription, LevelDescriptionTemplate};
use nonogram::game_state::GameState;
use nonogram::grid::CellState::{Empty, Filled};
use nonogram::strategy::SimpleStrategy;
use nonogram::transaction::TransactionBuilder;

fn level(rows: &[&[usize]], cols: &[&[usize]]) -> LevelDescription {
    let template = LevelDescriptionTemplate {
        rows: rows.iter().map(|r| r.to_vec()).collect(),
        cols: cols.iter().map(|c| c.to_vec()).collect(),
    };
    assert!(template.is_well_formed());
    template.to_level_description()
}

#[test]
fn emergency_turn_forces_the_first_deducible_row() {
    let mut game = GameState::new(level(&[&[2], &[2]], &[&[2], &[2]]));
    let mut player = AiPlayer::new();
    player.engines.push(SimpleStrategy {});
    let mut builder = TransactionBuilder::new(game.grid());
    player.play_single_turn_emergency(game.lvl_desc(), &mut builder);
    let transaction = builder.to_transaction(game.grid());
    assert_eq!(transaction.changes.len(), 2);
    game.apply_transaction(&transaction);
    assert_eq!(game.get(0, 0), Filled);
    assert_eq!(game.get(1, 0), Filled);
    // Only the first deducible line is touched in one turn.
    assert_eq!(game.get(0, 1), Empty);
    assert_eq!(game.get(1, 1), Empty);
}

#[test]
fn repeated_turns_solve_a_small_puzzle() {
    let mut game = GameState::new(level(&[&[2], &[2]], &[&[2], &[2]]));
    let player = {
        let mut p = AiPlayer::new();
        p.engines.push(SimpleStrategy {});
        p
    };
    let mut rounds = 0;
    loop {
        let mut builder = TransactionBuilder::new(game.grid());
        player.play_single_turn_emergency(game.lvl_desc(), &mut builder);
        let transaction = builder.to_transaction(game.grid());
        if transaction.changes.is_empty() {
            break;
        }
        game.apply_transaction(&transaction);
        rounds += 1;
        assert!(rounds <= 16);
    }
    assert!(game.lvl_desc().is_done());
}

#[test]
fn without_engines_no_turn_is_made() {
    let game = GameState::new(level(&[&[1]], &[&[1]]));
    let player = AiPlayer::new();
    let mut builder = TransactionBuilder::new(game.grid());
    player.play_single_turn_emergency(game.lvl_desc(), &mut builder);
    let transaction = builder.to_transaction(game.grid());
    assert_eq!(transaction.changes.len(), 0);
}

#[test]
fn inactive_player_never_ticks() {
    let game = GameState::new(level(&[&[1]], &[&[1]]));
    let mut player = AiPlayer::new();
    player.engines.push(SimpleStrategy {});
    let mut builder = TransactionBuilder::new(game.grid());
    player.try_perform_turn_at(10_000, game.lvl_desc(), &mut builder);
    let transaction = builder.to_transaction(game.grid());
    assert_eq!(transaction.changes.len(), 0);
    assert_eq!(player.current_strategy(), 0);
}

#[test]
fn ticks_are_gated_by_a_one_second_interval() {
    // A 2 x 2 grid of single-cell clues gives the strategy nothing to
    // deduce, so ticks only move the rotating index.
    let game = GameState::new(level(&[&[1], &[1]], &[&[1], &[1]]));
    let mut player = AiPlayer::new_at(0);
    player.engines.push(SimpleStrategy {});
    player.engines.push(SimpleStrategy {});
    player.start_play_at(5_000);
    assert!(player.is_active());
    let mut builder = TransactionBuilder::new(game.grid());
    // Readings at most a second past the last tick: no turn, no advance.
    player.try_perform_turn_at(5_500, game.lvl_desc(), &mut builder);
    player.try_perform_turn_at(6_000, game.lvl_desc(), &mut builder);
    assert_eq!(player.current_strategy(), 0);
    // A reading strictly more than a second later fires and advances.
    player.try_perform_turn_at(6_001, game.lvl_desc(), &mut builder);
    assert_eq!(player.current_strategy(), 1);
    // A manual edit resets the timer, so the next near reading is gated.
    player.restart_clock_at(7_000);
    player.try_perform_turn_at(7_900, game.lvl_desc(), &mut builder);
    assert_eq!(player.current_strategy(), 1);
    player.pause_play();
    assert!(!player.is_active());
    // Paused, even a late reading does nothing.
    player.try_perform_turn_at(60_000, game.lvl_desc(), &mut builder);
    assert_eq!(player.current_strategy(), 1);
}

#[test]
fn rotation_cycles_through_every_strategy() {
    // Three strategies, none of which can deduce anything on this grid:
    // across consecutive successful ticks the start index must take all
    // three values before repeating.
    let game = GameState::new(level(&[&[1], &[1]], &[&[1], &[1]]));
    let mut player = AiPlayer::new_at(0);
    player.engines.push(SimpleStrategy {});
    player.engines.push(SimpleStrategy {});
    player.engines.push(SimpleStrategy {});
    player.start_play_at(0);
    let mut builder = TransactionBuilder::new(game.grid());
    let mut seen = Vec::new();
    let mut now: u64 = 2_000;
    for _ in 0..3 {
        seen.push(player.current_strategy());
        player.try_perform_turn_at(now, game.lvl_desc(), &mut builder);
        now += 2_000;
    }
    assert_eq!(seen, vec![0, 1, 2], "start index must visit every value once per cycle");
    // The next tick returns to the first value of the cycle.
    assert_eq!(player.current_strategy(), seen[0]);
    // And the grid stayed untouched throughout.
    let transaction = builder.to_transaction(game.grid());
    assert_eq!(transaction.changes.len(), 0);
}
