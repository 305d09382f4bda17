use minesweeper::game::components::minefield::{CellKind, CellState, FieldOptions, MineField};
use minesweeper::game::components::counters::SecsCounter;
use minesweeper::game::components::GameComponents;
use minesweeper::game::rendering::appearance::{ButtonAppearance, CellAppearance};
use minesweeper::game::rendering::utils::{get_cell_pos, split_flags_by_digits, split_secs_by_digits};
use minesweeper::game::{GameHandler, GameState};

// A 9x9 board whose ten mines form a wall on column 4 plus one at (7, 7),
// driven deterministically: raw draws are remapped around the first click
// at (1, 4) (flat index 37) by shifting draws >= 37 up by one.
const WALL_MINES: [(usize, usize); 10] = [
    (4, 0),
    (4, 1),
    (4, 2),
    (4, 3),
    (4, 4),
    (4, 5),
    (4, 6),
    (4, 7),
    (4, 8),
    (7, 7),
];

fn wall_picks() -> Vec<usize> {
    WALL_MINES
        .iter()
        .map(|&(x, y)| {
            let idx = x + y * 9;
            if idx >= 37 { idx - 1 } else { idx }
        })
        .collect()
}

fn wall_game() -> GameHandler {
    let mut game = GameHandler::init(FieldOptions { cols: 9, rows: 9, mines: 10 });
    let picks = wall_picks();
    game.handle_first_click(1, 4, &picks);
    game
}

#[test]
fn new_board_is_clamped_and_pristine() {
    let field = MineField::new(FieldOptions { cols: 5, rows: 40, mines: 3 });
    let opts = field.options();
    assert_eq!(opts.cols, 9);
    assert_eq!(opts.rows, 30);
    assert_eq!(opts.mines, 10);
    assert!(!field.mines_placed());
    let cell = field.get_cell(0, 0).unwrap();
    assert!(cell.is_hidden());
    assert!(!cell.is_mined());
    assert!(field.get_cell(9, 0).is_none());
}

#[test]
fn placed_mines_match_adjacency_counts() {
    let mut field = MineField::new(FieldOptions { cols: 9, rows: 9, mines: 10 });
    let picks: Vec<usize> = vec![0, 1, 2, 3, 4, 5, 6, 7, 8, 9];
    field.place_mines_at(&picks, 4, 4);
    assert!(field.mines_placed());
    assert!(!field.get_cell(4, 4).unwrap().is_mined());
    let mut mines = 0;
    for x in 0..9usize {
        for y in 0..9usize {
            let c = field.get_cell_unchecked(x, y);
            if c.is_mined() {
                mines += 1;
            } else {
                let mut n = 0u8;
                for (nx, ny) in field.get_coords_around(x, y) {
                    if field.get_cell_unchecked(nx, ny).is_mined() {
                        n += 1;
                    }
                }
                assert_eq!(c.kind().to_int(), n);
            }
        }
    }
    assert_eq!(mines, 10);
}

#[test]
fn random_placement_is_first_click_safe() {
    for _ in 0..20 {
        let mut field = MineField::new(FieldOptions { cols: 9, rows: 9, mines: 10 });
        field.place_random_mines(3, 7);
        assert!(!field.get_cell(3, 7).unwrap().is_mined());
        let mut mines = 0;
        for (x, y) in field.get_coords_all() {
            if field.get_cell_unchecked(x, y).is_mined() {
                mines += 1;
            }
        }
        assert_eq!(mines, 10);
    }
}

#[test]
fn neighbors_clip_at_corners_and_exclude_self() {
    let field = MineField::new(FieldOptions { cols: 9, rows: 9, mines: 10 });
    let corner = field.get_coords_around(0, 0);
    assert_eq!(corner.len(), 3);
    assert!(!corner.contains(&(0, 0)));
    let middle = field.get_coords_around(4, 4);
    assert_eq!(middle.len(), 8);
}

#[test]
fn flag_bookkeeping_and_reset() {
    let mut comps = GameComponents::new(FieldOptions { cols: 9, rows: 9, mines: 10 });
    assert_eq!(comps.flags_counter.get_count(), 10);
    assert_eq!(comps.cells_counter.get_count(), 71);
    comps.flags_counter.decrement();
    comps.button.click();
    comps.reset();
    assert_eq!(comps.flags_counter.get_count(), 10);
    assert!(!comps.button.is_pressed);
}

#[test]
fn engine_state_machine_basics() {
    let mut game = GameHandler::init(FieldOptions { cols: 16, rows: 16, mines: 40 });
    assert!(game.is_active());
    assert!(game.state() == GameState::Playing(true));
    game.left_click(true);
    assert!(game.components().button.is_pressed);
    game.mouse_move(false);
    assert!(!game.components().button.is_hovered);
    game.quit();
    assert!(!game.is_active());
}

#[test]
fn cell_kind_increment_caps() {
    let mut k = CellKind::Num7;
    k.increment();
    assert_eq!(k.to_int(), 8);
    k.increment();
    assert_eq!(k.to_int(), 8);
    let mut m = CellKind::Mined;
    m.increment();
    assert_eq!(m.to_int(), 9);
    assert!(CellState::Hidden == CellState::Hidden);
}

#[test]
fn first_click_floods_exactly_the_left_region() {
    let game = wall_game();
    assert!(game.state() == GameState::Playing(false));
    let field = &game.components().minefield;
    // the connected zero region left of the wall plus its numbered border
    // (column 3) is revealed, and nothing else
    for x in 0..9usize {
        for y in 0..9usize {
            let c = field.get_cell_unchecked(x, y);
            let revealed = c.state() == CellState::Revealed;
            assert_eq!(revealed, x <= 3, "cell ({x},{y})");
            if revealed && x <= 2 {
                assert_eq!(c.kind().to_int(), 0);
            }
        }
    }
    // counter invariant: 36 of the 71 safe cells are revealed
    assert_eq!(game.components().cells_counter.get_count(), 71 - 36);
}

#[test]
fn reveal_on_revealed_zero_cell_is_a_no_op() {
    let mut game = wall_game();
    let before = game.components().cells_counter.get_count();
    game.handle_left_click(1, 4);
    assert!(game.state() == GameState::Playing(false));
    assert_eq!(game.components().cells_counter.get_count(), before);
}

#[test]
fn loss_trigger_preserves_counter() {
    let mut game = wall_game();
    let before = game.components().cells_counter.get_count();
    game.handle_left_click(4, 4);
    assert!(game.state() == GameState::Finished(false));
    assert_eq!(game.components().cells_counter.get_count(), before);
    let c = game.components().minefield.get_cell(4, 4).unwrap();
    assert!(c.state() == CellState::Revealed);
    // a finished game ignores further clicks through the release path
    game.left_release(Some((5, 4)));
    let c = game.components().minefield.get_cell(5, 4).unwrap();
    assert!(c.state() == CellState::Hidden);
}

#[test]
fn chord_gating_fires_only_on_exact_flag_count() {
    let mut game = wall_game();
    // (5, 4) borders three wall mines: reveal it, it shows 3
    game.handle_left_click(5, 4);
    let field = &game.components().minefield;
    assert_eq!(field.get_cell_unchecked(5, 4).kind().to_int(), 3);
    // two flags only: chord must be a no-op
    game.right_click(Some((4, 3)));
    game.right_click(Some((4, 4)));
    game.handle_left_click(5, 4);
    let field = &game.components().minefield;
    assert!(field.get_cell_unchecked(5, 3).state() == CellState::Hidden);
    assert!(field.get_cell_unchecked(6, 4).state() == CellState::Hidden);
    // the third flag makes the count match: chord opens the hidden neighbors
    game.right_click(Some((4, 5)));
    assert_eq!(game.components().flags_counter.get_count(), 7);
    game.handle_left_click(5, 4);
    let field = &game.components().minefield;
    for (nx, ny) in [(5, 3), (6, 3), (6, 4), (6, 5), (5, 5)] {
        assert!(
            field.get_cell_unchecked(nx, ny).state() == CellState::Revealed,
            "neighbor ({nx},{ny})"
        );
    }
    assert!(game.state() == GameState::Playing(false));
}

#[test]
fn end_to_end_win_with_all_mines_flagged() {
    let mut game = wall_game();
    for &(x, y) in WALL_MINES.iter() {
        game.right_click(Some((x, y)));
    }
    assert_eq!(game.components().flags_counter.get_count(), 0);
    let mut safe_reveals = 0;
    for x in 0..9usize {
        for y in 0..9usize {
            if game.state() != GameState::Playing(false) {
                break;
            }
            let c = game.components().minefield.get_cell_unchecked(x, y);
            if c.state() == CellState::Hidden && !c.is_mined() {
                game.handle_left_click(x, y);
                safe_reveals += 1;
            }
        }
    }
    assert!(safe_reveals > 0);
    assert!(game.state() == GameState::Finished(true));
    assert_eq!(game.components().cells_counter.get_count(), 0);
    assert_eq!(game.components().flags_counter.get_count(), 0);
}

#[test]
fn restart_from_pristine_idle_keeps_the_board() {
    let mut game = GameHandler::init(FieldOptions { cols: 9, rows: 9, mines: 10 });
    game.left_click(true);
    game.left_release(None);
    assert!(game.state() == GameState::Playing(true));
    assert!(!game.components().button.is_pressed);
    assert_eq!(game.components().flags_counter.get_count(), 10);
    assert!(!game.components().minefield.mines_placed());
}

#[test]
fn restart_from_flagged_idle_clears_the_flags() {
    let mut game = GameHandler::init(FieldOptions { cols: 9, rows: 9, mines: 10 });
    game.right_click(Some((2, 2)));
    assert_eq!(game.components().flags_counter.get_count(), 9);
    game.left_click(true);
    game.left_release(None);
    assert!(game.state() == GameState::Playing(true));
    assert_eq!(game.components().flags_counter.get_count(), 10);
    let c = game.components().minefield.get_cell(2, 2).unwrap();
    assert!(c.state() == CellState::Hidden);
}

#[test]
fn restart_after_loss_fully_clears_the_board() {
    let mut game = wall_game();
    game.handle_left_click(4, 4);
    assert!(game.state() == GameState::Finished(false));
    game.left_click(true);
    game.left_release(None);
    assert!(game.state() == GameState::Playing(true));
    assert!(!game.components().minefield.mines_placed());
    assert_eq!(game.components().cells_counter.get_count(), 71);
    assert_eq!(game.components().flags_counter.get_count(), 10);
    for x in 0..9usize {
        for y in 0..9usize {
            let c = game.components().minefield.get_cell_unchecked(x, y);
            assert!(c.state() == CellState::Hidden);
            assert_eq!(c.kind().to_int(), 0);
        }
    }
}

#[test]
fn flag_toggle_round_trip() {
    let mut game = wall_game();
    game.right_click(Some((6, 1)));
    let c = game.components().minefield.get_cell(6, 1).unwrap();
    assert!(c.is_flagged());
    assert_eq!(game.components().flags_counter.get_count(), 9);
    game.right_click(Some((6, 1)));
    let c = game.components().minefield.get_cell(6, 1).unwrap();
    assert!(c.is_hidden());
    assert_eq!(game.components().flags_counter.get_count(), 10);
    // flagging a revealed cell is a no-op
    game.right_click(Some((1, 4)));
    assert_eq!(game.components().flags_counter.get_count(), 10);
}

#[test]
fn appearance_projections_match_the_tables() {
    assert_eq!(
        ButtonAppearance::from_gamestate(&GameState::Finished(true)),
        ButtonAppearance::Cool
    );
    assert_eq!(
        ButtonAppearance::from_gamestate(&GameState::Finished(false)),
        ButtonAppearance::Dead
    );
    assert_eq!(
        ButtonAppearance::from_gamestate(&GameState::Playing(true)),
        ButtonAppearance::Happy
    );
    let mut game = wall_game();
    game.right_click(Some((6, 1)));
    let field = &game.components().minefield;
    let revealed_zero = field.get_cell_unchecked(1, 4);
    assert_eq!(CellAppearance::from_cell_default(&revealed_zero), CellAppearance::Num(0));
    let hidden = field.get_cell_unchecked(6, 0);
    assert_eq!(CellAppearance::from_cell_default(&hidden), CellAppearance::Hidden);
    let flagged = field.get_cell_unchecked(6, 1);
    assert_eq!(CellAppearance::from_cell_default(&flagged), CellAppearance::Flagged);
    // final projection: hidden mine shows, wrong flag is marked, revealed
    // cells and correct flags need nothing
    let hidden_mine = field.get_cell_unchecked(7, 7);
    assert_eq!(CellAppearance::from_cell_final(&hidden_mine), Some(CellAppearance::Mined));
    assert_eq!(CellAppearance::from_cell_final(&flagged), Some(CellAppearance::Wrong));
    assert_eq!(CellAppearance::from_cell_final(&revealed_zero), None);
    assert_eq!(CellAppearance::from_cell_final(&hidden), Some(CellAppearance::Num(0)));
}

#[test]
fn counter_digits_split_with_sign_and_clamp() {
    assert_eq!(split_flags_by_digits(23), [0, 2, 3]);
    assert_eq!(split_flags_by_digits(-5), [10, 0, 5]);
    assert_eq!(split_flags_by_digits(-200), [10, 9, 9]);
    assert_eq!(split_flags_by_digits(1234), [9, 9, 9]);
    assert_eq!(split_secs_by_digits(7), [0, 0, 7]);
    assert_eq!(split_secs_by_digits(480), [4, 8, 0]);
    assert_eq!(split_secs_by_digits(5000), [9, 9, 9]);
}

#[test]
fn pixel_to_cell_mapping() {
    assert_eq!(get_cell_pos(12, 55), (0, 0));
    assert_eq!(get_cell_pos(27, 70), (0, 0));
    assert_eq!(get_cell_pos(28, 71), (1, 1));
    assert_eq!(get_cell_pos(12 + 16 * 5 + 3, 55 + 16 * 2), (5, 2));
}

#[test]
fn secs_counter_reports_only_while_running() {
    let mut counter = SecsCounter::default();
    assert_eq!(counter.get_secs(), None);
    counter.start();
    let first = counter.get_secs();
    assert!(first.is_some());
    assert!(first.unwrap() >= 1);
    // the same whole second is never reported twice
    assert_eq!(counter.get_secs(), None);
    counter.stop();
    assert_eq!(counter.get_secs(), None);
}
