use minesweeper_engine::cursor::CursorActions;
use minesweeper_engine::gamedata::{
    coords_around_input_coords, create_game_config, create_game_config_with_bombs_at,
    reveal_all_tiles, tile_names_to_coords, GameConfig, GameError, TileDisplay,
};
use minesweeper_engine::gameplay::{gameplay, reveal_all_zeros_around_cursor_position};
use minesweeper_engine::gamedata::GameActions;

fn mine_count(gc: &GameConfig) -> usize {
    let n = gc.grid_size;
    let mut count = 0;
    for r in 0..n {
        for c in 0..n {
            if gc.tiles.get(r, c).unwrap().is_bomb {
                count += 1;
            }
        }
    }
    count
}

fn revealed_count(gc: &GameConfig) -> usize {
    let n = gc.grid_size;
    let mut count = 0;
    for r in 0..n {
        for c in 0..n {
            if gc.tiles.get(r, c).unwrap().been_revealed {
                count += 1;
            }
        }
    }
    count
}

#[test]
fn generator_places_exact_mine_count() {
    let gc = create_game_config(4, 5).unwrap();
    assert_eq!(mine_count(&gc), 5);
    assert_eq!(gc.grid_size, 4);
    assert_eq!(gc.bomb_count, 5);
    assert_eq!(gc.game_data.revealed_tiles_to_win, 11);
}

#[test]
fn generator_accepts_zero_mines() {
    let gc = create_game_config(3, 0).unwrap();
    assert_eq!(mine_count(&gc), 0);
    assert_eq!(gc.game_data.revealed_tiles_to_win, 9);
}

#[test]
fn generator_rejects_too_many_mines() {
    assert!(matches!(
        create_game_config(2, 4),
        Err(GameError::InvalidConfiguration)
    ));
    assert!(matches!(
        create_game_config(0, 0),
        Err(GameError::InvalidConfiguration)
    ));
}

#[test]
fn adjacency_counts_match_brute_force() {
    let gc = create_game_config_with_bombs_at(4, vec![0, 5, 10]);
    let n: isize = 4;
    for r in 0..4isize {
        for c in 0..4isize {
            let mut expected = 0u8;
            for dr in -1isize..=1 {
                for dc in -1isize..=1 {
                    if dr == 0 && dc == 0 {
                        continue;
                    }
                    let rr = r + dr;
                    let cc = c + dc;
                    if rr < 0 || rr >= n || cc < 0 || cc >= n {
                        continue;
                    }
                    if gc.tiles.get(rr as usize, cc as usize).unwrap().is_bomb {
                        expected += 1;
                    }
                }
            }
            assert_eq!(
                gc.tiles.get(r as usize, c as usize).unwrap().bombs_around,
                expected,
                "mismatch at ({}, {})",
                r,
                c
            );
        }
    }
}

#[test]
fn resolver_interior_tile_has_eight_neighbors() {
    let mut coords = vec![(1usize, 1usize)];
    let around = coords_around_input_coords(&mut coords, 3);
    assert_eq!(
        around,
        vec![
            (1, 0),
            (1, 2),
            (0, 1),
            (2, 1),
            (0, 2),
            (2, 0),
            (0, 0),
            (2, 2)
        ]
    );
}

#[test]
fn resolver_corner_and_edge_counts() {
    let mut corner = vec![(0usize, 0usize)];
    assert_eq!(coords_around_input_coords(&mut corner, 3).len(), 3);
    let mut edge = vec![(0usize, 1usize)];
    assert_eq!(coords_around_input_coords(&mut edge, 3).len(), 5);
    let mut both = vec![(0usize, 0usize), (1usize, 1usize)];
    let around = coords_around_input_coords(&mut both, 3);
    assert_eq!(around.len(), 11);
    for p in around {
        assert!(p.0 < 3 && p.1 < 3);
    }
}

#[test]
fn names_become_row_major_coordinates() {
    let coords = tile_names_to_coords(vec![0, 5, 8], 3);
    assert_eq!(coords, vec![(0, 0), (1, 2), (2, 2)]);
}

#[test]
fn corner_mine_flood_fill_reveals_everything_else() {
    // a 3x3 board with the single mine in the corner: selecting the far
    // corner reveals the whole zero region plus its count-1 border
    let mut gc = create_game_config_with_bombs_at(3, vec![0]);
    gc.cursor_data.position = [2, 2];
    gc.cursor_data.action = CursorActions::Select;
    let outcome = gameplay(&mut gc);
    assert!(outcome == GameActions::Win);
    assert_eq!(revealed_count(&gc), 8);
    assert!(!gc.tiles.get(0, 0).unwrap().been_revealed);
    assert_eq!(gc.tiles.get(0, 1).unwrap().display, TileDisplay::Count(1));
    assert_eq!(gc.tiles.get(1, 0).unwrap().display, TileDisplay::Count(1));
    assert_eq!(gc.tiles.get(1, 1).unwrap().display, TileDisplay::Count(1));
    assert_eq!(gc.tiles.get(2, 2).unwrap().display, TileDisplay::Count(0));
    assert_eq!(gc.tiles.get(0, 2).unwrap().display, TileDisplay::Count(0));
}

#[test]
fn reveal_engine_is_idempotent() {
    let mut gc = create_game_config_with_bombs_at(3, vec![0]);
    gc.cursor_data.position = [2, 2];
    reveal_all_zeros_around_cursor_position(&mut gc);
    let first = revealed_count(&gc);
    let counter_first = gc.game_data.revealed_tiles;
    assert_eq!(first, 8);
    assert_eq!(counter_first, 8);
    reveal_all_zeros_around_cursor_position(&mut gc);
    assert_eq!(revealed_count(&gc), first);
    assert_eq!(gc.game_data.revealed_tiles, counter_first);
}

#[test]
fn win_triggers_exactly_at_threshold() {
    // 2x2 board, mine at (0,0): three safe tiles, none of them zero
    let mut gc = create_game_config_with_bombs_at(2, vec![0]);
    gc.cursor_data.position = [0, 1];
    gc.cursor_data.action = CursorActions::Select;
    assert!(gameplay(&mut gc) == GameActions::SuccessfulRun);
    gc.cursor_data.position = [1, 0];
    gc.cursor_data.action = CursorActions::Select;
    assert!(gameplay(&mut gc) == GameActions::SuccessfulRun);
    gc.cursor_data.position = [1, 1];
    gc.cursor_data.action = CursorActions::Select;
    assert!(gameplay(&mut gc) == GameActions::Win);
    assert_eq!(gc.game_data.revealed_tiles, 3);
}

#[test]
fn selecting_a_mine_is_game_over() {
    let mut gc = create_game_config_with_bombs_at(2, vec![0]);
    gc.cursor_data.position = [0, 0];
    gc.cursor_data.action = CursorActions::Select;
    assert!(gameplay(&mut gc) == GameActions::GameOver);
    assert_eq!(gc.game_data.revealed_tiles, 0);
}

#[test]
fn mark_toggle_restores_everything() {
    let mut gc = create_game_config_with_bombs_at(3, vec![4]);
    gc.cursor_data.position = [0, 0];
    gc.cursor_data.action = CursorActions::Mark;
    assert!(gameplay(&mut gc) == GameActions::SuccessfulRun);
    assert_eq!(gc.tiles.get(0, 0).unwrap().display, TileDisplay::Marked);
    assert_eq!(gc.game_data.tiles_marked, 1);
    gc.cursor_data.action = CursorActions::Mark;
    assert!(gameplay(&mut gc) == GameActions::SuccessfulRun);
    assert_eq!(gc.tiles.get(0, 0).unwrap().display, TileDisplay::Hidden);
    assert_eq!(gc.game_data.tiles_marked, 0);
}

#[test]
fn selecting_marked_tile_reports_it() {
    let mut gc = create_game_config_with_bombs_at(3, vec![4]);
    gc.cursor_data.position = [0, 0];
    gc.cursor_data.action = CursorActions::Mark;
    gameplay(&mut gc);
    gc.cursor_data.action = CursorActions::Select;
    assert!(gameplay(&mut gc) == GameActions::TileAlreadyMarked);
    assert_eq!(gc.tiles.get(0, 0).unwrap().display, TileDisplay::Marked);
}

#[test]
fn selecting_revealed_tile_leaves_progress_alone() {
    let mut gc = create_game_config_with_bombs_at(3, vec![4]);
    gc.cursor_data.position = [0, 0];
    gc.cursor_data.action = CursorActions::Select;
    assert!(gameplay(&mut gc) == GameActions::SuccessfulRun);
    let progress = gc.game_data;
    gc.cursor_data.action = CursorActions::Select;
    assert!(gameplay(&mut gc) == GameActions::TileAlreadySelected);
    assert!(gc.game_data == progress);
}

#[test]
fn failed_input_reports_incorrect_input() {
    let mut gc = create_game_config_with_bombs_at(3, vec![4]);
    gc.cursor_data.action = CursorActions::FailedInput;
    assert!(gameplay(&mut gc) == GameActions::IncorrectInput);
    assert_eq!(gc.game_data.revealed_tiles, 0);
}

#[test]
fn reveal_all_tiles_shows_the_whole_board() {
    let mut gc = create_game_config_with_bombs_at(2, vec![3]);
    reveal_all_tiles(&mut gc);
    for r in 0..2 {
        for c in 0..2 {
            let t = gc.tiles.get(r, c).unwrap();
            if t.is_bomb {
                assert_eq!(t.display, TileDisplay::Mine);
            } else {
                assert_eq!(t.display, TileDisplay::Count(t.bombs_around));
            }
        }
    }
    assert_eq!(gc.tiles.get(1, 1).unwrap().display, TileDisplay::Mine);
    assert_eq!(gc.tiles.get(0, 0).unwrap().display, TileDisplay::Count(1));
}

#[test]
fn win_check_reads_the_counter() {
    let mut gc = create_game_config_with_bombs_at(2, vec![0]);
    assert!(!gc.game_data.win_conditions_met());
    gc.game_data.revealed_tiles = 3;
    assert!(gc.game_data.win_conditions_met());
}
