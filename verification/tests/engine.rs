use game2048::ai::Direction;
use game2048::game::{choose_size, Game};
use game2048::input::Editor;

fn count_tiles(game: &Game) -> usize {
    game.grid
        .iter()
        .map(|row| row.iter().filter(|c| c.is_some()).count())
        .sum()
}

fn tiles_are_2_or_4(game: &Game) -> bool {
    game.grid
        .iter()
        .all(|row| row.iter().all(|c| match c {
            Some(v) => *v == 2 || *v == 4,
            None => true,
        }))
}

#[test]
fn merge_collapses_pairs() {
    assert_eq!(Game::merge(vec![2, 2, 2, 2]), vec![4, 4]);
}

#[test]
fn merge_leaves_odd_tile() {
    assert_eq!(Game::merge(vec![2, 2, 2]), vec![4, 2]);
}

#[test]
fn merge_does_not_remerge() {
    assert_eq!(Game::merge(vec![4, 2, 2, 4]), vec![4, 4, 4]);
}

#[test]
fn merge_empty_and_single() {
    assert_eq!(Game::merge(vec![]), Vec::<u32>::new());
    assert_eq!(Game::merge(vec![8]), vec![8]);
}

#[test]
fn move_left_on_packed_rows_is_noop() {
    let mut game = Game {
        size: 2,
        grid: vec![vec![Some(2), None], vec![Some(4), None]],
        score: 7,
        game_over: false,
    };
    let moved = game.move_left();
    assert!(!moved);
    assert_eq!(game.score, 7);
    assert!(!game.game_over);
    assert_eq!(game.grid, vec![vec![Some(2), None], vec![Some(4), None]]);
}

#[test]
fn move_left_merges_and_spawns() {
    let mut game = Game {
        size: 2,
        grid: vec![vec![Some(2), Some(2)], vec![None, Some(2)]],
        score: 0,
        game_over: false,
    };
    let moved = game.move_left();
    assert!(moved);
    assert_eq!(game.score, 1);
    assert!(!game.game_over);
    assert_eq!(game.grid[0][0], Some(4));
    assert_eq!(game.grid[1][0], Some(2));
    // the slide leaves cells (0,1) and (1,1) empty; the spawn fills one
    assert_eq!(count_tiles(&game), 3);
    let spawned = [game.grid[0][1], game.grid[1][1]];
    let filled: Vec<u32> = spawned.iter().filter_map(|c| *c).collect();
    assert_eq!(filled.len(), 1);
    assert!(filled[0] == 2 || filled[0] == 4);
}

#[test]
fn move_right_packs_to_the_right() {
    let mut game = Game {
        size: 2,
        grid: vec![vec![Some(2), Some(2)], vec![None, None]],
        score: 0,
        game_over: false,
    };
    let moved = game.move_right();
    assert!(moved);
    assert_eq!(game.grid[0][1], Some(4));
    assert_eq!(game.score, 1);
    assert_eq!(count_tiles(&game), 2);
}

#[test]
fn move_up_merges_columns() {
    let mut game = Game {
        size: 2,
        grid: vec![vec![Some(2), None], vec![Some(2), None]],
        score: 0,
        game_over: false,
    };
    let moved = game.move_up();
    assert!(moved);
    assert_eq!(game.grid[0][0], Some(4));
    assert_eq!(game.score, 1);
    // the merge leaves one tile; the spawn adds a 2 or 4 somewhere else
    assert_eq!(count_tiles(&game), 2);
    let spawned: Vec<u32> = [game.grid[0][1], game.grid[1][0], game.grid[1][1]]
        .iter()
        .filter_map(|c| *c)
        .collect();
    assert_eq!(spawned.len(), 1);
    assert!(spawned[0] == 2 || spawned[0] == 4);
}

#[test]
fn move_down_merges_columns() {
    let mut game = Game {
        size: 2,
        grid: vec![vec![Some(2), None], vec![Some(2), None]],
        score: 0,
        game_over: false,
    };
    let moved = game.move_down();
    assert!(moved);
    assert_eq!(game.grid[1][0], Some(4));
    assert_eq!(game.score, 1);
    // the merge leaves one tile; the spawn adds a 2 or 4 somewhere else
    assert_eq!(count_tiles(&game), 2);
    let spawned: Vec<u32> = [game.grid[0][0], game.grid[0][1], game.grid[1][1]]
        .iter()
        .filter_map(|c| *c)
        .collect();
    assert_eq!(spawned.len(), 1);
    assert!(spawned[0] == 2 || spawned[0] == 4);
}

#[test]
fn terminal_grid_has_no_moves() {
    let grid = vec![vec![Some(2), Some(4)], vec![Some(4), Some(2)]];
    let game = Game { size: 2, grid: grid.clone(), score: 3, game_over: false };
    assert!(game.get_possible_moves().is_empty());

    for dir in [Direction::Left, Direction::Right, Direction::Up, Direction::Down] {
        let mut copy = Game { size: 2, grid: grid.clone(), score: 3, game_over: false };
        let moved = match dir {
            Direction::Left => copy.move_left(),
            Direction::Right => copy.move_right(),
            Direction::Up => copy.move_up(),
            Direction::Down => copy.move_down(),
        };
        assert!(!moved);
        assert_eq!(copy.grid, grid);
        assert_eq!(copy.score, 3);
    }

    let mut game = Game { size: 2, grid, score: 3, game_over: false };
    let chosen = game.ai_make_move();
    assert!(chosen.is_none());
    assert!(game.game_over);
}

#[test]
fn selector_prefers_left_on_ties() {
    // Left and Up are both legal here; the fixed-increment scoring rule makes
    // every legal move score alike, so the first enumerated direction wins.
    let mut game = Game {
        size: 2,
        grid: vec![vec![None, Some(2)], vec![None, Some(2)]],
        score: 0,
        game_over: false,
    };
    let possible = game.get_possible_moves();
    assert!(possible.contains(&Direction::Left));
    assert!(possible.contains(&Direction::Up));
    let chosen = game.ai_make_move();
    assert_eq!(chosen, Some(Direction::Left));
    assert!(!game.game_over);
    // the live state is untouched by the selection itself
    assert_eq!(game.grid, vec![vec![None, Some(2)], vec![None, Some(2)]]);
    assert_eq!(game.score, 0);
}

#[test]
fn new_game_spawns_two_tiles() {
    let game = Game::new(4);
    assert_eq!(game.size, 4);
    assert_eq!(game.score, 0);
    assert!(!game.game_over);
    assert_eq!(game.grid.len(), 4);
    assert!(game.grid.iter().all(|row| row.len() == 4));
    assert_eq!(count_tiles(&game), 2);
    assert!(tiles_are_2_or_4(&game));
}

#[test]
fn new_game_of_size_one_ends_at_once() {
    let game = Game::new(1);
    assert_eq!(game.size, 1);
    assert!(game.game_over);
    assert_eq!(count_tiles(&game), 1);
    assert!(tiles_are_2_or_4(&game));
}

#[test]
fn spawn_on_full_board_sets_game_over() {
    let grid = vec![vec![Some(2), Some(4)], vec![Some(4), Some(2)]];
    let mut game = Game { size: 2, grid: grid.clone(), score: 0, game_over: false };
    game.spawn_tile();
    assert!(game.game_over);
    assert_eq!(game.grid, grid);
    assert_eq!(game.score, 0);
}

#[test]
fn spawn_fills_exactly_one_empty_cell() {
    let mut game = Game {
        size: 2,
        grid: vec![vec![None, None], vec![None, None]],
        score: 0,
        game_over: false,
    };
    game.spawn_tile();
    assert!(!game.game_over);
    assert_eq!(count_tiles(&game), 1);
    assert!(tiles_are_2_or_4(&game));
}

#[test]
fn snapshot_is_independent() {
    let game = Game {
        size: 2,
        grid: vec![vec![Some(2), Some(2)], vec![None, None]],
        score: 5,
        game_over: false,
    };
    let mut copy = game.snapshot();
    assert_eq!(copy.grid, game.grid);
    assert_eq!(copy.score, 5);
    copy.move_left();
    assert_eq!(game.grid, vec![vec![Some(2), Some(2)], vec![None, None]]);
    assert_eq!(game.score, 5);
}

#[test]
fn edit_doubles_caps_and_places() {
    let mut game = Game {
        size: 2,
        grid: vec![vec![Some(2), None], vec![Some(2048), Some(1024)]],
        score: 9,
        game_over: true,
    };
    game.edit_cell_increment(0, 0);
    assert_eq!(game.grid[0][0], Some(4));
    game.edit_cell_increment(0, 1);
    assert_eq!(game.grid[0][1], Some(2));
    game.edit_cell_increment(1, 0);
    assert_eq!(game.grid[1][0], Some(2048));
    game.edit_cell_increment(1, 1);
    assert_eq!(game.grid[1][1], Some(2048));
    game.edit_cell_clear(0, 0);
    assert_eq!(game.grid[0][0], None);
    // edits touch neither score nor the terminal flag
    assert_eq!(game.score, 9);
    assert!(game.game_over);
}

#[test]
fn editor_cursor_stays_in_bounds() {
    let mut editor = Editor::new();
    assert_eq!(editor.selected_row, 0);
    assert_eq!(editor.selected_col, 0);
    editor.select_left();
    assert_eq!(editor.selected_col, 0);
    editor.select_right(3);
    assert_eq!(editor.selected_col, 1);
    editor.select_right(3);
    assert_eq!(editor.selected_col, 2);
    editor.select_right(3);
    assert_eq!(editor.selected_col, 2);
    editor.select_left();
    assert_eq!(editor.selected_col, 1);
}

#[test]
fn apply_move_drives_the_live_state() {
    let mut game = Game {
        size: 2,
        grid: vec![vec![Some(2), Some(2)], vec![None, None]],
        score: 0,
        game_over: false,
    };
    game2048::ai::apply_move(&mut game, Direction::Left);
    assert_eq!(game.grid[0][0], Some(4));
    assert_eq!(game.score, 1);
    assert_eq!(count_tiles(&game), 2);
}

#[test]
fn possible_moves_follow_enumeration_order() {
    let game = Game {
        size: 2,
        grid: vec![vec![None, Some(2)], vec![None, Some(4)]],
        score: 0,
        game_over: false,
    };
    // Left shifts both rows; Up and Down cannot change the packed columns
    // of unequal tiles; Right is a no-op on right-packed rows.
    assert_eq!(game.get_possible_moves(), vec![Direction::Left]);

    let game = Game {
        size: 2,
        grid: vec![vec![Some(2), None], vec![Some(2), None]],
        score: 0,
        game_over: false,
    };
    // Right shifts both rows, Up and Down merge the left column.
    assert_eq!(
        game.get_possible_moves(),
        vec![Direction::Right, Direction::Up, Direction::Down]
    );
}

#[test]
fn choose_size_defaults_to_four() {
    assert_eq!(choose_size(Some(5)), 5);
    assert_eq!(choose_size(Some(1)), 1);
    assert_eq!(choose_size(Some(0)), 4);
    assert_eq!(choose_size(None), 4);
}
