use merge_grid::GameState;

fn state(cells: Vec<u32>, width: u32, height: u32) -> GameState {
    GameState { cells, width, height }
}

fn is_power_of_two(v: u32) -> bool {
    v > 0 && v & (v - 1) == 0
}

#[test]
fn seed_pattern() {
    let g = GameState::new(4, 4);
    assert_eq!(g.width, 4);
    assert_eq!(g.height, 4);
    assert_eq!(g.cells, vec![2, 0, 0, 2, 0, 0, 2, 0, 0, 2, 0, 0, 2, 0, 0, 2]);
}

#[test]
fn merge_pair_toward_low_index() {
    let mut g = state(vec![2, 2], 2, 1);
    g.left(false);
    assert_eq!(g.cells, vec![4, 0]);
}

#[test]
fn merge_pair_up() {
    let mut g = state(vec![2, 2], 1, 2);
    g.up(false);
    assert_eq!(g.cells, vec![4, 0]);
}

#[test]
fn merge_pair_down() {
    let mut g = state(vec![2, 2], 1, 2);
    g.down(false);
    assert_eq!(g.cells, vec![0, 4]);
}

#[test]
fn compact_and_merge_toward_high_index() {
    let mut g = state(vec![2, 0, 2], 3, 1);
    g.right(false);
    assert_eq!(g.cells, vec![0, 0, 4]);
}

#[test]
fn spawn_then_slide_up() {
    let mut g = state(vec![0, 0, 0, 0], 2, 2);
    g.up(true);
    assert_eq!(g.cells, vec![2, 2, 0, 0]);
}

#[test]
fn no_spawn_without_first() {
    let mut g = state(vec![0, 0, 0, 0], 2, 2);
    g.up(false);
    assert_eq!(g.cells, vec![0, 0, 0, 0]);
}

#[test]
fn single_cell_grid_never_changes() {
    let mut g = state(vec![4], 1, 1);
    g.left(true);
    g.right(true);
    g.up(true);
    g.down(true);
    assert_eq!(g.cells, vec![4]);
}

#[test]
fn game_over_full_stuck_grid() {
    let mut g = state(vec![2, 4, 2, 4, 4, 2, 4, 2, 2, 4, 2, 4, 4, 2, 4, 2], 4, 4);
    assert!(g.check_game_over());
}

#[test]
fn not_over_with_a_zero_cell() {
    let mut g = state(vec![0, 4, 2, 4, 4, 2, 4, 2, 2, 4, 2, 4, 4, 2, 4, 2], 4, 4);
    assert!(!g.check_game_over());
}

#[test]
fn not_over_with_adjacent_equal_pair() {
    let mut g = state(vec![2, 2, 2, 4, 4, 8, 4, 2, 2, 4, 2, 4, 4, 2, 4, 2], 4, 4);
    assert!(!g.check_game_over());
}

#[test]
fn not_over_with_vertical_pair_only() {
    let mut g = state(vec![2, 4, 2, 4, 2, 8, 4, 2, 4, 4, 2, 4, 8, 2, 4, 2], 4, 4);
    assert!(!g.check_game_over());
}

#[test]
fn fresh_grid_is_not_over() {
    let mut g = GameState::new(4, 4);
    assert!(!g.check_game_over());
}

#[test]
fn stuck_grid_moves_are_idempotent() {
    let before = vec![2, 4, 2, 4, 4, 2, 4, 2, 2, 4, 2, 4, 4, 2, 4, 2];
    let mut g = state(before.clone(), 4, 4);
    g.up(true);
    assert_eq!(g.cells, before);
    g.up(true);
    assert_eq!(g.cells, before);
}

#[test]
fn cells_stay_powers_of_two() {
    let mut g = GameState::new(4, 4);
    g.up(true);
    g.left(true);
    g.down(true);
    g.right(true);
    g.up(true);
    assert_eq!(g.cells.len(), 16);
    for &v in g.cells.iter() {
        assert!(v == 0 || is_power_of_two(v));
    }
}

#[test]
fn tile_count_grows_only_by_spawns() {
    let mut g = GameState::new(4, 4);
    let before: usize = g.cells.iter().filter(|&&v| v != 0).count();
    g.up(true);
    let after: usize = g.cells.iter().filter(|&&v| v != 0).count();
    assert!(after <= before + 4);
}

#[test]
fn mass_is_conserved_without_spawn() {
    let mut g = state(vec![2, 0, 2, 4, 0, 4, 8, 8, 2], 3, 3);
    let before: u32 = g.cells.iter().sum();
    g.left(false);
    let after: u32 = g.cells.iter().sum();
    assert_eq!(after, before);
}

#[test]
fn mass_grows_only_by_spawned_tiles() {
    let mut g = GameState::new(4, 4);
    let before: u32 = g.cells.iter().sum();
    g.down(true);
    let after: u32 = g.cells.iter().sum();
    assert!(before <= after && after <= before + 2 * 4);
}

#[test]
fn render_exact_row() {
    let g = state(vec![2, 0], 2, 1);
    assert_eq!(g.render(), "       2      []\n");
}

#[test]
fn render_multiline() {
    let g = state(vec![16, 0, 0, 256], 2, 2);
    assert_eq!(g.render(), "      16      []\n      []     256\n");
}

#[test]
fn render_round_trip() {
    let g = GameState::new(4, 4);
    let text = g.render();
    let tokens: Vec<&str> = text.split_whitespace().collect();
    assert_eq!(tokens.len(), 16);
    for (i, t) in tokens.iter().enumerate() {
        let v: u32 = if *t == "[]" { 0 } else { t.parse().unwrap() };
        assert_eq!(v, g.cells[i]);
    }
}

#[test]
fn render_round_trip_after_moves() {
    let mut g = GameState::new(4, 4);
    g.left(true);
    g.down(true);
    let text = g.render();
    let tokens: Vec<&str> = text.split_whitespace().collect();
    assert_eq!(tokens.len(), 16);
    for (i, t) in tokens.iter().enumerate() {
        let v: u32 = if *t == "[]" { 0 } else { t.parse().unwrap() };
        assert_eq!(v, g.cells[i]);
    }
}

#[test]
fn cascading_merges_take_several_passes() {
    let mut g = state(vec![2, 2, 4, 8], 1, 4);
    g.up(false);
    assert_eq!(g.cells, vec![16, 0, 0, 0]);
}
