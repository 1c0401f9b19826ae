//! The ASCII NPC simulation: generator, neighbours, rendering, processing
//! order, the occupancy grid and a turn of movement.

use tiny_games::npc::{
    lcg_next, move_npcs, process_order, render_grid, try_place, valid_neighbors, EcsAsciiSimConfig,
    OccupancyGrid, Position, Rng, TurnCount,
};

// ── lcg_next ────────────────────────────────────────────────────────────────

#[test]
fn lcg_advances_from_zero() {
    assert_ne!(lcg_next(0), 0);
}

#[test]
fn lcg_produces_distinct_values() {
    let a = lcg_next(1);
    let b = lcg_next(a);
    assert_ne!(a, b);
}

#[test]
fn lcg_is_deterministic() {
    assert_eq!(lcg_next(42), lcg_next(42));
}

// ── valid_neighbors ──────────────────────────────────────────────────────────

#[test]
fn corner_top_left_has_three_neighbors() {
    assert_eq!(valid_neighbors(0, 0, 10, 10).len(), 3);
}

#[test]
fn corner_bottom_right_has_three_neighbors() {
    assert_eq!(valid_neighbors(9, 9, 10, 10).len(), 3);
}

#[test]
fn top_edge_center_has_five_neighbors() {
    assert_eq!(valid_neighbors(5, 0, 10, 10).len(), 5);
}

#[test]
fn center_cell_has_eight_neighbors() {
    assert_eq!(valid_neighbors(5, 5, 10, 10).len(), 8);
}

#[test]
fn neighbors_never_include_self() {
    let ns = valid_neighbors(3, 3, 10, 10);
    assert!(!ns.contains(&(3, 3)));
}

#[test]
fn neighbors_stay_in_bounds() {
    for (x, y) in valid_neighbors(0, 0, 5, 5) {
        assert!(x < 5 && y < 5, "({x},{y}) is out of bounds");
    }
}

#[test]
fn one_cell_grid_has_no_neighbors() {
    assert_eq!(valid_neighbors(0, 0, 1, 1).len(), 0);
}

// ── render_grid ──────────────────────────────────────────────────────────────

#[test]
fn empty_grid_is_all_dots() {
    assert_eq!(render_grid(&[], 3, 2), "...\n...\n");
}

#[test]
fn single_npc_renders_at_origin() {
    assert_eq!(render_grid(&[(0, 0)], 3, 1), "@..\n");
}

#[test]
fn npc_at_mid_row() {
    assert_eq!(render_grid(&[(1, 0)], 3, 1), ".@.\n");
}

#[test]
fn multiple_npcs_in_correct_positions() {
    assert_eq!(render_grid(&[(0, 0), (2, 0), (1, 1)], 3, 2), "@.@\n.@.\n");
}

#[test]
fn out_of_bounds_npc_is_silently_ignored() {
    let s = render_grid(&[(0, 0), (99, 99)], 3, 2);
    assert_eq!(s, "@..\n...\n");
}

// ── process_order ────────────────────────────────────────────────────────────

#[test]
fn top_row_processed_before_bottom_row() {
    let mut v = vec![(0usize, 5usize), (0, 2), (0, 9)];
    v.sort_by(|a, b| process_order(a, b));
    let ys: Vec<usize> = v.iter().map(|p| p.1).collect();
    assert_eq!(ys, vec![2, 5, 9]);
}

#[test]
fn within_same_row_right_to_left() {
    let mut v = vec![(1usize, 0usize), (7, 0), (3, 0), (5, 0)];
    v.sort_by(|a, b| process_order(a, b));
    let xs: Vec<usize> = v.iter().map(|p| p.0).collect();
    assert_eq!(xs, vec![7, 5, 3, 1]);
}

#[test]
fn different_rows_sorted_by_row_first() {
    let a = (9usize, 0usize);
    let b = (0usize, 1usize);
    assert_eq!(process_order(&a, &b), std::cmp::Ordering::Less);
}

// ── OccupancyGrid ────────────────────────────────────────────────────────────

#[test]
fn new_grid_is_entirely_free() {
    let g = OccupancyGrid::new(5, 5);
    assert!(!g.is_occupied(0, 0));
    assert!(!g.is_occupied(4, 4));
    assert!(!g.is_occupied(2, 3));
}

#[test]
fn set_and_clear_a_cell() {
    let mut g = OccupancyGrid::new(5, 5);
    g.set(2, 3, true);
    assert!(g.is_occupied(2, 3));
    g.set(2, 3, false);
    assert!(!g.is_occupied(2, 3));
}

#[test]
fn setting_one_cell_does_not_affect_neighbors() {
    let mut g = OccupancyGrid::new(5, 5);
    g.set(2, 2, true);
    assert!(!g.is_occupied(1, 2));
    assert!(!g.is_occupied(3, 2));
    assert!(!g.is_occupied(2, 1));
    assert!(!g.is_occupied(2, 3));
}

// ── EcsAsciiSimConfig ────────────────────────────────────────────────────────

#[test]
fn lib_config_default_matches_documented_values() {
    let c = EcsAsciiSimConfig::default();
    assert_eq!(c.width, 100);
    assert_eq!(c.height, 100);
    assert_eq!(c.npc_count, 1_000);
}

// ── Placing and moving ───────────────────────────────────────────────────────

/// Places `count` NPCs as the simulation's setup does.
fn populate(width: usize, height: usize, count: usize, seed: u64) -> (OccupancyGrid, Rng, Vec<Position>) {
    let mut grid = OccupancyGrid::new(width, height);
    let mut rng = Rng::new(seed);
    let mut placed = Vec::new();
    while placed.len() < count.min(width * height) {
        if let Some(p) = try_place(&mut grid, &mut rng) {
            placed.push(p);
        }
    }
    (grid, rng, placed)
}

fn assert_consistent(grid: &OccupancyGrid, positions: &[Position]) {
    for y in 0..grid.height() {
        for x in 0..grid.width() {
            let here = positions.iter().filter(|p| p.x == x && p.y == y).count();
            assert!(here <= 1, "two NPCs share ({x},{y})");
            assert_eq!(grid.is_occupied(x, y), here == 1, "grid disagrees at ({x},{y})");
        }
    }
}

#[test]
fn placing_fills_distinct_free_cells() {
    let (grid, _, placed) = populate(5, 5, 4, 1);
    assert_eq!(placed.len(), 4);
    assert_consistent(&grid, &placed);
}

#[test]
fn a_placement_draws_a_column_then_a_row() {
    let mut grid = OccupancyGrid::new(7, 3);
    let mut rng = Rng::new(9);
    let x = (lcg_next(9) as usize) % 7;
    let y = (lcg_next(lcg_next(9)) as usize) % 3;
    assert_eq!(try_place(&mut grid, &mut rng), Some(Position { x, y }));
    assert!(grid.is_occupied(x, y));
    let mut again = Rng::new(9);
    assert_eq!(try_place(&mut grid, &mut again), None, "the same cell is now taken");
}

#[test]
fn a_turn_keeps_the_grid_in_agreement_with_the_npcs() {
    let (mut grid, mut rng, mut positions) = populate(12, 9, 30, 0xDEAD_BEEF);
    let mut turn = TurnCount::default();
    for _ in 0..25 {
        let before = positions.clone();
        move_npcs(&mut positions, &mut grid, &mut rng, &mut turn);
        assert_eq!(positions.len(), before.len());
        assert_consistent(&grid, &positions);
        for (a, b) in before.iter().zip(positions.iter()) {
            assert!(a.x.abs_diff(b.x) <= 1 && a.y.abs_diff(b.y) <= 1, "{a:?} jumped to {b:?}");
        }
    }
    assert_eq!(turn.0, 25);
}

#[test]
fn a_boxed_in_npc_stays_put() {
    let mut grid = OccupancyGrid::new(2, 1);
    grid.set(0, 0, true);
    grid.set(1, 0, true);
    let mut positions = vec![Position { x: 0, y: 0 }, Position { x: 1, y: 0 }];
    let mut rng = Rng::new(3);
    let mut turn = TurnCount(4);
    move_npcs(&mut positions, &mut grid, &mut rng, &mut turn);
    assert_eq!(positions, vec![Position { x: 0, y: 0 }, Position { x: 1, y: 0 }]);
    assert_eq!(turn.0, 5);
}

#[test]
fn a_lone_npc_on_a_two_cell_strip_steps_across() {
    let mut grid = OccupancyGrid::new(2, 1);
    grid.set(0, 0, true);
    let mut positions = vec![Position { x: 0, y: 0 }];
    let mut rng = Rng::new(3);
    let mut turn = TurnCount(0);
    move_npcs(&mut positions, &mut grid, &mut rng, &mut turn);
    assert_eq!(positions, vec![Position { x: 1, y: 0 }]);
    assert!(grid.is_occupied(1, 0));
    assert!(!grid.is_occupied(0, 0));
}

#[test]
fn the_same_seed_gives_the_same_walk() {
    let run = || {
        let (mut grid, mut rng, mut positions) = populate(10, 10, 20, 77);
        let mut turn = TurnCount(0);
        for _ in 0..10 {
            move_npcs(&mut positions, &mut grid, &mut rng, &mut turn);
        }
        positions
    };
    assert_eq!(run(), run());
}

#[test]
fn the_rendered_frame_shows_every_npc() {
    let (_, _, positions) = populate(6, 4, 5, 2);
    let cells: Vec<(usize, usize)> = positions.iter().map(|p| (p.x, p.y)).collect();
    let frame = render_grid(&cells, 6, 4);
    assert_eq!(frame.len(), 7 * 4);
    assert_eq!(frame.chars().filter(|c| *c == '@').count(), 5);
}

#[test]
fn process_order_sorts_cells_top_to_bottom_right_to_left() {
    let mut cells: Vec<(usize, usize)> = Vec::new();
    for y in 0..2 {
        for x in 0..3 {
            cells.push((x, y));
        }
    }
    cells.sort_by(|a, b| process_order(a, b));
    assert_eq!(cells, vec![(2, 0), (1, 0), (0, 0), (2, 1), (1, 1), (0, 1)]);
}
