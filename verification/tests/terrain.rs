//! Destructible terrain: damage and the starting walls.

use tiny_games::terrain::{damage_tile, is_wall_cell, step_target, walk, WallSet, COLS, ROWS};

#[test]
fn damage_tile_reduces_hp() {
    assert_eq!(damage_tile(3, 1), Some(2));
}

#[test]
fn damage_tile_exact_zero_destroys() {
    assert_eq!(damage_tile(1, 1), None);
}

#[test]
fn damage_tile_overkill_destroys() {
    assert_eq!(damage_tile(1, 5), None);
}

// ── Further cases ────────────────────────────────────────────────────────────

#[test]
fn the_border_is_all_wall() {
    for col in 0..COLS {
        assert!(is_wall_cell(col, 0));
        assert!(is_wall_cell(col, ROWS - 1));
    }
    for row in 0..ROWS {
        assert!(is_wall_cell(0, row));
        assert!(is_wall_cell(COLS - 1, row));
    }
}

#[test]
fn pillars_stand_on_a_regular_lattice() {
    assert!(is_wall_cell(4, 3));
    assert!(is_wall_cell(8, 6));
    assert!(!is_wall_cell(4, 4));
    assert!(!is_wall_cell(5, 3));
    assert!(!is_wall_cell(1, 1));
}

#[test]
fn no_keys_means_no_step() {
    assert_eq!(step_target((5, 5), false, false, false, false), None);
    assert_eq!(step_target((5, 5), true, true, false, false), None);
    assert_eq!(step_target((5, 5), false, false, true, true), None);
}

#[test]
fn one_key_steps_one_cell_that_way() {
    assert_eq!(step_target((5, 5), true, false, false, false), Some(((0, 1), (5, 6))));
    assert_eq!(step_target((5, 5), false, true, false, false), Some(((0, -1), (5, 4))));
    assert_eq!(step_target((5, 5), false, false, true, false), Some(((-1, 0), (4, 5))));
    assert_eq!(step_target((5, 5), false, false, false, true), Some(((1, 0), (6, 5))));
}

#[test]
fn horizontal_wins_over_vertical() {
    assert_eq!(step_target((5, 5), true, false, false, true), Some(((1, 0), (6, 5))));
    assert_eq!(step_target((5, 5), false, true, true, false), Some(((-1, 0), (4, 5))));
    // Left and right cancel, so the vertical push remains.
    assert_eq!(step_target((5, 5), true, false, true, true), Some(((0, 1), (5, 6))));
}

#[test]
fn the_starting_walls_follow_the_layout() {
    let walls = WallSet::initial();
    for row in 0..ROWS {
        for col in 0..COLS {
            assert_eq!(walls.contains((col as i32, row as i32)), is_wall_cell(col, row));
        }
    }
    assert!(!walls.contains((-1, 3)));
    assert!(!walls.contains((COLS as i32, 3)));
}

#[test]
fn walls_block_and_floor_is_walked() {
    let mut walls = WallSet::initial();
    // (11, 7) is the centre floor cell; (12, 6) is a pillar.
    assert_eq!(walk(&walls, (11, 7), false, false, false, true), Some(((1, 0), Some((12, 7)))));
    assert_eq!(walk(&walls, (12, 7), false, true, false, false), Some(((0, -1), None)));
    assert_eq!(walk(&walls, (1, 1), false, false, true, false), Some(((-1, 0), None)));
    assert_eq!(walk(&walls, (11, 7), false, false, false, false), None);
    walls.remove((12, 6));
    assert!(!walls.contains((12, 6)));
    assert_eq!(walk(&walls, (12, 7), false, true, false, false), Some(((0, -1), Some((12, 6)))));
}
