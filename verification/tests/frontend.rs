//! Key handling and status lines shared by the frontends.

use tiny_games::breakout::{status_line as breakout_status_line, GameStatus as BreakoutStatus, PaddleInput};
use tiny_games::frontend::{direction_from_key, direction_from_keys, paddle_input_from_keys, status_line, Key};
use tiny_games::game::SnakeGame;
use tiny_games::snake::Direction;

#[test]
fn keys_map_to_directions() {
    assert_eq!(direction_from_keys(true, false, false, false), Some(Direction::Up));
    assert_eq!(direction_from_keys(false, true, false, false), Some(Direction::Down));
    assert_eq!(direction_from_keys(false, false, true, false), Some(Direction::Left));
    assert_eq!(direction_from_keys(false, false, false, true), Some(Direction::Right));
}

#[test]
fn no_keys_means_no_steering_request() {
    assert_eq!(direction_from_keys(false, false, false, false), None);
}

#[test]
fn simultaneous_keys_resolve_deterministically() {
    assert_eq!(direction_from_keys(true, true, true, true), Some(Direction::Up));
    assert_eq!(direction_from_keys(false, true, true, false), Some(Direction::Down));
}

#[test]
fn arrow_and_wasd_keys_map_to_the_same_directions() {
    assert_eq!(direction_from_key(Key::Up), Some(Direction::Up));
    assert_eq!(direction_from_key(Key::W), Some(Direction::Up));
    assert_eq!(direction_from_key(Key::Down), Some(Direction::Down));
    assert_eq!(direction_from_key(Key::S), Some(Direction::Down));
    assert_eq!(direction_from_key(Key::Left), Some(Direction::Left));
    assert_eq!(direction_from_key(Key::A), Some(Direction::Left));
    assert_eq!(direction_from_key(Key::Right), Some(Direction::Right));
    assert_eq!(direction_from_key(Key::D), Some(Direction::Right));
}

#[test]
fn other_keys_are_not_steering() {
    for key in [Key::R, Key::Escape, Key::Space, Key::Other] {
        assert_eq!(direction_from_key(key), None, "{key:?}");
    }
}

#[test]
fn keys_map_to_paddle_input() {
    assert_eq!(paddle_input_from_keys(true, false), PaddleInput::Left);
    assert_eq!(paddle_input_from_keys(false, true), PaddleInput::Right);
    assert_eq!(paddle_input_from_keys(false, false), PaddleInput::Hold);
}

#[test]
fn holding_both_directions_cancels() {
    assert_eq!(paddle_input_from_keys(true, true), PaddleInput::Hold);
}

#[test]
fn both_directions_at_once_cancel() {
    assert_eq!(paddle_input_from_keys(true, true), PaddleInput::Hold);
    assert_eq!(paddle_input_from_keys(false, false), PaddleInput::Hold);
    assert_eq!(paddle_input_from_keys(true, false), PaddleInput::Left);
    assert_eq!(paddle_input_from_keys(false, true), PaddleInput::Right);
}

#[test]
fn lib_status_line_reports_score_while_running() {
    let game = SnakeGame::new(24, 18, 1);
    assert!(status_line(&game).contains("Score 0"));
    assert_eq!(status_line(&game), "Score 0   Length 1");
}

#[test]
fn lib_status_line_reports_death_and_how_to_restart() {
    let mut game = SnakeGame::new(4, 4, 1);
    while !game.is_over() {
        game.step();
    }
    let line = status_line(&game);
    assert!(line.contains("died"), "{line}");
    assert!(line.contains("R to restart"), "{line}");
    assert_eq!(line, format!("Score {} - died: HitWall.  R to restart", game.score()));
}

#[test]
fn status_line_prompts_a_launch_while_the_ball_rests() {
    assert!(breakout_status_line(BreakoutStatus::Playing, true, 0, 3, 40).contains("Space to launch"));
}

#[test]
fn status_line_reports_bricks_once_launched() {
    let line = breakout_status_line(BreakoutStatus::Playing, false, 0, 3, 40);
    assert!(line.contains("Bricks"), "{line}");
}
