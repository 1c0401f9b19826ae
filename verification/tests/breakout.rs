//! Breakout's plain values: sounds for step outcomes and the heads-up line.

use tiny_games::breakout::{
    hit_brick, lose_life, sound_event, status_after_step, status_line, GameStatus, PaddleInput, Sound, StepOutcome,
};

fn outcome() -> StepOutcome {
    StepOutcome::default()
}

#[test]
fn an_uneventful_step_is_silent() {
    assert_eq!(sound_event(&outcome()), None);
}

#[test]
fn each_event_has_its_own_note() {
    let mut wall = outcome();
    wall.hit_wall = true;
    let mut paddle = outcome();
    paddle.hit_paddle = true;
    let mut chip = outcome();
    chip.hit_brick = Some(3);
    let mut broke = outcome();
    broke.hit_brick = Some(3);
    broke.broke_brick = true;

    let sounds: Vec<Sound> = [wall, paddle, chip, broke].iter().map(|o| sound_event(o).expect("audible")).collect();
    assert_eq!(sounds, vec![Sound::WallHit, Sound::PaddleHit, Sound::BrickHit, Sound::BrickBroken]);
}

#[test]
fn losing_a_life_outranks_the_brick_broken_on_the_way_down() {
    let mut both = outcome();
    both.broke_brick = true;
    both.hit_brick = Some(0);
    both.hit_wall = true;
    both.lost_life = true;
    assert_eq!(sound_event(&both), Some(Sound::LifeLost));
}

#[test]
fn a_brick_outranks_the_paddle_and_the_wall() {
    let mut o = outcome();
    o.hit_wall = true;
    o.hit_paddle = true;
    assert_eq!(sound_event(&o), Some(Sound::PaddleHit));
    o.hit_brick = Some(2);
    assert_eq!(sound_event(&o), Some(Sound::BrickHit));
}

#[test]
fn status_line_prompts_for_a_launch_while_the_ball_waits() {
    let line = status_line(GameStatus::Playing, true, 0, 3, 40);
    assert_eq!(line, "Score 0   Lives 3  -  Space to launch");
}

#[test]
fn status_line_reports_progress_once_playing() {
    let line = status_line(GameStatus::Playing, false, 0, 3, 40);
    assert!(line.contains("Score 0"), "{line}");
    assert!(line.contains("Bricks 40"), "{line}");
    assert_eq!(line, "Score 0   Lives 3   Bricks 40");
}

#[test]
fn status_line_reports_both_endings() {
    assert_eq!(status_line(GameStatus::Won, false, 120, 2, 0), "Cleared! Score 120.  R to restart");
    assert_eq!(status_line(GameStatus::Lost, true, 7, 0, 12), "Game over. Score 7.  R to restart");
}

#[test]
fn the_paddle_holds_by_default() {
    assert_eq!(PaddleInput::default(), PaddleInput::Hold);
    assert_eq!(StepOutcome::default().hit_brick, None);
}

#[test]
fn a_hit_scores_ten_and_a_break_twenty_five() {
    assert_eq!(hit_brick(2, 0), (1, 10, false));
    assert_eq!(hit_brick(1, 10), (0, 35, true));
}

#[test]
fn the_last_life_ends_the_game() {
    assert_eq!(lose_life(3), (2, false));
    assert_eq!(lose_life(1), (0, true));
    assert_eq!(lose_life(0), (0, true));
}

#[test]
fn a_cleared_board_wins_only_while_playing() {
    assert_eq!(status_after_step(GameStatus::Playing, 0), GameStatus::Won);
    assert_eq!(status_after_step(GameStatus::Playing, 3), GameStatus::Playing);
    assert_eq!(status_after_step(GameStatus::Lost, 0), GameStatus::Lost);
}
