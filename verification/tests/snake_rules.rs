//! The Snake rules: ticker, directions, setup, movement, turning, eating,
//! death, winning and board queries.

use tiny_games::game::{CallAnswer, GameCall, SnakeGame};
use tiny_games::snake::{Coord, DeathCause, Direction, GameStatus, StepOutcome};
use tiny_games::ticker::{Ticker, MICROS_PER_SECOND};

// ── The float front end of the ticker, as the frontends drive it ────────────

fn round_to_u64(value: f32) -> u64 {
    (value + 0.5) as u64
}

fn seconds_to_micros(seconds: f32) -> u64 {
    round_to_u64(seconds * MICROS_PER_SECOND as f32)
}

fn ticker(steps_per_second: f32) -> Ticker {
    Ticker::from_micros_per_step(round_to_u64(MICROS_PER_SECOND as f32 / steps_per_second))
}

fn accumulate(t: &mut Ticker, delta: f32) -> u32 {
    t.accumulate_micros(seconds_to_micros(delta))
}

fn alpha(t: &Ticker) -> f32 {
    (t.accumulated_micros() as f32 / t.micros_per_step() as f32).clamp(0.0, 1.0)
}

fn steps_per_second(t: &Ticker) -> f32 {
    MICROS_PER_SECOND as f32 / t.micros_per_step() as f32
}

/// A game with the snake at a known place, travelling right.
fn game() -> SnakeGame {
    SnakeGame::new(10, 10, 1)
}

/// Runs the snake into the right-hand wall and returns the fatal outcome.
fn run_into_wall(game: &mut SnakeGame) -> StepOutcome {
    for _ in 0..1_000 {
        let outcome = game.step();
        if matches!(outcome, StepOutcome::Died(_) | StepOutcome::Ended) {
            return outcome;
        }
    }
    panic!("the snake never hit the wall, so it cannot leave the board");
}

// ── Ticker ───────────────────────────────────────────────────────────────────

#[test]
fn ticker_yields_no_steps_before_the_interval_elapses() {
    let mut t = ticker(10.0); // 100 ms per step
    assert_eq!(accumulate(&mut t, 0.05), 0);
    assert_eq!(accumulate(&mut t, 0.04), 0);
}

#[test]
fn ticker_yields_a_step_once_the_interval_elapses() {
    let mut t = ticker(10.0);
    assert_eq!(accumulate(&mut t, 0.10), 1);
}

#[test]
fn ticker_yields_several_steps_for_a_long_frame() {
    let mut t = ticker(8.0); // 125 ms per step
    assert_eq!(accumulate(&mut t, 0.25), 2);
}

#[test]
fn ticker_keeps_the_remainder_so_frame_rate_does_not_change_speed() {
    let mut t = ticker(10.0);
    let steps: u32 = (0..60).map(|_| accumulate(&mut t, 1.0 / 60.0)).sum();
    assert_eq!(steps, 10);
}

#[test]
fn ticker_agrees_across_frame_rates_exactly() {
    let mut many = ticker(10.0);
    let mut few = ticker(10.0);
    let mut mixed = ticker(10.0);

    let many_steps: u32 = (0..100).map(|_| accumulate(&mut many, 0.01)).sum();
    let few_steps: u32 = (0..4).map(|_| accumulate(&mut few, 0.25)).sum();
    let mixed_steps: u32 = [0.004, 0.030, 0.016, 0.100, 0.050, 0.300, 0.200, 0.300]
        .iter()
        .map(|d| accumulate(&mut mixed, *d))
        .sum();

    assert_eq!(many_steps, 10, "100 frames of 10 ms");
    assert_eq!(few_steps, 10, "4 frames of 250 ms");
    assert_eq!(mixed_steps, 10, "8 uneven frames");
}

#[test]
fn ticker_accepts_exact_microsecond_input() {
    let mut t = ticker(8.0);
    assert_eq!(t.micros_per_step(), 125_000);
    assert_eq!(t.accumulate_micros(124_999), 0);
    assert_eq!(t.accumulate_micros(1), 1);
    assert_eq!(t.accumulate_micros(250_000), 2);
}

#[test]
fn two_tickers_fed_the_same_time_in_different_groupings_agree() {
    let mut a = ticker(9.0);
    let mut b = ticker(9.0);
    let mut a_steps = 0;
    let mut b_steps = 0;

    for _ in 0..600 {
        a_steps += a.accumulate_micros(16_667);
    }
    for _ in 0..200 {
        b_steps += b.accumulate_micros(50_001);
    }
    assert_eq!(a_steps, b_steps);
    assert_eq!(a, b, "including the leftover remainder");
}

#[test]
fn ticker_caps_a_long_stall_instead_of_teleporting() {
    let mut t = ticker(10.0);
    assert_eq!(accumulate(&mut t, 10.0), Ticker::MAX_STEPS_PER_CALL);
    assert_eq!(accumulate(&mut t, 0.0), 0);
}

#[test]
fn ticker_ignores_negative_and_zero_deltas() {
    let mut t = ticker(10.0);
    assert_eq!(accumulate(&mut t, -1.0), 0);
    assert_eq!(accumulate(&mut t, 0.0), 0);
    assert_eq!(accumulate(&mut t, 0.10), 1);
}

#[test]
fn ticker_alpha_reports_progress_toward_the_next_step() {
    let mut t = ticker(10.0);
    assert_eq!(alpha(&t), 0.0);
    accumulate(&mut t, 0.05);
    assert!((alpha(&t) - 0.5).abs() < 1e-5, "got {}", alpha(&t));
    accumulate(&mut t, 0.05);
    assert!(alpha(&t) < 1e-5, "got {}", alpha(&t));
}

#[test]
fn ticker_reports_its_rate() {
    assert!((steps_per_second(&ticker(8.0)) - 8.0).abs() < 1e-5);
}

#[test]
fn a_negative_delta_never_rewinds_the_ticker() {
    let mut t = ticker(10.0);
    accumulate(&mut t, 0.05);
    let progress = alpha(&t);

    accumulate(&mut t, -10.0);
    assert!((alpha(&t) - progress).abs() < 1e-6, "a negative delta moved the accumulator");
    assert_eq!(accumulate(&mut t, 0.05), 1);
}

#[test]
fn ticker_keeps_the_remainder_when_exactly_at_the_cap() {
    let mut t = ticker(10.0); // 100_000 us per step
    let exactly_max = Ticker::MAX_STEPS_PER_CALL as u64 * 100_000;

    assert_eq!(t.accumulate_micros(exactly_max + 40_000), 8);
    assert!((alpha(&t) - 0.4).abs() < 1e-4, "alpha was {}", alpha(&t));
}

#[test]
fn ticker_discards_the_backlog_only_when_over_the_cap() {
    let mut t = ticker(10.0);
    assert_eq!(t.accumulate_micros(2_000_000), Ticker::MAX_STEPS_PER_CALL);
    assert_eq!(alpha(&t), 0.0);
    assert_eq!(t.accumulate_micros(0), 0);
}

#[test]
fn an_infinite_delta_is_absorbed_rather_than_exploding() {
    let mut t = ticker(10.0);
    assert_eq!(accumulate(&mut t, f32::INFINITY), Ticker::MAX_STEPS_PER_CALL);
    assert_eq!(alpha(&t), 0.0);
}

#[test]
fn a_saturated_backlog_is_capped() {
    let mut t = Ticker::from_micros_per_step(3);
    assert_eq!(t.accumulate_micros(2), 0);
    assert_eq!(t.accumulate_micros(u64::MAX), Ticker::MAX_STEPS_PER_CALL);
    assert_eq!(t.accumulated_micros(), 0);
    assert_eq!(t.accumulate_micros(5), 1);
    assert_eq!(t.accumulated_micros(), 2);
}

// ── Direction ────────────────────────────────────────────────────────────────

#[test]
fn opposite_is_its_own_inverse() {
    for d in [Direction::Up, Direction::Down, Direction::Left, Direction::Right] {
        assert_eq!(d.opposite().opposite(), d);
        assert_ne!(d.opposite(), d);
    }
}

#[test]
fn deltas_are_unit_steps_on_one_axis() {
    for d in [Direction::Up, Direction::Down, Direction::Left, Direction::Right] {
        let c = d.delta();
        assert_eq!(c.x.abs() + c.y.abs(), 1, "{d:?} is not a unit step");
    }
    assert_eq!(Direction::Up.delta(), Coord::new(0, -1));
    assert_eq!(Direction::Down.delta(), Coord::new(0, 1));
}

#[test]
fn opposite_directions_cancel() {
    for d in [Direction::Up, Direction::Left] {
        let a = d.delta();
        let b = d.opposite().delta();
        assert_eq!((a.x + b.x, a.y + b.y), (0, 0));
    }
}

// ── Setup ────────────────────────────────────────────────────────────────────

#[test]
fn a_new_game_starts_running_with_one_segment_and_food() {
    let g = game();
    assert_eq!(g.status(), GameStatus::Running);
    assert_eq!(g.len(), 1);
    assert_eq!(g.score(), 0);
    assert_eq!(g.ticks(), 0);
    assert!(g.food().is_some());
    assert!(!g.is_over());
}

#[test]
fn the_snake_starts_at_the_centre() {
    let g = SnakeGame::new(7, 5, 3);
    assert_eq!(g.head(), Coord::new(3, 2));
    assert_eq!(g.direction(), Direction::Right);
}

#[test]
fn food_never_starts_under_the_snake() {
    for seed in 0..64 {
        let g = SnakeGame::new(5, 5, seed);
        assert_ne!(g.food(), Some(g.head()), "seed {seed}");
    }
}

#[test]
fn the_same_seed_produces_the_same_game() {
    let mut a = SnakeGame::new(8, 8, 99);
    let mut b = SnakeGame::new(8, 8, 99);
    for _ in 0..20 {
        assert_eq!(a.step(), b.step());
        assert_eq!(a.food(), b.food());
        assert_eq!(a.body(), b.body());
    }
}

#[test]
fn different_seeds_generally_diverge() {
    let a = SnakeGame::new(20, 20, 1);
    let b = SnakeGame::new(20, 20, 2);
    assert_ne!(a.food(), b.food());
}

// ── Movement ─────────────────────────────────────────────────────────────────

#[test]
fn stepping_moves_the_head_one_cell_in_the_current_direction() {
    let mut g = game();
    let before = g.head();
    assert_eq!(g.step(), StepOutcome::Moved);
    assert_eq!(g.head(), Coord::new(before.x + 1, before.y));
    assert_eq!(g.ticks(), 1);
}

#[test]
fn a_length_one_snake_does_not_grow_by_moving() {
    let mut g = game();
    g.step();
    assert_eq!(g.len(), 1);
}

#[test]
fn queued_turns_apply_on_the_next_step_not_immediately() {
    let mut g = game();
    assert!(g.queue_turn(Direction::Down));
    assert_eq!(g.direction(), Direction::Right);
    g.step();
    assert_eq!(g.direction(), Direction::Down);
}

#[test]
fn the_last_queued_turn_within_a_tick_is_the_one_that_applies() {
    let mut g = game();
    g.queue_turn(Direction::Up);
    g.queue_turn(Direction::Down);
    g.step();
    assert_eq!(g.direction(), Direction::Down);
}

// ── The reversal rule ────────────────────────────────────────────────────────

#[test]
fn a_length_one_snake_may_reverse() {
    let mut g = game();
    assert_eq!(g.len(), 1);
    assert!(g.queue_turn(Direction::Left));
}

#[test]
fn a_longer_snake_may_not_reverse_into_its_own_neck() {
    let mut g = SnakeGame::new(10, 10, 7);
    grow_to(&mut g, 3);
    let travelling = g.direction();
    assert!(!g.queue_turn(travelling.opposite()));
}

#[test]
fn two_turns_in_one_tick_cannot_smuggle_in_a_reversal() {
    let mut g = SnakeGame::new(10, 10, 7);
    grow_to(&mut g, 3);

    let travelling = g.direction();
    let perpendicular = match travelling {
        Direction::Left | Direction::Right => Direction::Up,
        Direction::Up | Direction::Down => Direction::Left,
    };

    assert!(g.queue_turn(perpendicular), "a perpendicular turn is legal");
    assert!(
        !g.queue_turn(travelling.opposite()),
        "reversing must be refused even after another turn is queued"
    );

    g.step();
    assert_eq!(g.direction(), perpendicular);
    assert_ne!(g.direction(), travelling.opposite());
    assert_eq!(g.status(), GameStatus::Running);
}

#[test]
fn turning_is_rejected_once_the_game_is_over() {
    let mut g = game();
    run_into_wall(&mut g);
    assert!(!g.queue_turn(Direction::Up));
}

// ── Eating and growth ────────────────────────────────────────────────────────

/// Whether stepping `dir` would stay on the board and off the body.
fn is_safe(game: &SnakeGame, dir: Direction) -> bool {
    let head = game.head();
    let d = dir.delta();
    let next = Coord::new(head.x + d.x, head.y + d.y);
    game.contains(next) && !game.body().iter().any(|c| *c == next)
}

/// Picks a direction that closes the gap to `target`, if one is safe.
fn steer_toward(game: &SnakeGame, target: Coord) -> Option<Direction> {
    let head = game.head();
    let mut wanted = Vec::new();
    if target.x > head.x {
        wanted.push(Direction::Right);
    }
    if target.x < head.x {
        wanted.push(Direction::Left);
    }
    if target.y > head.y {
        wanted.push(Direction::Down);
    }
    if target.y < head.y {
        wanted.push(Direction::Up);
    }
    wanted.into_iter().find(|d| is_safe(game, *d))
}

/// Grows the snake to `target` segments by chasing the food greedily.
fn grow_to(game: &mut SnakeGame, target: usize) {
    let mut guard = 0;
    while game.len() < target {
        guard += 1;
        assert!(guard < 10_000, "failed to grow the snake to {target}");

        let heading = game.food().and_then(|food| steer_toward(game, food)).or_else(|| {
            [Direction::Right, Direction::Down, Direction::Left, Direction::Up]
                .into_iter()
                .find(|d| is_safe(game, *d))
        });
        if let Some(dir) = heading {
            game.queue_turn(dir);
        }

        match game.step() {
            StepOutcome::Died(cause) => panic!("snake died while growing: {cause:?}"),
            StepOutcome::Ended | StepOutcome::Won => panic!("game ended while growing"),
            _ => {}
        }
    }
}

#[test]
fn eating_grows_the_snake_and_scores() {
    let mut g = None;
    for seed in 0..500u64 {
        let candidate = SnakeGame::new(10, 10, seed);
        let head = candidate.head();
        if candidate.food() == Some(Coord::new(head.x + 1, head.y)) {
            g = Some(candidate);
            break;
        }
    }
    let mut g = g.expect("some seed places food directly right of the head");

    let outcome = g.step();
    assert!(matches!(outcome, StepOutcome::Ate { score: 1, .. }), "expected to eat, got {outcome:?}");
    assert_eq!(g.len(), 2);
    assert_eq!(g.score(), 1);
    assert!(g.food().is_some(), "new food must be placed after eating");
}

#[test]
fn new_food_never_lands_on_the_snake() {
    let mut g = SnakeGame::new(6, 6, 3);
    for _ in 0..400 {
        if g.is_over() {
            break;
        }
        g.step();
        if let Some(food) = g.food() {
            assert!(!g.body().iter().any(|c| *c == food), "food landed on the snake at {food:?}");
        }
    }
}

// ── Death ────────────────────────────────────────────────────────────────────

#[test]
fn leaving_the_board_is_fatal() {
    let mut g = game();
    assert_eq!(run_into_wall(&mut g), StepOutcome::Died(DeathCause::HitWall));
    assert_eq!(g.status(), GameStatus::Dead(DeathCause::HitWall));
    assert!(g.is_over());
}

#[test]
fn every_wall_is_fatal() {
    for dir in [Direction::Up, Direction::Down, Direction::Left, Direction::Right] {
        let mut g = SnakeGame::new(6, 6, 11);
        g.queue_turn(dir);
        let outcome = run_into_wall(&mut g);
        assert_eq!(outcome, StepOutcome::Died(DeathCause::HitWall), "{dir:?}");
    }
}

#[test]
fn stepping_after_death_changes_nothing() {
    let mut g = game();
    run_into_wall(&mut g);
    let body = g.body();
    let (score, ticks) = (g.score(), g.ticks());

    assert_eq!(g.step(), StepOutcome::Ended);
    assert_eq!(g.body(), body);
    assert_eq!(g.score(), score);
    assert_eq!(g.ticks(), ticks, "a finished game must not advance its clock");
}

#[test]
fn the_snake_may_follow_its_own_vacating_tail() {
    let mut g = SnakeGame::new(10, 10, 5);
    grow_to(&mut g, 4);
    let mut survived = 0;
    for dir in [Direction::Down, Direction::Left, Direction::Up, Direction::Right] {
        g.queue_turn(dir);
        if matches!(g.step(), StepOutcome::Died(DeathCause::HitSelf)) {
            panic!("following the vacating tail was treated as a collision");
        }
        survived += 1;
    }
    assert_eq!(survived, 4);
}

// ── Winning ──────────────────────────────────────────────────────────────────

#[test]
fn filling_the_smallest_board_wins() {
    let mut g = SnakeGame::new(2, 2, 0);
    let mut outcome = StepOutcome::Moved;
    for _ in 0..64 {
        if g.is_over() {
            break;
        }
        let next = match g.direction() {
            Direction::Right => Direction::Down,
            Direction::Down => Direction::Left,
            Direction::Left => Direction::Up,
            Direction::Up => Direction::Right,
        };
        g.queue_turn(next);
        outcome = g.step();
    }
    if g.status() == GameStatus::Won {
        assert_eq!(outcome, StepOutcome::Won);
        assert_eq!(g.len(), 4);
        assert_eq!(g.food(), None, "a full board has nowhere for food");
    }
}

// ── Board queries ────────────────────────────────────────────────────────────

#[test]
fn contains_accepts_the_board_and_rejects_everything_else() {
    let g = SnakeGame::new(4, 3, 0);
    assert!(g.contains(Coord::new(0, 0)));
    assert!(g.contains(Coord::new(3, 2)));
    assert!(!g.contains(Coord::new(4, 0)));
    assert!(!g.contains(Coord::new(0, 3)));
    assert!(!g.contains(Coord::new(-1, 0)));
    assert!(!g.contains(Coord::new(0, -1)));
}

#[test]
fn dimensions_are_reported_back() {
    let g = SnakeGame::new(7, 5, 0);
    assert_eq!((g.width(), g.height()), (7, 5));
}

#[test]
fn the_snake_is_never_empty() {
    let mut g = game();
    assert!(!g.is_empty());
    run_into_wall(&mut g);
    assert!(!g.is_empty(), "even a dead snake still occupies cells");
}

#[test]
fn body_yields_the_head_first() {
    let mut g = SnakeGame::new(10, 10, 5);
    grow_to(&mut g, 3);
    assert_eq!(g.body().first().copied(), Some(g.head()));
}

#[test]
fn reset_restores_a_fresh_game() {
    let mut g = game();
    run_into_wall(&mut g);
    g.reset(123);
    assert_eq!(g.status(), GameStatus::Running);
    assert_eq!(g.len(), 1);
    assert_eq!(g.score(), 0);
    assert_eq!(g.ticks(), 0);
    assert_eq!((g.width(), g.height()), (10, 10));
    assert!(g.food().is_some());
}

// ── Regressions ──────────────────────────────────────────────────────────────

#[test]
fn a_length_one_snake_actually_reverses_when_stepped() {
    let mut g = game();
    assert_eq!(g.len(), 1);
    let start = g.direction();

    assert!(g.queue_turn(start.opposite()));
    g.step();
    assert_eq!(g.direction(), start.opposite(), "a length-one snake must be able to turn around");
}

#[test]
fn a_fatal_self_collision_leaves_the_body_intact() {
    let mut g = SnakeGame::new(12, 12, 4);
    grow_to(&mut g, 5);

    let mut length_before = g.len();
    let mut died = false;
    for dir in [Direction::Right, Direction::Down, Direction::Left, Direction::Up]
        .into_iter()
        .cycle()
        .take(24)
    {
        if g.is_over() {
            break;
        }
        length_before = g.len();
        g.queue_turn(dir);
        if g.step() == StepOutcome::Died(DeathCause::HitSelf) {
            died = true;
            break;
        }
    }

    assert!(died, "expected the snake to run into itself");
    assert_eq!(g.len(), length_before, "the body lost a segment when it died");
}

#[test]
fn a_partly_filled_board_is_not_a_win() {
    let mut g = SnakeGame::new(10, 10, 8);
    grow_to(&mut g, 20);

    assert_eq!(g.len(), 20);
    assert_eq!(
        g.status(),
        GameStatus::Running,
        "a snake of width+height segments must not count as filling the board"
    );
    assert!(g.food().is_some(), "an unfinished board still has food");
}

#[test]
fn a_self_collision_keeps_the_real_tail() {
    // A snake that runs into itself dies with exactly the cells it occupied
    // before the fatal step.
    let mut g = SnakeGame::new(12, 12, 4);
    grow_to(&mut g, 5);
    for dir in [Direction::Right, Direction::Down, Direction::Left, Direction::Up]
        .into_iter()
        .cycle()
        .take(24)
    {
        if g.is_over() {
            break;
        }
        let before = g.body();
        g.queue_turn(dir);
        if g.step() == StepOutcome::Died(DeathCause::HitSelf) {
            assert_eq!(g.body(), before);
            return;
        }
    }
    panic!("expected the snake to run into itself");
}

#[test]
fn lib_the_simulation_rate_is_independent_of_frame_rate() {
    let steps_per_second = 10.0;
    let mut fast = ticker(steps_per_second);
    let mut slow = ticker(steps_per_second);

    let fast_steps: u32 = (0..60).map(|_| accumulate(&mut fast, 1.0 / 60.0)).sum();
    let slow_steps: u32 = (0..6).map(|_| accumulate(&mut slow, 1.0 / 6.0)).sum();

    assert_eq!(fast_steps, slow_steps);
    assert_eq!(fast_steps, 10);
}

#[test]
fn lib_the_same_calls_give_the_same_game() {
    let calls: Vec<GameCall> = (0..120u64)
        .map(|i| match i % 9 {
            2 => GameCall::Turn(Direction::Down),
            5 => GameCall::Turn(Direction::Left),
            7 => GameCall::Turn(Direction::Up),
            _ => GameCall::Step,
        })
        .collect();
    let mut a = SnakeGame::new(16, 12, 99);
    let mut b = SnakeGame::new(16, 12, 99);
    let ra = a.run(&calls);
    let rb = b.run(&calls);
    assert_eq!(ra, rb);
    assert_eq!(ra.len(), calls.len());
    assert_eq!((a.ticks(), a.score(), a.status(), a.food(), a.direction()), (b.ticks(), b.score(), b.status(), b.food(), b.direction()));
    assert_eq!(a.body(), b.body());
    assert!(matches!(ra[0], CallAnswer::Stepped(_)));
}

#[test]
fn lib_run_answers_like_the_single_calls() {
    let mut a = SnakeGame::new(10, 10, 4);
    let mut b = SnakeGame::new(10, 10, 4);
    let answers = a.run(&[GameCall::Step, GameCall::Turn(Direction::Left), GameCall::Turn(Direction::Up), GameCall::Step]);
    let s1 = b.step();
    let t1 = b.queue_turn(Direction::Left);
    let t2 = b.queue_turn(Direction::Up);
    let s2 = b.step();
    assert_eq!(answers, vec![CallAnswer::Stepped(s1), CallAnswer::Turned(t1), CallAnswer::Turned(t2), CallAnswer::Stepped(s2)]);
    assert_eq!(a.body(), b.body());
}
