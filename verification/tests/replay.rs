//! Replay recording, playback and the text format.

use tiny_games::game::SnakeGame;
use tiny_games::replay::{Replay, ReplayError};
use tiny_games::snake::{Direction, GameStatus};

/// Plays a game while recording it, returning both so they can be compared.
///
/// This mirrors what a frontend does: record the turn, then queue it.
fn play_and_record(
    width: i32,
    height: i32,
    seed: u64,
    script: &[(u64, Direction)],
    ticks: u64,
) -> (SnakeGame, Replay) {
    let mut game = SnakeGame::new(width, height, seed);
    let mut replay = Replay::recording(width, height, seed);
    for _ in 0..ticks {
        if game.is_over() {
            break;
        }
        for (tick, direction) in script {
            if *tick == game.ticks() {
                replay.record_turn(game.ticks(), *direction);
                game.queue_turn(*direction);
            }
        }
        game.step();
    }
    (game, replay)
}

/// Asserts two games are indistinguishable.
fn assert_same(a: &SnakeGame, b: &SnakeGame) {
    assert_eq!(a.ticks(), b.ticks(), "tick count");
    assert_eq!(a.score(), b.score(), "score");
    assert_eq!(a.status(), b.status(), "status");
    assert_eq!(a.food(), b.food(), "food");
    assert_eq!(a.direction(), b.direction(), "direction");
    assert_eq!(a.body(), b.body(), "body");
}

#[test]
fn a_replay_reproduces_the_game_it_recorded() {
    let script = [
        (3, Direction::Down),
        (7, Direction::Left),
        (11, Direction::Up),
        (18, Direction::Right),
    ];
    let (live, replay) = play_and_record(20, 15, 7, &script, 40);
    assert_same(&live, &replay.play(40));
}

#[test]
fn a_replay_reproduces_a_death_exactly() {
    // The case that matters for bug reports: the recording must reach the same
    // end state, by the same cause, on the same tick.
    let script = [(2, Direction::Up)];
    let (live, replay) = play_and_record(12, 9, 3, &script, 200);
    assert!(live.is_over(), "expected the scripted game to end");
    let replayed = replay.play(200);
    assert_same(&live, &replayed);
    assert!(matches!(replayed.status(), GameStatus::Dead(_)));
}

#[test]
fn replays_are_reproducible_across_many_seeds() {
    let script = [(4, Direction::Down), (9, Direction::Right)];
    for seed in 0..40u64 {
        let (live, replay) = play_and_record(14, 11, seed, &script, 60);
        assert_same(&live, &replay.play(60));
    }
}

#[test]
fn play_out_runs_to_the_end_without_being_told_the_length() {
    let script = [(2, Direction::Down), (6, Direction::Left)];
    let (_, replay) = play_and_record(10, 10, 5, &script, 300);
    let played = replay.play_out(300);
    assert!(played.ticks() > 0);
}

#[test]
fn an_empty_recording_still_replays_the_default_run() {
    let replay = Replay::recording(20, 15, 42);
    let played = replay.play(10);
    let mut direct = SnakeGame::new(20, 15, 42);
    for _ in 0..10 {
        direct.step();
    }
    assert_same(&direct, &played);
}

// ── Text format ──────────────────────────────────────────────────────────────

#[test]
fn text_round_trips() {
    let mut replay = Replay::recording(20, 15, 99);
    replay.record_turn(1, Direction::Up);
    replay.record_turn(4, Direction::Left);
    replay.record_turn(9, Direction::Down);

    let text = replay.to_text();
    assert_eq!(Replay::from_text(&text).unwrap(), replay);
}

#[test]
fn the_text_format_is_readable() {
    let mut replay = Replay::recording(20, 15, 7);
    replay.record_turn(5, Direction::Down);
    let text = replay.to_text();

    assert!(text.starts_with("snake-replay 1\n"), "{text}");
    assert!(text.contains("board 20 15\n"), "{text}");
    assert!(text.contains("seed 7\n"), "{text}");
    assert!(text.contains("turn 5 down\n"), "{text}");
}

#[test]
fn a_parsed_replay_reproduces_the_original_game() {
    // The end-to-end promise: record, serialise, parse, replay, identical.
    let script = [(3, Direction::Down), (8, Direction::Left)];
    let (live, replay) = play_and_record(18, 12, 21, &script, 50);

    let parsed = Replay::from_text(&replay.to_text()).unwrap();
    assert_same(&live, &parsed.play(50));
}

#[test]
fn comments_and_blank_lines_are_ignored() {
    let text = "snake-replay 1\n\
                # recorded from a bug report\n\
                board 20 15\n\
                \n\
                seed 7\n\
                turn 5 down\n";
    let replay = Replay::from_text(text).unwrap();
    assert_eq!(replay.seed(), 7);
    assert_eq!(replay.turns(), [(5, Direction::Down)]);
}

#[test]
fn every_direction_survives_the_round_trip() {
    let mut replay = Replay::recording(10, 10, 0);
    for (tick, dir) in [
        Direction::Up,
        Direction::Down,
        Direction::Left,
        Direction::Right,
    ]
    .into_iter()
    .enumerate()
    {
        replay.record_turn(tick as u64, dir);
    }
    assert_eq!(Replay::from_text(&replay.to_text()).unwrap(), replay);
}

// ── Rejections ───────────────────────────────────────────────────────────────

#[test]
fn a_missing_header_is_rejected() {
    assert_eq!(
        Replay::from_text("board 20 15\n"),
        Err(ReplayError::MissingHeader)
    );
    assert_eq!(Replay::from_text(""), Err(ReplayError::MissingHeader));
}

#[test]
fn a_future_version_is_rejected_rather_than_guessed_at() {
    assert_eq!(
        Replay::from_text("snake-replay 99\nboard 4 4\n"),
        Err(ReplayError::UnsupportedVersion(99))
    );
}

#[test]
fn a_replay_without_a_board_is_rejected() {
    assert_eq!(
        Replay::from_text("snake-replay 1\nseed 3\n"),
        Err(ReplayError::MissingBoard)
    );
}

#[test]
fn a_malformed_line_reports_where() {
    let err = Replay::from_text("snake-replay 1\nboard 20 15\nturn five down\n").unwrap_err();
    match err {
        ReplayError::BadLine { line, ref text } => {
            assert_eq!(line, 3);
            assert!(text.contains("five"));
        }
        other => panic!("expected BadLine, got {other:?}"),
    }
}

#[test]
fn an_unknown_direction_is_rejected() {
    assert!(matches!(
        Replay::from_text("snake-replay 1\nboard 4 4\nturn 1 sideways\n"),
        Err(ReplayError::BadLine { .. })
    ));
}

#[test]
fn turns_recorded_out_of_order_are_rejected_on_parse() {
    assert_eq!(
        Replay::from_text("snake-replay 1\nboard 4 4\nturn 9 up\nturn 2 down\n"),
        Err(ReplayError::OutOfOrderTurn { tick: 2 })
    );
}

#[test]
fn two_turns_on_one_tick_keep_the_last() {
    // Matches the live game, where the last request before a step wins.
    let mut replay = Replay::recording(10, 10, 0);
    replay.record_turn(3, Direction::Up);
    replay.record_turn(3, Direction::Left);
    assert_eq!(replay.turns(), [(3, Direction::Left)]);
}

#[test]
fn errors_describe_themselves() {
    // These surface in a CLI, so they must read as sentences.
    assert!(ReplayError::MissingHeader.to_string().contains("header"));
    assert!(
        ReplayError::UnsupportedVersion(9)
            .to_string()
            .contains("version 9")
    );
    assert!(
        ReplayError::OutOfOrderTurn { tick: 4 }
            .to_string()
            .contains("tick 4")
    );
}

// ── Regressions ──────────────────────────────────────────────────────────────

#[test]
fn a_replay_reports_the_shape_it_was_created_with() {
    let replay = Replay::recording(23, 17, 5);
    assert_eq!(replay.width(), 23);
    assert_eq!(replay.height(), 17);
    assert_eq!(replay.seed(), 5);
    // And the replayed game must actually use them.
    let game = replay.play(1);
    assert_eq!((game.width(), game.height()), (23, 17));
}

#[test]
fn last_turn_tick_reports_the_final_entry() {
    let mut replay = Replay::recording(10, 10, 0);
    assert_eq!(replay.last_turn_tick(), None);
    replay.record_turn(3, Direction::Up);
    assert_eq!(replay.last_turn_tick(), Some(3));
    replay.record_turn(11, Direction::Left);
    assert_eq!(replay.last_turn_tick(), Some(11));
}

#[test]
fn play_out_runs_past_the_last_recorded_turn() {
    let mut replay = Replay::recording(30, 30, 1);
    replay.record_turn(4, Direction::Down);

    // Last turn at tick 4 means 5 ticks to reach it, plus the extra requested.
    assert_eq!(replay.play_out(0).ticks(), 5);
    assert_eq!(replay.play_out(3).ticks(), 8);
    // With no turns at all there is nothing to play out but the extra.
    assert_eq!(Replay::recording(30, 30, 1).play_out(6).ticks(), 6);
}

#[test]
fn a_hand_written_file_may_repeat_a_tick_and_the_last_wins() {
    // `record_turn` merges same-tick entries, so `to_text` never emits a
    // duplicate — but a human editing a bug report might. Parsing accepts it,
    // and playback applies them in order, matching the live game.
    let text = "snake-replay 1\nboard 10 10\nseed 0\nturn 2 down\nturn 2 left\n";
    let replay = Replay::from_text(text).expect("duplicate ticks are legal");
    assert_eq!(replay.turns().len(), 2);

    let played = replay.play(4);
    let mut direct = SnakeGame::new(10, 10, 0);
    for _ in 0..4 {
        if direct.ticks() == 2 {
            direct.queue_turn(Direction::Down);
            direct.queue_turn(Direction::Left);
        }
        direct.step();
    }
    assert_eq!(played.direction(), direct.direction());
}

// ── Further cases ────────────────────────────────────────────────────────────

#[test]
fn a_bad_line_describes_itself_with_the_text_quoted() {
    let err = Replay::from_text("snake-replay 1\nboard 20 15\nturn five down\n").unwrap_err();
    assert_eq!(err.to_string(), "line 3: cannot parse \"turn five down\"");
    let err = Replay::from_text("snake-replay 1\nturn \"x\" up\n").unwrap_err();
    assert_eq!(err.to_string(), "line 2: cannot parse \"turn \\\"x\\\" up\"");
}

#[test]
fn every_error_reads_as_a_sentence() {
    assert_eq!(ReplayError::MissingHeader.to_string(), "not a snake replay: missing header");
    assert_eq!(ReplayError::UnsupportedVersion(9).to_string(), "unsupported replay version 9");
    assert_eq!(ReplayError::MissingBoard.to_string(), "replay declares no board size");
    assert_eq!(ReplayError::OutOfOrderTurn { tick: 4 }.to_string(), "turn at tick 4 is out of order");
}

#[test]
fn a_missing_board_is_reported_after_a_valid_header() {
    assert_eq!(Replay::from_text("snake-replay 1\n"), Err(ReplayError::MissingBoard));
}

#[test]
fn an_unknown_directive_is_a_bad_line() {
    let err = Replay::from_text("snake-replay 1\nboard 4 4\nspeed 9\n").unwrap_err();
    assert_eq!(err, ReplayError::BadLine { line: 3, text: "speed 9".to_string() });
}

#[test]
fn an_unplayable_board_is_rejected() {
    assert_eq!(
        Replay::from_text("snake-replay 1\nboard 0 0\n"),
        Err(ReplayError::InvalidBoard { width: 0, height: 0 })
    );
    assert_eq!(
        Replay::from_text("snake-replay 1\nboard 4097 10\n"),
        Err(ReplayError::InvalidBoard { width: 4097, height: 10 })
    );
    assert_eq!(
        Replay::from_text("snake-replay 1\nboard 10 -3\n"),
        Err(ReplayError::InvalidBoard { width: 10, height: -3 })
    );
    assert_eq!(
        ReplayError::InvalidBoard { width: 0, height: 0 }.to_string(),
        "board 0x0 is not a playable size"
    );
}

#[test]
fn the_largest_and_smallest_boards_are_accepted() {
    let big = Replay::from_text("snake-replay 1\nboard 4096 2\n").unwrap();
    assert_eq!((big.width(), big.height()), (4096, 2));
    let small = Replay::from_text("snake-replay 1\nboard 2 2\nseed 3\n").unwrap();
    let game = small.play(50);
    assert!(game.ticks() >= 1);
}

#[test]
fn playing_out_a_turn_at_the_last_tick_stops_at_the_largest_count() {
    let r = Replay::from_text("snake-replay 1\nboard 6 6\nseed 1\nturn 18446744073709551615 up\n").unwrap();
    let game = r.play_out(20);
    assert!(game.is_over());
    assert_eq!(game.len() as u32, game.score() + 1);
}
