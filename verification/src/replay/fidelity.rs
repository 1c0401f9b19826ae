//! A recording made alongside a live game reproduces it.

use vstd::prelude::*;
use super::{
    ReplayView, apply_due_turns, play_loop, replay_wf, spec_play, spec_queue, spec_record_turn,
};
use crate::game::{
    SnakeView, lemma_new_game_wf, lemma_step_keeps_wf, lemma_step_ticks, snake_wf, spec_new_game,
    spec_step, valid_board,
};
use crate::snake::{Direction, GameStatus};

verus! {

/// Ticks that strictly increase: at most one scripted turn per tick.
pub open spec fn strictly_increasing(script: Seq<(u64, Direction)>) -> bool {
    forall|i: int, j: int| 0 <= i < j < script.len() ==> script[i].0 < script[j].0
}

/// One tick of a live session before its step: every scripted turn due now,
/// from index `k` on, is recorded and then queued.
pub open spec fn live_apply(script: Seq<(u64, Direction)>, k: int, g: SnakeView, rec: ReplayView) -> (
    SnakeView,
    ReplayView,
)
    decreases script.len() - k,
{
    if k < 0 || k >= script.len() {
        (g, rec)
    } else if script[k].0 == g.ticks {
        live_apply(
            script,
            k + 1,
            spec_queue(g, script[k].1),
            spec_record_turn(rec, g.ticks, script[k].1),
        )
    } else {
        live_apply(script, k + 1, g, rec)
    }
}

/// A live session of `n` ticks: record and queue what is due, step; stop once
/// the game ends.
pub open spec fn live_loop(script: Seq<(u64, Direction)>, g: SnakeView, rec: ReplayView, n: nat) -> (
    SnakeView,
    ReplayView,
)
    decreases n,
{
    if n == 0 || g.status != GameStatus::Running {
        (g, rec)
    } else {
        let (g1, rec1) = live_apply(script, 0, g, rec);
        live_loop(script, spec_step(g1).0, rec1, (n - 1) as nat)
    }
}

/// A live session from a fresh game and an empty recording.
pub open spec fn live_session(width: i32, height: i32, seed: u64, script: Seq<(u64, Direction)>, n: nat) -> (
    SnakeView,
    ReplayView,
) {
    live_loop(
        script,
        spec_new_game(width, height, seed),
        ReplayView { width, height, seed, turns: Seq::empty() },
        n,
    )
}

/// With strictly increasing ticks, at most one scripted turn is due on a
/// tick: it is recorded and queued, and nothing else changes.
proof fn lemma_live_apply(script: Seq<(u64, Direction)>, k: int, g: SnakeView, rec: ReplayView)
    requires
        strictly_increasing(script),
        0 <= k <= script.len(),
    ensures
        ({
            let r = live_apply(script, k, g, rec);
            if exists|j: int| k <= j < script.len() && script[j].0 == g.ticks {
                let j = choose|j: int| k <= j < script.len() && script[j].0 == g.ticks;
                r == (spec_queue(g, script[j].1), spec_record_turn(rec, g.ticks, script[j].1))
            } else {
                r == (g, rec)
            }
        }),
    decreases script.len() - k,
{
    if k < script.len() {
        if script[k].0 == g.ticks {
            let g1 = spec_queue(g, script[k].1);
            let rec1 = spec_record_turn(rec, g.ticks, script[k].1);
            assert(g1.ticks == g.ticks);
            lemma_live_apply(script, k + 1, g1, rec1);
            assert(!exists|j: int| k + 1 <= j < script.len() && script[j].0 == g1.ticks);
            let j = choose|j: int| k <= j < script.len() && script[j].0 == g.ticks;
            assert(j == k);
        } else {
            lemma_live_apply(script, k + 1, g, rec);
        }
    }
}

/// The simulation argument: from any point of a live session whose recording
/// so far holds only earlier ticks, playing the final recording from the same
/// game and recording position reaches the same game.
proof fn lemma_live_replay(script: Seq<(u64, Direction)>, g: SnakeView, rec: ReplayView, n: nat)
    requires
        strictly_increasing(script),
        snake_wf(g),
        g.ticks + n <= u64::MAX,
        forall|i: int| 0 <= i < rec.turns.len() ==> #[trigger] rec.turns[i].0 < g.ticks,
        replay_wf(rec),
    ensures
        ({
            let (gf, recf) = live_loop(script, g, rec, n);
            &&& recf.turns.len() >= rec.turns.len()
            &&& recf.turns.take(rec.turns.len() as int) == rec.turns
            &&& forall|i: int|
                rec.turns.len() <= i < recf.turns.len() ==> #[trigger] recf.turns[i].0 >= g.ticks
            &&& replay_wf(recf)
            &&& (recf.width, recf.height, recf.seed) == (rec.width, rec.height, rec.seed)
            &&& play_loop(recf.turns, g, rec.turns.len(), n) == gf
        }),
    decreases n,
{
    if n == 0 || g.status != GameStatus::Running {
        assert(rec.turns.take(rec.turns.len() as int) =~= rec.turns);
    } else {
        lemma_live_apply(script, 0, g, rec);
        let (g1, rec1) = live_apply(script, 0, g, rec);
        let matched = exists|j: int| 0 <= j < script.len() && script[j].0 == g.ticks;
        if matched {
            let j = choose|j: int| 0 <= j < script.len() && script[j].0 == g.ticks;
            let d = script[j].1;
            assert(rec.turns.len() > 0 ==> rec.turns.last().0 < g.ticks) by {
                if rec.turns.len() > 0 {
                    assert(rec.turns[rec.turns.len() - 1].0 < g.ticks);
                }
            }
            assert(rec1.turns == rec.turns.push((g.ticks, d)));
        } else {
            assert(rec1 == rec);
        }
        assert(g1.ticks == g.ticks);
        assert(snake_wf(g1));
        lemma_step_keeps_wf(g1);
        lemma_step_ticks(g1);
        let g2 = spec_step(g1).0;
        assert(g2.ticks == g.ticks + 1);
        assert forall|i: int| 0 <= i < rec1.turns.len() implies #[trigger] rec1.turns[i].0
            < g2.ticks by {
            if i < rec.turns.len() {
                if matched {
                    assert(rec1.turns[i] == rec.turns[i]);
                }
            }
        }
        assert(replay_wf(rec1)) by {
            if matched {
                assert forall|a: int, b: int| 0 <= a < b < rec1.turns.len() implies rec1.turns[a].0
                    <= rec1.turns[b].0 by {
                    if b < rec.turns.len() {
                        assert(rec1.turns[a] == rec.turns[a]);
                        assert(rec1.turns[b] == rec.turns[b]);
                    } else {
                        assert(rec1.turns[a] == rec.turns[a]);
                    }
                }
            }
        }
        lemma_live_replay(script, g2, rec1, (n - 1) as nat);
        let (gf, recf) = live_loop(script, g2, rec1, (n - 1) as nat);
        assert(live_loop(script, g, rec, n) == (gf, recf));
        // The final recording extends the current one.
        assert(recf.turns.take(rec.turns.len() as int) =~= rec.turns) by {
            assert(recf.turns.take(rec1.turns.len() as int) == rec1.turns);
            assert forall|i: int| 0 <= i < rec.turns.len() implies recf.turns[i] == rec.turns[i] by {
                assert(recf.turns.take(rec1.turns.len() as int)[i] == rec1.turns[i]);
                if matched {
                    assert(rec1.turns[i] == rec.turns[i]);
                }
            }
        }
        assert forall|i: int| rec.turns.len() <= i < recf.turns.len() implies #[trigger] recf.turns[i].0
            >= g.ticks by {
            if i >= rec1.turns.len() {
                assert(recf.turns[i].0 >= g2.ticks);
            } else {
                assert(recf.turns.take(rec1.turns.len() as int)[i] == rec1.turns[i]);
            }
        }
        // Playing the final recording queues exactly what the session queued.
        let next = rec.turns.len();
        if matched {
            let j = choose|j: int| 0 <= j < script.len() && script[j].0 == g.ticks;
            let d = script[j].1;
            assert(recf.turns.take(rec1.turns.len() as int)[next as int] == rec1.turns[next as int]);
            assert(recf.turns[next as int] == (g.ticks, d));
            let gq = spec_queue(g, d);
            assert(gq.ticks == g.ticks);
            if next + 1 < recf.turns.len() {
                assert(recf.turns[next + 1int].0 >= g2.ticks);
            }
            assert(apply_due_turns(recf.turns, gq, next + 1) == (gq, next + 1));
            assert(apply_due_turns(recf.turns, g, next) == (g1, rec1.turns.len()));
        } else {
            if next < recf.turns.len() {
                assert(recf.turns[next as int].0 >= g2.ticks);
            }
            assert(apply_due_turns(recf.turns, g, next) == (g1, rec1.turns.len()));
        }
    }
}

/// A replay recorded alongside a live game reproduces it: when every turn is
/// recorded at the tick it is queued, with at most one turn per tick, playing
/// the recording for as many ticks as the session ran gives the same game.
pub proof fn lemma_replay_reproduces_live_game(
    width: i32,
    height: i32,
    seed: u64,
    script: Seq<(u64, Direction)>,
    n: nat,
)
    requires
        valid_board(width as int, height as int),
        strictly_increasing(script),
        n <= u64::MAX,
    ensures
        ({
            let (g, rec) = live_session(width, height, seed, script, n);
            &&& replay_wf(rec)
            &&& spec_play(rec, n) == g
        }),
{
    lemma_new_game_wf(width, height, seed);
    reveal(spec_new_game);
    let rec = ReplayView { width, height, seed, turns: Seq::empty() };
    lemma_live_replay(script, spec_new_game(width, height, seed), rec, n);
}

} // verus!
