//! Recording and replaying a game exactly.
//!
//! A game is fully determined by its board size, its seed, and which turns
//! were queued on which tick, so recording those three reproduces it.
//!
//! The file format is plain text, one directive per line:
//!
//! ```text
//! snake-replay 1
//! board 20 15
//! seed 7
//! turn 5 down
//! turn 12 left
//! ```

use vstd::prelude::*;
use crate::game::{
    SnakeGame, SnakeView, lemma_new_game_wf, lemma_step_keeps_wf, snake_wf, spec_new_game, spec_step, turn_accepted, valid_board,
};
use crate::snake::{Direction, GameStatus};
use crate::text::{
    append_i32, append_u64, chars_of, fmt_i32, fmt_nat, line_spans, lines, parse_i32, parse_i32_span,
    parse_u32, parse_u64, parse_unsigned_span, span_is, span_ok, spans_match, trim, trim_bounds,
    word_spans, words,
};

pub mod fidelity;
pub mod format;

verus! {

/// The format version this build writes.
pub const REPLAY_VERSION: u32 = 1;

/// Why a replay could not be parsed.
#[derive(Debug, Clone, PartialEq, Eq)]
pub enum ReplayError {
    /// The first line was not a `snake-replay <version>` header.
    MissingHeader,
    /// The file declares a format version this build does not understand.
    UnsupportedVersion(u32),
    /// A line was not one of the known directives, or had the wrong shape.
    BadLine {
        /// One-based line number.
        line: usize,
        /// The offending text.
        text: String,
    },
    /// The file parsed but never declared a board size.
    MissingBoard,
    /// The declared board cannot be played: an edge is below the smallest or
    /// above the largest board size.
    InvalidBoard {
        /// The declared width.
        width: i32,
        /// The declared height.
        height: i32,
    },
    /// Turns must be recorded in tick order; this one went backwards.
    OutOfOrderTurn {
        /// The tick that appeared after a later one.
        tick: u64,
    },
}

/// A parse error as plain values.
pub enum ReplayErrorView {
    MissingHeader,
    UnsupportedVersion(u32),
    BadLine { line: usize, text: Seq<char> },
    MissingBoard,
    InvalidBoard { width: i32, height: i32 },
    OutOfOrderTurn { tick: u64 },
}

impl View for ReplayError {
    type V = ReplayErrorView;

    open spec fn view(&self) -> ReplayErrorView {
        match self {
            ReplayError::MissingHeader => ReplayErrorView::MissingHeader,
            ReplayError::UnsupportedVersion(v) => ReplayErrorView::UnsupportedVersion(*v),
            ReplayError::BadLine { line, text } => ReplayErrorView::BadLine {
                line: *line,
                text: text@,
            },
            ReplayError::MissingBoard => ReplayErrorView::MissingBoard,
            ReplayError::InvalidBoard { width, height } => ReplayErrorView::InvalidBoard {
                width: *width,
                height: *height,
            },
            ReplayError::OutOfOrderTurn { tick } => ReplayErrorView::OutOfOrderTurn { tick: *tick },
        }
    }
}

/// What `Debug` formatting gives for a string: the text in double quotes,
/// with the characters `Debug` escapes written as escapes.
pub uninterp spec fn debug_quoted(text: Seq<char>) -> Seq<char>;

/// Formats `text` with `Debug`, as `format!("{:?}", text)` does.
///
/// Trusted: the contract claims only that the result is a function of the
/// text, named `debug_quoted`; what std's `Debug` for `str` writes is not
/// restated here.
#[verifier::external_body]
fn quote_debug(text: &str) -> (r: String)
    ensures
        r@ == debug_quoted(text@),
{
    format!("{:?}", text)
}

/// The sentence for a line that cannot be parsed, given the line's number
/// and its text already quoted.
pub fn bad_line_message(line: usize, quoted: &str) -> (s: String)
    ensures
        s@ == "line "@ + fmt_nat(line as nat) + ": cannot parse "@ + quoted@,
{
    let mut s = String::from_str("line ");
    append_u64(&mut s, line as u64);
    s.append(": cannot parse ");
    s.append(quoted);
    s
}

impl ReplayError {
    /// A sentence describing the error.
    pub fn to_string(&self) -> (s: String)
        ensures
            s@ == spec_describe(self@),
    {
        proof {
            reveal_strlit("not a snake replay: missing header");
            reveal_strlit("unsupported replay version ");
            reveal_strlit("line ");
            reveal_strlit(": cannot parse ");
            reveal_strlit("replay declares no board size");
            reveal_strlit("turn at tick ");
            reveal_strlit(" is out of order");
            reveal_strlit("board ");
            reveal_strlit("x");
            reveal_strlit(" is not a playable size");
        }
        match self {
            ReplayError::MissingHeader => String::from_str("not a snake replay: missing header"),
            ReplayError::UnsupportedVersion(v) => {
                let mut s = String::from_str("unsupported replay version ");
                append_u64(&mut s, *v as u64);
                s
            },
            ReplayError::BadLine { line, text } => {
                let quoted = quote_debug(text.as_str());
                bad_line_message(*line, quoted.as_str())
            },
            ReplayError::MissingBoard => String::from_str("replay declares no board size"),
            ReplayError::InvalidBoard { width, height } => {
                let mut s = String::from_str("board ");
                append_i32(&mut s, *width);
                s.append("x");
                append_i32(&mut s, *height);
                s.append(" is not a playable size");
                s
            },
            ReplayError::OutOfOrderTurn { tick } => {
                let mut s = String::from_str("turn at tick ");
                append_u64(&mut s, *tick);
                s.append(" is out of order");
                s
            },
        }
    }
}

/// The sentence describing an error.
pub open spec fn spec_describe(e: ReplayErrorView) -> Seq<char> {
    match e {
        ReplayErrorView::MissingHeader => "not a snake replay: missing header"@,
        ReplayErrorView::UnsupportedVersion(v) => "unsupported replay version "@ + fmt_nat(v as nat),
        ReplayErrorView::BadLine { line, text } => "line "@ + fmt_nat(line as nat)
            + ": cannot parse "@ + debug_quoted(text),
        ReplayErrorView::MissingBoard => "replay declares no board size"@,
        ReplayErrorView::InvalidBoard { width, height } => "board "@ + fmt_i32(width) + "x"@
            + fmt_i32(height) + " is not a playable size"@,
        ReplayErrorView::OutOfOrderTurn { tick } => "turn at tick "@ + fmt_nat(tick as nat)
            + " is out of order"@,
    }
}

/// A recording as plain values.
pub struct ReplayView {
    pub width: i32,
    pub height: i32,
    pub seed: u64,
    pub turns: Seq<(u64, Direction)>,
}

/// Turns are kept in tick order.
pub open spec fn replay_wf(r: ReplayView) -> bool {
    forall|i: int, j: int| 0 <= i < j < r.turns.len() ==> r.turns[i].0 <= r.turns[j].0
}

/// A recording of a game: everything needed to reproduce it exactly.
#[derive(Debug, Clone, PartialEq, Eq)]
pub struct Replay {
    width: i32,
    height: i32,
    seed: u64,
    /// `(tick, direction)` pairs, in ascending tick order.
    turns: Vec<(u64, Direction)>,
}

impl View for Replay {
    type V = ReplayView;

    closed spec fn view(&self) -> ReplayView {
        ReplayView { width: self.width, height: self.height, seed: self.seed, turns: self.turns@ }
    }
}

/// Recording a turn: a turn at the same tick as the last one replaces it.
pub open spec fn spec_record_turn(r: ReplayView, tick: u64, direction: Direction) -> ReplayView {
    if r.turns.len() > 0 && r.turns.last().0 == tick {
        ReplayView { turns: r.turns.update(r.turns.len() - 1, (tick, direction)), ..r }
    } else {
        ReplayView { turns: r.turns.push((tick, direction)), ..r }
    }
}

/// Queues a turn in a game, as `queue_turn` does.
pub open spec fn spec_queue(g: SnakeView, direction: Direction) -> SnakeView {
    if turn_accepted(g, direction) {
        SnakeView { queued: Some(direction), ..g }
    } else {
        g
    }
}

/// Queues every recorded turn, from `next` on, that is due on the game's
/// current tick; returns the game and the index of the first turn left.
pub open spec fn apply_due_turns(turns: Seq<(u64, Direction)>, g: SnakeView, next: nat) -> (
    SnakeView,
    nat,
)
    decreases turns.len() - next,
{
    if next < turns.len() && turns[next as int].0 == g.ticks {
        apply_due_turns(turns, spec_queue(g, turns[next as int].1), next + 1)
    } else {
        (g, next)
    }
}

/// Plays `n` more ticks: queue the turns due, step; stop once the game ends.
pub open spec fn play_loop(turns: Seq<(u64, Direction)>, g: SnakeView, next: nat, n: nat) -> SnakeView
    decreases n,
{
    if n == 0 || g.status != GameStatus::Running {
        g
    } else {
        let (g1, next1) = apply_due_turns(turns, g, next);
        play_loop(turns, spec_step(g1).0, next1, (n - 1) as nat)
    }
}

/// The game a recording reproduces after `ticks` steps.
pub open spec fn spec_play(r: ReplayView, ticks: nat) -> SnakeView {
    play_loop(r.turns, spec_new_game(r.width, r.height, r.seed), 0, ticks)
}

/// Queuing the turns that are due keeps the game's invariant.
proof fn lemma_apply_due_wf(turns: Seq<(u64, Direction)>, g: SnakeView, next: nat)
    requires
        snake_wf(g),
    ensures
        snake_wf(apply_due_turns(turns, g, next).0),
    decreases turns.len() - next,
{
    if next < turns.len() && turns[next as int].0 == g.ticks {
        lemma_apply_due_wf(turns, spec_queue(g, turns[next as int].1), next + 1);
    }
}

/// Playing on keeps the game's invariant.
proof fn lemma_play_loop_wf(turns: Seq<(u64, Direction)>, g: SnakeView, next: nat, n: nat)
    requires
        snake_wf(g),
    ensures
        snake_wf(play_loop(turns, g, next, n)),
    decreases n,
{
    if n > 0 && g.status == GameStatus::Running {
        let (g1, next1) = apply_due_turns(turns, g, next);
        lemma_apply_due_wf(turns, g, next);
        lemma_step_keeps_wf(g1);
        lemma_play_loop_wf(turns, spec_step(g1).0, next1, (n - 1) as nat);
    }
}

/// Playing back a recording of a playable board, for any number of ticks,
/// gives a game that keeps the invariant: among others, its snake is one
/// longer than its score.
pub proof fn lemma_play_keeps_wf(r: ReplayView, ticks: nat)
    requires
        valid_board(r.width as int, r.height as int),
    ensures
        snake_wf(spec_play(r, ticks)),
        spec_play(r, ticks).body.len() == spec_play(r, ticks).score + 1,
{
    lemma_new_game_wf(r.width, r.height, r.seed);
    lemma_play_loop_wf(r.turns, spec_new_game(r.width, r.height, r.seed), 0, ticks);
}

/// How many ticks `play_out` plays: one past the last recorded turn, plus
/// `extra`, capped at the largest tick count.
pub open spec fn play_out_ticks(r: ReplayView, extra: u64) -> nat {
    let want: int = if r.turns.len() > 0 {
        r.turns.last().0 + 1 + extra
    } else {
        extra as int
    };
    if want > u64::MAX {
        u64::MAX as nat
    } else {
        want as nat
    }
}

impl Replay {
    /// The invariant of a recording.
    pub open spec fn wf(&self) -> bool {
        replay_wf(self@)
    }

    /// Starts an empty recording for a game of this shape.
    pub fn recording(width: i32, height: i32, seed: u64) -> (r: Replay)
        ensures
            r@ == (ReplayView { width, height, seed, turns: Seq::empty() }),
            r.wf(),
    {
        Replay { width, height, seed, turns: Vec::new() }
    }

    /// Records a turn queued at `tick`.
    ///
    /// Pass the game's tick count, before stepping. A turn queued at the same
    /// tick as an earlier one replaces it, matching the live game, where the
    /// last request before a step is the one that counts. A recording is made
    /// in order: `tick` may not precede the last recorded turn.
    pub fn record_turn(&mut self, tick: u64, direction: Direction)
        requires
            old(self).wf(),
            old(self)@.turns.len() > 0 ==> old(self)@.turns.last().0 <= tick,
        ensures
            final(self)@ == spec_record_turn(old(self)@, tick, direction),
            final(self).wf(),
    {
        let n = self.turns.len();
        if n > 0 {
            let last = self.turns[n - 1].0;
            if last == tick {
                self.turns.set(n - 1, (tick, direction));
                return;
            }
        }
        self.turns.push((tick, direction));
    }

    /// Board width in cells.
    pub fn width(&self) -> (w: i32)
        ensures
            w == self@.width,
    {
        self.width
    }

    /// Board height in cells.
    pub fn height(&self) -> (h: i32)
        ensures
            h == self@.height,
    {
        self.height
    }

    /// The seed the recorded game used.
    pub fn seed(&self) -> (s: u64)
        ensures
            s == self@.seed,
    {
        self.seed
    }

    /// The recorded turns, in tick order.
    pub fn turns(&self) -> (t: &[(u64, Direction)])
        ensures
            t@ == self@.turns,
    {
        self.turns.as_slice()
    }

    /// The tick of the last recorded turn, if any.
    pub fn last_turn_tick(&self) -> (t: Option<u64>)
        ensures
            t == (if self@.turns.len() > 0 {
                Some(self@.turns.last().0)
            } else {
                None::<u64>
            }),
    {
        let n = self.turns.len();
        if n > 0 {
            Some(self.turns[n - 1].0)
        } else {
            None
        }
    }

    /// Replays the recording for `ticks` steps and returns the resulting game.
    ///
    /// Stops early if the snake dies, exactly as the live game would.
    pub fn play(&self, ticks: u64) -> (g: SnakeGame)
        requires
            valid_board(self@.width as int, self@.height as int),
        ensures
            g@ == spec_play(self@, ticks as nat),
            g.wf(),
    {
        let mut game = SnakeGame::new(self.width, self.height, self.seed);
        let mut next: usize = 0;
        let mut done: u64 = 0;
        while done < ticks
            invariant
                game.wf(),
                done <= ticks,
                game@.ticks <= done,
                next <= self.turns@.len(),
                spec_play(self@, ticks as nat) == play_loop(
                    self.turns@,
                    game@,
                    next as nat,
                    (ticks - done) as nat,
                ),
            ensures
                game.wf(),
                spec_play(self@, ticks as nat) == game@,
            decreases ticks - done,
        {
            if game.is_over() {
                break;
            }
            let ghost g0 = game@;
            let ghost next0 = next as nat;
            while next < self.turns.len() && self.turns[next].0 == game.ticks()
                invariant
                    game.wf(),
                    game@.ticks == g0.ticks,
                    game@.status == GameStatus::Running,
                    next <= self.turns@.len(),
                    apply_due_turns(self.turns@, g0, next0) == apply_due_turns(
                        self.turns@,
                        game@,
                        next as nat,
                    ),
                decreases self.turns@.len() - next,
            {
                let d = self.turns[next].1;
                game.queue_turn(d);
                next = next + 1;
            }
            proof {
                lemma_step_keeps_wf(game@);
            }
            game.step();
            done = done + 1;
        }
        game
    }

    /// Replays far enough to reach the end of the recording, plus `extra`
    /// steps; a count past the largest tick count stops there.
    pub fn play_out(&self, extra: u64) -> (g: SnakeGame)
        requires
            valid_board(self@.width as int, self@.height as int),
        ensures
            g@ == spec_play(self@, play_out_ticks(self@, extra)),
            g.wf(),
    {
        let base: u64 = match self.last_turn_tick() {
            Some(t) => if t == u64::MAX {
                u64::MAX
            } else {
                t + 1
            },
            None => 0,
        };
        let total: u64 = if base > u64::MAX - extra {
            u64::MAX
        } else {
            base + extra
        };
        self.play(total)
    }
}

} // verus!
