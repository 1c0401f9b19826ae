//! The plain-value parts of Breakout: what the player asks of the paddle,
//! where a game stands, and what one step did.

use vstd::prelude::*;
use crate::text::{append_u64, fmt_nat};

verus! {

/// Which way the player is pushing the paddle this step.
#[derive(Clone, Copy, Debug, PartialEq, Eq, Structural, Default)]
pub enum PaddleInput {
    /// No input; the paddle holds position.
    #[default]
    Hold,
    /// Move left.
    Left,
    /// Move right.
    Right,
}

/// Where a game stands.
#[derive(Clone, Copy, Debug, PartialEq, Eq, Structural)]
pub enum GameStatus {
    /// Still playing.
    Playing,
    /// Every brick destroyed.
    Won,
    /// No lives left.
    Lost,
}

/// What one step did, so a frontend can react.
#[derive(Clone, Copy, Debug, PartialEq, Eq, Structural, Default)]
pub struct StepOutcome {
    /// The ball bounced off a wall or the ceiling.
    pub hit_wall: bool,
    /// The ball bounced off the paddle.
    pub hit_paddle: bool,
    /// Index of the brick hit, if any.
    pub hit_brick: Option<usize>,
    /// A brick was destroyed outright this step.
    pub broke_brick: bool,
    /// The ball was lost and a life spent.
    pub lost_life: bool,
    /// The game ended this step.
    pub finished: bool,
}

/// The event a step's sound announces, loudest news first.
#[derive(Clone, Copy, Debug, PartialEq, Eq, Structural)]
pub enum Sound {
    /// The ball was lost: the low, long note.
    LifeLost,
    /// A brick was destroyed.
    BrickBroken,
    /// A brick was hit and survived.
    BrickHit,
    /// The ball bounced off the paddle.
    PaddleHit,
    /// The ball bounced off a wall or the ceiling.
    WallHit,
}

/// The sound a step should make, if any: a lost life outranks a broken
/// brick, which outranks a brick that survived, then the paddle, then a
/// wall.
pub open spec fn spec_sound_event(o: StepOutcome) -> Option<Sound> {
    if o.lost_life {
        Some(Sound::LifeLost)
    } else if o.broke_brick {
        Some(Sound::BrickBroken)
    } else if o.hit_brick is Some {
        Some(Sound::BrickHit)
    } else if o.hit_paddle {
        Some(Sound::PaddleHit)
    } else if o.hit_wall {
        Some(Sound::WallHit)
    } else {
        None
    }
}

/// The event a step's sound should announce, if any.
pub fn sound_event(outcome: &StepOutcome) -> (s: Option<Sound>)
    ensures
        s == spec_sound_event(*outcome),
{
    if outcome.lost_life {
        Some(Sound::LifeLost)
    } else if outcome.broke_brick {
        Some(Sound::BrickBroken)
    } else if outcome.hit_brick.is_some() {
        Some(Sound::BrickHit)
    } else if outcome.hit_paddle {
        Some(Sound::PaddleHit)
    } else if outcome.hit_wall {
        Some(Sound::WallHit)
    } else {
        None
    }
}

/// The heads-up line: score and lives while playing, with the launch prompt
/// while the ball waits on the paddle and the bricks left once it flies;
/// the final score once the game has ended.
pub open spec fn spec_status_line(status: GameStatus, ball_stuck: bool, score: u32, lives: u32, bricks: usize) -> Seq<char> {
    match status {
        GameStatus::Playing => if ball_stuck {
            "Score "@ + fmt_nat(score as nat) + "   Lives "@ + fmt_nat(lives as nat) + "  -  Space to launch"@
        } else {
            "Score "@ + fmt_nat(score as nat) + "   Lives "@ + fmt_nat(lives as nat) + "   Bricks "@ + fmt_nat(
                bricks as nat,
            )
        },
        GameStatus::Won => "Cleared! Score "@ + fmt_nat(score as nat) + ".  R to restart"@,
        GameStatus::Lost => "Game over. Score "@ + fmt_nat(score as nat) + ".  R to restart"@,
    }
}

/// The heads-up line for a game in the given state.
pub fn status_line(status: GameStatus, ball_stuck: bool, score: u32, lives: u32, bricks_remaining: usize) -> (s: String)
    ensures
        s@ == spec_status_line(status, ball_stuck, score, lives, bricks_remaining),
{
    let mut out = String::new();
    match status {
        GameStatus::Playing => {
            out.append("Score ");
            append_u64(&mut out, score as u64);
            out.append("   Lives ");
            append_u64(&mut out, lives as u64);
            if ball_stuck {
                out.append("  -  Space to launch");
            } else {
                out.append("   Bricks ");
                append_u64(&mut out, bricks_remaining as u64);
            }
        },
        GameStatus::Won => {
            out.append("Cleared! Score ");
            append_u64(&mut out, score as u64);
            out.append(".  R to restart");
        },
        GameStatus::Lost => {
            out.append("Game over. Score ");
            append_u64(&mut out, score as u64);
            out.append(".  R to restart");
        },
    }
    proof {
        assert(out@ =~= spec_status_line(status, ball_stuck, score, lives, bricks_remaining));
    }
    out
}

/// Points for hitting a brick.
pub const HIT_POINTS: u32 = 10;

/// Extra points for destroying one.
pub const BREAK_BONUS: u32 = 15;

/// A brick is hit: it loses a hit point and the hit scores, with a bonus
/// when that destroys it. Returns the brick's hits left, the new score, and
/// whether it broke.
pub fn hit_brick(hits: u8, score: u32) -> (r: (u8, u32, bool))
    requires
        hits > 0,
        score + HIT_POINTS + (if hits == 1 {
            BREAK_BONUS
        } else {
            0
        }) <= u32::MAX,
    ensures
        r.0 == hits - 1,
        r.2 == (r.0 == 0),
        r.1 == score + HIT_POINTS + (if r.2 {
            BREAK_BONUS
        } else {
            0
        }),
{
    let left = hits - 1;
    let mut total = score + HIT_POINTS;
    let broke = left == 0;
    if broke {
        total = total + BREAK_BONUS;
    }
    (left, total, broke)
}

/// The ball falls past the paddle: a life is spent (never below zero), and
/// the game is lost when none remain. Returns the lives left and whether the
/// game is now lost.
pub fn lose_life(lives: u32) -> (r: (u32, bool))
    ensures
        r.0 == (if lives > 0 {
            lives - 1
        } else {
            0
        }),
        r.1 == (r.0 == 0),
{
    let left = lives.saturating_sub(1);
    (left, left == 0)
}

/// Where a game stands after a step: a game still playing is won once no
/// brick stands; an ended game stays as it is.
pub fn status_after_step(status: GameStatus, bricks_remaining: usize) -> (r: GameStatus)
    ensures
        r == (if status == GameStatus::Playing && bricks_remaining == 0 {
            GameStatus::Won
        } else {
            status
        }),
{
    match status {
        GameStatus::Playing => if bricks_remaining == 0 {
            GameStatus::Won
        } else {
            GameStatus::Playing
        },
        other => other,
    }
}

} // verus!
