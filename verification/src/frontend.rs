//! What the game frontends share: turning keys into game input, and the
//! Snake status line.

use vstd::prelude::*;
use crate::breakout::PaddleInput;
use crate::game::SnakeGame;
use crate::snake::{DeathCause, Direction, GameStatus};
use crate::text::{append_u64, fmt_nat, is_digit, lemma_fmt_nat};

verus! {

/// The steering request for this frame's arrow keys, checked in a fixed
/// order (up, down, left, right) so that two keys pressed together resolve
/// the same way every time.
pub open spec fn spec_direction_from_keys(up: bool, down: bool, left: bool, right: bool) -> Option<Direction> {
    if up {
        Some(Direction::Up)
    } else if down {
        Some(Direction::Down)
    } else if left {
        Some(Direction::Left)
    } else if right {
        Some(Direction::Right)
    } else {
        None
    }
}

/// The steering request for the keys pressed this frame, if any.
pub fn direction_from_keys(up: bool, down: bool, left: bool, right: bool) -> (d: Option<Direction>)
    ensures
        d == spec_direction_from_keys(up, down, left, right),
{
    if up {
        Some(Direction::Up)
    } else if down {
        Some(Direction::Down)
    } else if left {
        Some(Direction::Left)
    } else if right {
        Some(Direction::Right)
    } else {
        None
    }
}

/// A key, as the frontends read it.
#[derive(Clone, Copy, Debug, PartialEq, Eq, Structural)]
pub enum Key {
    Up,
    Down,
    Left,
    Right,
    W,
    A,
    S,
    D,
    R,
    Space,
    Escape,
    /// Any key the games give no meaning to.
    Other,
}

/// The direction a key steers: arrows and WASD alike.
pub open spec fn spec_direction_from_key(key: Key) -> Option<Direction> {
    match key {
        Key::Up | Key::W => Some(Direction::Up),
        Key::Down | Key::S => Some(Direction::Down),
        Key::Left | Key::A => Some(Direction::Left),
        Key::Right | Key::D => Some(Direction::Right),
        _ => None,
    }
}

/// The direction a key steers, if it steers at all.
pub fn direction_from_key(key: Key) -> (d: Option<Direction>)
    ensures
        d == spec_direction_from_key(key),
{
    match key {
        Key::Up | Key::W => Some(Direction::Up),
        Key::Down | Key::S => Some(Direction::Down),
        Key::Left | Key::A => Some(Direction::Left),
        Key::Right | Key::D => Some(Direction::Right),
        _ => None,
    }
}

/// Which way the paddle is pushed: holding both directions, or neither,
/// holds it still.
pub fn paddle_input_from_keys(left: bool, right: bool) -> (p: PaddleInput)
    ensures
        p == (if left && !right {
            PaddleInput::Left
        } else if right && !left {
            PaddleInput::Right
        } else {
            PaddleInput::Hold
        }),
{
    match (left, right) {
        (true, false) => PaddleInput::Left,
        (false, true) => PaddleInput::Right,
        _ => PaddleInput::Hold,
    }
}

/// How a cause of death is named.
pub open spec fn cause_name(cause: DeathCause) -> Seq<char> {
    match cause {
        DeathCause::HitWall => "HitWall"@,
        DeathCause::HitSelf => "HitSelf"@,
    }
}

/// The Snake status line: score and length while running, the cause of
/// death or the win with the restart hint once over.
pub open spec fn spec_status_line(status: GameStatus, score: u32, len: nat) -> Seq<char> {
    match status {
        GameStatus::Running => "Score "@ + fmt_nat(score as nat) + "   Length "@ + fmt_nat(len),
        GameStatus::Dead(cause) => "Score "@ + fmt_nat(score as nat) + " - died: "@ + cause_name(cause)
            + ".  R to restart"@,
        GameStatus::Won => "Board full! Score "@ + fmt_nat(score as nat) + ".  R to restart"@,
    }
}

/// The status line for the current game state.
pub fn status_line(game: &SnakeGame) -> (s: String)
    ensures
        s@ == spec_status_line(game@.status, game@.score, game@.body.len()),
{
    let mut out = String::new();
    match game.status() {
        GameStatus::Running => {
            out.append("Score ");
            append_u64(&mut out, game.score() as u64);
            out.append("   Length ");
            append_u64(&mut out, game.len() as u64);
        },
        GameStatus::Dead(cause) => {
            out.append("Score ");
            append_u64(&mut out, game.score() as u64);
            out.append(" - died: ");
            match cause {
                DeathCause::HitWall => out.append("HitWall"),
                DeathCause::HitSelf => out.append("HitSelf"),
            }
            out.append(".  R to restart");
        },
        GameStatus::Won => {
            out.append("Board full! Score ");
            append_u64(&mut out, game.score() as u64);
            out.append(".  R to restart");
        },
    }
    proof {
        assert(out@ =~= spec_status_line(game@.status, game@.score, game@.body.len()));
    }
    out
}


/// The status line tells the game's state apart: for one score, a running
/// game, a win, and each cause of death give different lines, so the line
/// of a finished game names how it ended. Two games whose lines agree, at the
/// same score, stand alike: running, won, or dead of the same cause.
pub proof fn lemma_status_line_names_the_state(st1: GameStatus, st2: GameStatus, score: u32, len1: nat, len2: nat)
    requires
        spec_status_line(st1, score, len1) == spec_status_line(st2, score, len2),
    ensures
        st1 == st2,
{
    reveal_strlit("Score ");
    reveal_strlit("   Length ");
    reveal_strlit(" - died: ");
    reveal_strlit("HitWall");
    reveal_strlit("HitSelf");
    reveal_strlit(".  R to restart");
    reveal_strlit("Board full! Score ");
    let f = fmt_nat(score as nat);
    let n = f.len() as int;
    let l1 = spec_status_line(st1, score, len1);
    let l2 = spec_status_line(st2, score, len2);
    // What stands at the start, after the score, and at the fourth letter
    // of the cause.
    assert(l1[0] == (if st1 == GameStatus::Won { 'B' } else { 'S' }));
    assert(l2[0] == (if st2 == GameStatus::Won { 'B' } else { 'S' }));
    if st1 != GameStatus::Won && st2 != GameStatus::Won {
        assert(l1[6 + n + 1] == (if st1 == GameStatus::Running { ' ' } else { '-' }));
        assert(l2[6 + n + 1] == (if st2 == GameStatus::Running { ' ' } else { '-' }));
        if let GameStatus::Dead(c1) = st1 {
            if let GameStatus::Dead(c2) = st2 {
                assert(l1[6 + n + 12] == cause_name(c1)[3]);
                assert(l2[6 + n + 12] == cause_name(c2)[3]);
            }
        }
    }
}

/// What comes before the score in a status line.
spec fn status_prefix(status: GameStatus) -> Seq<char> {
    if status == GameStatus::Won {
        "Board full! Score "@
    } else {
        "Score "@
    }
}

/// What follows the score in a status line.
spec fn status_rest(status: GameStatus, len: nat) -> Seq<char> {
    match status {
        GameStatus::Running => "   Length "@ + fmt_nat(len),
        GameStatus::Dead(cause) => " - died: "@ + cause_name(cause) + ".  R to restart"@,
        GameStatus::Won => ".  R to restart"@,
    }
}

/// A status line is its prefix, the score's digits, and the rest, which
/// starts with something other than a digit.
proof fn lemma_status_line_split(status: GameStatus, score: u32, len: nat)
    ensures
        spec_status_line(status, score, len) == status_prefix(status) + fmt_nat(score as nat) + status_rest(
            status,
            len,
        ),
        status_prefix(status).len() == (if status == GameStatus::Won { 18int } else { 6int }),
        status_rest(status, len).len() > 0,
        !is_digit(status_rest(status, len)[0]),
{
    reveal_strlit("Score ");
    reveal_strlit("   Length ");
    reveal_strlit(" - died: ");
    reveal_strlit(".  R to restart");
    reveal_strlit("Board full! Score ");
    assert(spec_status_line(status, score, len) =~= status_prefix(status) + fmt_nat(score as nat)
        + status_rest(status, len));
}

/// A status line can be read back: two lines that agree come from games in
/// the same state with the same score, and, while running, snakes of the
/// same length.
pub proof fn lemma_status_line_reads_back(
    st1: GameStatus,
    score1: u32,
    len1: nat,
    st2: GameStatus,
    score2: u32,
    len2: nat,
)
    requires
        spec_status_line(st1, score1, len1) == spec_status_line(st2, score2, len2),
    ensures
        st1 == st2,
        score1 == score2,
        st1 == GameStatus::Running ==> len1 == len2,
{
    reveal_strlit("Score ");
    reveal_strlit("Board full! Score ");
    let line = spec_status_line(st1, score1, len1);
    lemma_status_line_split(st1, score1, len1);
    lemma_status_line_split(st2, score2, len2);
    let f1 = fmt_nat(score1 as nat);
    let f2 = fmt_nat(score2 as nat);
    lemma_fmt_nat(score1 as nat);
    lemma_fmt_nat(score2 as nat);
    assert(line[0] == (if st1 == GameStatus::Won { 'B' } else { 'S' }));
    assert(line[0] == (if st2 == GameStatus::Won { 'B' } else { 'S' }));
    let k: int = if st1 == GameStatus::Won { 18 } else { 6 };
    let r1 = status_rest(st1, len1);
    let r2 = status_rest(st2, len2);
    assert(line == status_prefix(st2) + f2 + r2);
    assert forall|i: int| 0 <= i < f1.len() implies line[k + i] == f1[i] by {
        assert(line[k + i] == (status_prefix(st1) + f1 + r1)[k + i]);
    }
    assert forall|i: int| 0 <= i < f2.len() implies line[k + i] == f2[i] by {
        assert(line[k + i] == (status_prefix(st2) + f2 + r2)[k + i]);
    }
    assert(line[k + f1.len()] == r1[0]);
    assert(line[k + f2.len()] == r2[0]);
    if f1.len() < f2.len() {
        assert(is_digit(f2[f1.len() as int]));
        assert(false);
    }
    if f2.len() < f1.len() {
        assert(is_digit(f1[f2.len() as int]));
        assert(false);
    }
    assert(f1 =~= f2);
    assert(score1 == score2);
    lemma_status_line_names_the_state(st1, st2, score1, len1, len2);
    if st1 == GameStatus::Running {
        reveal_strlit("   Length ");
        let m = k + f1.len() + 10;
        assert(line.subrange(m, line.len() as int) =~= fmt_nat(len1));
        assert((status_prefix(st2) + f2 + r2).subrange(m, line.len() as int) =~= fmt_nat(len2));
        lemma_fmt_nat(len1);
        lemma_fmt_nat(len2);
    }
}
} // verus!
