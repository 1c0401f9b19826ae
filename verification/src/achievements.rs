//! Achievements: counters that unlock a named goal once they reach it.

use vstd::prelude::*;
use crate::text::{append_u64, fmt_nat};

verus! {

/// Returns `true` when `progress` has met or exceeded `goal`.
pub fn is_unlocked(progress: u32, goal: u32) -> (r: bool)
    ensures
        r == (progress >= goal),
{
    progress >= goal
}

/// The HUD line for an achievement: `"Name — progress / goal"`, with the
/// progress shown no higher than the goal.
pub open spec fn spec_progress_text(name: Seq<char>, progress: u32, goal: u32) -> Seq<char> {
    let shown = if progress < goal {
        progress
    } else {
        goal
    };
    name + seq![' ', '\u{2014}', ' '] + fmt_nat(shown as nat) + seq![' ', '/', ' '] + fmt_nat(
        goal as nat,
    )
}

/// Formats `"Name — progress / goal"` for the HUD (progress clamped at goal).
pub fn progress_text(name: &str, progress: u32, goal: u32) -> (s: String)
    ensures
        s@ == spec_progress_text(name@, progress, goal),
{
    proof {
        reveal_strlit(" \u{2014} ");
        reveal_strlit(" / ");
    }
    let shown = if progress < goal {
        progress
    } else {
        goal
    };
    let mut out = String::new();
    out.append(name);
    out.append(" \u{2014} ");
    append_u64(&mut out, shown as u64);
    out.append(" / ");
    append_u64(&mut out, goal as u64);
    proof {
        assert(out@ =~= spec_progress_text(name@, progress, goal));
    }
    out
}

/// A single trackable achievement.
pub struct Achievement {
    /// Display name.
    pub name: &'static str,
    /// Counter value at which the achievement unlocks.
    pub goal: u32,
    /// Best progress seen so far.
    pub progress: u32,
    /// Whether the achievement has been unlocked.
    pub unlocked: bool,
}

impl Achievement {
    /// Creates a fresh, locked achievement at zero progress.
    pub fn new(name: &'static str, goal: u32) -> (a: Achievement)
        ensures
            a.name == name,
            a.goal == goal,
            a.progress == 0,
            !a.unlocked,
    {
        Achievement { name, goal, progress: 0, unlocked: false }
    }

    /// Takes in the current value of the achievement's counter: progress
    /// keeps the best value seen, and the achievement unlocks the first time
    /// that reaches the goal. Returns `true` exactly when it unlocked now.
    pub fn observe(&mut self, counter: u32) -> (newly: bool)
        ensures
            final(self).name == old(self).name,
            final(self).goal == old(self).goal,
            final(self).progress == (if counter > old(self).progress {
                counter
            } else {
                old(self).progress
            }),
            newly == (!old(self).unlocked && final(self).progress >= old(self).goal),
            final(self).unlocked == (old(self).unlocked || newly),
    {
        if counter > self.progress {
            self.progress = counter;
        }
        if !self.unlocked && is_unlocked(self.progress, self.goal) {
            self.unlocked = true;
            return true;
        }
        false
    }
}

/// Progress never goes back, an unlocked achievement stays unlocked, and an
/// achievement that was unlocked exactly when its progress met its goal
/// stays that way after any counter value.
pub proof fn lemma_observe_is_monotone(
    progress: u32,
    goal: u32,
    unlocked: bool,
    counter: u32,
    progress2: u32,
    unlocked2: bool,
)
    requires
        progress2 == (if counter > progress {
            counter
        } else {
            progress
        }),
        unlocked2 == (unlocked || (!unlocked && progress2 >= goal)),
    ensures
        progress2 >= progress,
        progress2 >= counter,
        unlocked ==> unlocked2,
        (unlocked <==> progress >= goal) ==> (unlocked2 <==> progress2 >= goal),
{
}

} // verus!
