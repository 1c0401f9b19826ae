//! Turning elapsed real time into whole simulation steps.
//!
//! The accumulator counts whole microseconds, so it is exact: two tickers fed
//! the same time in any grouping agree, which is what replays and lockstep
//! simulation rely on.

use vstd::prelude::*;

verus! {

/// Microseconds in one second, the unit a [`Ticker`] counts in.
pub const MICROS_PER_SECOND: u64 = 1_000_000;

/// Upper bound on the steps one call hands out.
pub const MAX_STEPS_PER_CALL: u32 = 8;

/// A ticker's state as plain values.
pub struct TickerView {
    pub micros_per_step: u64,
    pub accumulated: u64,
}

/// The invariant of a ticker: a step takes time, and less than one step is
/// banked between calls.
pub open spec fn ticker_wf(t: TickerView) -> bool {
    t.micros_per_step > 0 && t.accumulated < t.micros_per_step
}

/// Adding `micros` microseconds: the steps now due (at most
/// [`MAX_STEPS_PER_CALL`]), and the new state. A backlog over the cap is
/// dropped together with its remainder.
pub open spec fn spec_accumulate(t: TickerView, micros: u64) -> (TickerView, u32) {
    let total = if t.accumulated + micros > u64::MAX {
        u64::MAX as int
    } else {
        t.accumulated + micros
    };
    let due = total / (t.micros_per_step as int);
    if due > MAX_STEPS_PER_CALL {
        (TickerView { accumulated: 0, ..t }, MAX_STEPS_PER_CALL)
    } else {
        (
            TickerView { accumulated: (total - due * t.micros_per_step) as u64, ..t },
            due as u32,
        )
    }
}

/// Converts elapsed real time into whole simulation steps.
///
/// Carrying the remainder forward rather than discarding it each frame keeps
/// the game's speed independent of frame rate.
#[derive(Clone, Debug, PartialEq, Eq, Structural)]
pub struct Ticker {
    micros_per_step: u64,
    accumulated: u64,
}

impl View for Ticker {
    type V = TickerView;

    closed spec fn view(&self) -> TickerView {
        TickerView { micros_per_step: self.micros_per_step, accumulated: self.accumulated }
    }
}

impl Ticker {
    /// Upper bound on steps returned from one call.
    pub const MAX_STEPS_PER_CALL: u32 = MAX_STEPS_PER_CALL;

    /// The invariant of the ticker.
    pub open spec fn wf(&self) -> bool {
        ticker_wf(self@)
    }

    /// Creates a ticker whose step takes `micros_per_step` microseconds, with
    /// nothing banked.
    pub fn from_micros_per_step(micros_per_step: u64) -> (t: Ticker)
        requires
            micros_per_step > 0,
        ensures
            t@ == (TickerView { micros_per_step, accumulated: 0 }),
            t.wf(),
    {
        Ticker { micros_per_step, accumulated: 0 }
    }

    /// Adds `micros` microseconds and returns how many steps are now due.
    ///
    /// A long stall would otherwise bank hundreds of steps, so the return value
    /// is capped at [`MAX_STEPS_PER_CALL`] and the surplus is discarded.
    pub fn accumulate_micros(&mut self, micros: u64) -> (steps: u32)
        requires
            old(self).wf(),
        ensures
            (final(self)@, steps) == spec_accumulate(old(self)@, micros),
            final(self).wf(),
            steps <= MAX_STEPS_PER_CALL,
    {
        self.accumulated = self.accumulated.saturating_add(micros);
        let due = self.accumulated / self.micros_per_step;
        let steps: u32 = if due < MAX_STEPS_PER_CALL as u64 {
            due as u32
        } else {
            MAX_STEPS_PER_CALL
        };
        if due > MAX_STEPS_PER_CALL as u64 {
            // Dropped the backlog, so drop the remainder with it rather than
            // paying it out on the next call.
            self.accumulated = 0;
        } else {
            proof {
                vstd::arithmetic::div_mod::lemma_fundamental_div_mod(
                    self.accumulated as int,
                    self.micros_per_step as int,
                );
                vstd::arithmetic::div_mod::lemma_mod_pos_bound(
                    self.accumulated as int,
                    self.micros_per_step as int,
                );
                assert(steps as int * self.micros_per_step as int == self.micros_per_step as int * (
                self.accumulated as int / self.micros_per_step as int)) by (nonlinear_arith)
                    requires
                        steps as int == self.accumulated as int / self.micros_per_step as int,
                ;
            }
            self.accumulated = self.accumulated - steps as u64 * self.micros_per_step;
        }
        steps
    }

    /// Microseconds one step takes.
    pub fn micros_per_step(&self) -> (m: u64)
        ensures
            m == self@.micros_per_step,
    {
        self.micros_per_step
    }

    /// Microseconds banked toward the next step.
    pub fn accumulated_micros(&self) -> (a: u64)
        ensures
            a == self@.accumulated,
    {
        self.accumulated
    }
}

/// Feeding a ticker `a` then `b` microseconds pays out the same steps, and
/// leaves the same remainder, as feeding it `a + b` at once, whenever the
/// combined call stays within the cap.
pub proof fn lemma_accumulate_grouping(t: TickerView, a: u64, b: u64)
    requires
        ticker_wf(t),
        t.accumulated + a + b <= u64::MAX,
        (t.accumulated + a + b) / (t.micros_per_step as int) <= MAX_STEPS_PER_CALL,
    ensures
        ({
            let (t1, s1) = spec_accumulate(t, a);
            let (t2, s2) = spec_accumulate(t1, b);
            let (u, s) = spec_accumulate(t, (a + b) as u64);
            &&& t2 == u
            &&& s1 + s2 == s
        }),
{
    let m = t.micros_per_step as int;
    let acc = t.accumulated as int;
    vstd::arithmetic::div_mod::lemma_div_is_ordered(acc + a, acc + a + b, m);
    let q1 = (acc + a) / m;
    let r1 = (acc + a) % m;
    vstd::arithmetic::div_mod::lemma_fundamental_div_mod(acc + a, m);
    vstd::arithmetic::div_mod::lemma_mod_pos_bound(acc + a, m);
    let q2 = (r1 + b) / m;
    let r2 = (r1 + b) % m;
    vstd::arithmetic::div_mod::lemma_fundamental_div_mod(r1 + b, m);
    vstd::arithmetic::div_mod::lemma_mod_pos_bound(r1 + b, m);
    assert(acc + a + b == (q1 + q2) * m + r2) by (nonlinear_arith)
        requires
            acc + a == m * q1 + r1,
            r1 + b == m * q2 + r2,
    ;
    vstd::arithmetic::div_mod::lemma_fundamental_div_mod_converse(acc + a + b, m, q1 + q2, r2);
    assert(q1 * m == m * q1) by (nonlinear_arith);
    assert(q2 * m == m * q2) by (nonlinear_arith);
    assert((q1 + q2) * m == m * (q1 + q2)) by (nonlinear_arith);
}


/// The microseconds in a list of frame times.
pub open spec fn micros_total(xs: Seq<u64>) -> int
    decreases xs.len(),
{
    if xs.len() == 0 {
        0
    } else {
        micros_total(xs.drop_last()) + xs.last()
    }
}

/// Feeding a ticker the frame times `xs`, one call each, in order: the state
/// it ends in and the steps paid out altogether.
pub open spec fn spec_feed(t: TickerView, xs: Seq<u64>) -> (TickerView, nat)
    decreases xs.len(),
{
    if xs.len() == 0 {
        (t, 0)
    } else {
        let (t1, s1) = spec_feed(t, xs.drop_last());
        let (t2, s2) = spec_accumulate(t1, xs.last());
        (t2, (s1 + s2) as nat)
    }
}

/// Whether no call of the feeding owes more steps than one call pays out,
/// nor banks more than a `u64` holds.
pub open spec fn feed_within_cap(t: TickerView, xs: Seq<u64>) -> bool
    decreases xs.len(),
{
    xs.len() == 0 || (feed_within_cap(t, xs.drop_last()) && ({
        let t1 = spec_feed(t, xs.drop_last()).0;
        &&& t1.accumulated + xs.last() <= u64::MAX
        &&& (t1.accumulated + xs.last()) / (t1.micros_per_step as int) <= MAX_STEPS_PER_CALL
    }))
}

/// Fed within the cap, a ticker pays out exactly the whole steps in the time
/// it banked plus the time it was fed, and banks what is left over.
pub proof fn lemma_feed_exact(t: TickerView, xs: Seq<u64>)
    requires
        ticker_wf(t),
        feed_within_cap(t, xs),
    ensures
        spec_feed(t, xs).0 == (TickerView {
            accumulated: ((t.accumulated + micros_total(xs)) % (t.micros_per_step as int)) as u64,
            ..t
        }),
        spec_feed(t, xs).1 == (t.accumulated + micros_total(xs)) / (t.micros_per_step as int),
    decreases xs.len(),
{
    let m = t.micros_per_step as int;
    let acc = t.accumulated as int;
    if xs.len() == 0 {
        vstd::arithmetic::div_mod::lemma_small_mod(acc as nat, m as nat);
        vstd::arithmetic::div_mod::lemma_basic_div(acc, m);
    } else {
        let init = xs.drop_last();
        let x = xs.last() as int;
        lemma_feed_exact(t, init);
        let a = acc + micros_total(init);
        assert(micros_total(init) >= 0) by {
            lemma_micros_total_nonneg(init);
        }
        let q1 = a / m;
        let r1 = a % m;
        vstd::arithmetic::div_mod::lemma_fundamental_div_mod(a, m);
        vstd::arithmetic::div_mod::lemma_mod_pos_bound(a, m);
        let q2 = (r1 + x) / m;
        let r2 = (r1 + x) % m;
        vstd::arithmetic::div_mod::lemma_fundamental_div_mod(r1 + x, m);
        vstd::arithmetic::div_mod::lemma_mod_pos_bound(r1 + x, m);
        assert(a + x == (q1 + q2) * m + r2) by (nonlinear_arith)
            requires
                a == m * q1 + r1,
                r1 + x == m * q2 + r2,
        ;
        vstd::arithmetic::div_mod::lemma_fundamental_div_mod_converse(a + x, m, q1 + q2, r2);
        assert(q2 * m == m * q2) by (nonlinear_arith);
        assert(micros_total(xs) == micros_total(init) + x);
    }
}

/// Frame times add up to no less than zero.
proof fn lemma_micros_total_nonneg(xs: Seq<u64>)
    ensures
        micros_total(xs) >= 0,
    decreases xs.len(),
{
    if xs.len() > 0 {
        lemma_micros_total_nonneg(xs.drop_last());
    }
}

/// Two tickers fed the same time in any grouping agree: fed within the cap,
/// frame times with the same total pay out the same steps and leave the
/// ticker in the same state.
pub proof fn lemma_any_grouping_agrees(t: TickerView, xs: Seq<u64>, ys: Seq<u64>)
    requires
        ticker_wf(t),
        feed_within_cap(t, xs),
        feed_within_cap(t, ys),
        micros_total(xs) == micros_total(ys),
    ensures
        spec_feed(t, xs) == spec_feed(t, ys),
{
    lemma_feed_exact(t, xs);
    lemma_feed_exact(t, ys);
}

} // verus!
