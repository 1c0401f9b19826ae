//! The deterministic pseudo-random source behind food placement.

use vstd::prelude::*;

verus! {

/// Multiplier of the linear congruential generator.
pub const LCG_MULTIPLIER: u64 = 6364136223846793005;

/// Increment of the linear congruential generator's step.
pub const LCG_INCREMENT: u64 = 1442695040888963407;

/// The state after seeding with `seed`.
pub open spec fn spec_seeded(seed: u64) -> u64 {
    vstd::wrapping::u64_specs::wrapping_add(
        vstd::wrapping::u64_specs::wrapping_mul(seed, LCG_MULTIPLIER),
        1,
    )
}

/// One step of the generator's state.
pub open spec fn spec_advance(state: u64) -> u64 {
    vstd::wrapping::u64_specs::wrapping_add(
        vstd::wrapping::u64_specs::wrapping_mul(state, LCG_MULTIPLIER),
        LCG_INCREMENT,
    )
}

/// The 32-bit output drawn from an already advanced state.
pub open spec fn spec_output(state: u64) -> u32 {
    (state >> 33u64) as u32
}

/// A deterministic pseudo-random source: the whole state is one `u64`.
#[derive(Clone, Debug)]
pub struct Rng {
    state: u64,
}

impl Rng {
    /// The generator's current state.
    pub closed spec fn state(&self) -> u64 {
        self.state
    }

    /// Seeds a generator.
    pub fn new(seed: u64) -> (r: Rng)
        ensures
            r.state() == spec_seeded(seed),
    {
        Rng { state: seed.wrapping_mul(LCG_MULTIPLIER).wrapping_add(1) }
    }

    /// Advances the state and returns the upper bits of the new state.
    pub fn next_u32(&mut self) -> (r: u32)
        ensures
            final(self).state() == spec_advance(old(self).state()),
            r == spec_output(final(self).state()),
    {
        self.state = self.state.wrapping_mul(LCG_MULTIPLIER).wrapping_add(LCG_INCREMENT);
        (self.state >> 33u64) as u32
    }

    /// A value in `0..bound` (in `0..1` when `bound` is zero).
    pub fn below(&mut self, bound: usize) -> (r: usize)
        ensures
            final(self).state() == spec_advance(old(self).state()),
            r == (spec_output(final(self).state()) as int) % (if bound == 0 { 1int } else { bound as int }),
    {
        let b = if bound == 0 { 1 } else { bound };
        (self.next_u32() as usize) % b
    }
}

} // verus!
