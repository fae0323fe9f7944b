//! The session's random source: an explicitly seeded linear congruential
//! generator.  Randomness is an injected dependency of the collapse step,
//! never ambient state, so that a session replays identically from the
//! same seed.

use vstd::prelude::*;

verus! {

/// Multiplier of the linear congruential step.
pub const LCG_MUL: u64 = 6364136223846793005;

/// Increment of the linear congruential step.
pub const LCG_INC: u64 = 1442695040888963407;

/// The successor of a generator state: `state * LCG_MUL + LCG_INC`,
/// truncated to 64 bits.
pub open spec fn next_state(s: u64) -> u64 {
    (((s as int) * (LCG_MUL as int) + (LCG_INC as int)) % 0x1_0000_0000_0000_0000) as u64
}

/// A deterministic, seedable random source.
pub struct SeedRng {
    state: u64,
}

impl View for SeedRng {
    type V = u64;

    /// A generator is its current state.
    closed spec fn view(&self) -> u64 {
        self.state
    }
}

impl SeedRng {
    pub fn new(seed: u64) -> (r: SeedRng)
        ensures
            r@ == seed,
    {
        SeedRng { state: seed }
    }

    /// Advances the state once and returns a draw below `n`.
    pub fn next_below(&mut self, n: usize) -> (r: usize)
        requires
            n >= 1,
        ensures
            final (self)@ == next_state(old(self)@),
            r == next_state(old(self)@) as int % n as int,
            r < n,
    {
        let s: u64 = self.state;
        proof {
            assert((s as int) * (LCG_MUL as int) + (LCG_INC as int)
                < 0x1_0000_0000_0000_0000_0000_0000_0000_0000) by (nonlinear_arith)
                requires
                    0 <= s as int,
                    (s as int) < 0x1_0000_0000_0000_0000,
                    0 <= LCG_MUL as int,
                    (LCG_MUL as int) < 0x1_0000_0000_0000_0000,
                    0 <= LCG_INC as int,
                    (LCG_INC as int) < 0x1_0000_0000_0000_0000,
            ;
        }
        let wide: u128 = (s as u128) * (LCG_MUL as u128) + (LCG_INC as u128);
        let next: u64 = (wide % 0x1_0000_0000_0000_0000u128) as u64;
        self.state = next;
        let r64: u64 = next % (n as u64);
        r64 as usize
    }
}

} // verus!
