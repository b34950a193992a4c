//! A small seedable pseudo-random generator.
//!
//! Randomness is injected into the generators as an explicit value rather
//! than drawn from an ambient runtime source, so that maze and level
//! generation are deterministic for a given seed.  No contract constrains
//! which numbers come out, only their range: every caller must be correct
//! for every outcome.

use vstd::prelude::*;

verus! {

/// Xorshift-style generator state.  The state is kept odd so that the
/// shift-xor step never gets stuck at zero.
pub struct Rng {
    state: u64,
}

impl Rng {
    /// A generator seeded from a caller-chosen value.
    pub fn seeded(seed: u64) -> Rng {
        Rng { state: seed | 1 }
    }

    /// The next raw 64-bit draw.
    pub fn next_u64(&mut self) -> u64 {
        let mut z: u64 = self.state;
        z = z ^ (z << 13);
        z = z ^ (z >> 7);
        z = z ^ (z << 17);
        self.state = z | 1;
        z
    }

    /// A draw in `[0, bound)`.
    pub fn next_below(&mut self, bound: usize) -> (r: usize)
        requires
            bound >= 1,
        ensures
            r < bound,
    {
        let z = self.next_u64();
        (z % (bound as u64)) as usize
    }

    /// A draw of an unbiased-enough boolean.
    pub fn next_bool(&mut self) -> bool {
        let z = self.next_u64();
        (z >> 32) % 2 == 0
    }
}

} // verus!
