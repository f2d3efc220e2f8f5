//! Deterministic pseudo-random stream used by terrain generation.
//!
//! Map generation must be a pure function of the configured seed, so the
//! carving and placement steps draw from this xorshift stream instead of an
//! ambient entropy source. Every step of the stream is pinned exactly by the
//! contracts, which is what makes the generator's determinism provable.

use vstd::prelude::*;

verus! {

/// One xorshift round; the exec code computes exactly this.
pub open spec fn next_state(s: u64) -> u64 {
    let a = s ^ (s << 13u64);
    let b = a ^ (a >> 7u64);
    b ^ (b << 17u64)
}

/// The draw taken from a state for a bound `n`: the next state reduced mod `n`.
pub open spec fn draw(s: u64, n: usize) -> int {
    next_state(s) as int % n as int
}

/// Deterministic generator state. The seed is widened to an odd value so the
/// xorshift state is never zero (a zero state would be a fixed point).
pub struct SeedRng {
    state: u64,
}

impl SeedRng {
    pub closed spec fn state(self) -> u64 {
        self.state
    }

    /// The initial state a seed produces.
    pub open spec fn seeded(seed: u32) -> u64 {
        ((seed as u64) << 1u64) | 1u64
    }

    pub fn new(seed: u32) -> (r: SeedRng)
        ensures
            r.state() == Self::seeded(seed),
    {
        SeedRng { state: ((seed as u64) << 1) | 1 }
    }

    /// Draw a value below `n`, advancing the state by one xorshift round.
    pub fn below(&mut self, n: usize) -> (r: usize)
        requires
            n > 0,
        ensures
            r < n,
            r == draw(old(self).state(), n),
            final(self).state() == next_state(old(self).state()),
    {
        let s: u64 = self.state;
        let a: u64 = s ^ (s << 13);
        let b: u64 = a ^ (a >> 7);
        let c: u64 = b ^ (b << 17);
        self.state = c;
        let m: u64 = c % (n as u64);
        assert(m < n as u64);
        m as usize
    }
}

} // verus!
