//! Deterministic `SplitMix64` generator.
//!
//! A single 64-bit state, seeded once at index creation: the same seed always
//! produces the same sequence of draws.

use vstd::prelude::*;

verus! {

/// `x + y` modulo 2^64.
pub open spec fn wrap_add(x: u64, y: u64) -> u64 {
    ((x as nat + y as nat) % 0x1_0000_0000_0000_0000nat) as u64
}

/// `x * y` modulo 2^64.
pub open spec fn wrap_mul(x: u64, y: u64) -> u64 {
    ((x as nat * y as nat) % 0x1_0000_0000_0000_0000nat) as u64
}

/// The state after one draw.
pub open spec fn splitmix_advance(state: u64) -> u64 {
    wrap_add(state, 0x9E37_79B9_7F4A_7C15u64)
}

/// The value drawn from an already advanced state.
pub open spec fn splitmix_output(state: u64) -> u64 {
    let z1 = wrap_mul(state ^ (state >> 30u64), 0xBF58_476D_1CE4_E5B9u64);
    let z2 = wrap_mul(z1 ^ (z1 >> 27u64), 0x94D0_49BB_1331_11EBu64);
    z2 ^ (z2 >> 31u64)
}

/// A seeded, deterministic 64-bit generator based on `SplitMix64`.
pub struct SplitMix64 {
    state: u64,
}

impl View for SplitMix64 {
    type V = u64;

    closed spec fn view(&self) -> u64 {
        self.state
    }
}

impl SplitMix64 {
    /// Creates a generator seeded with `seed`.
    pub fn new(seed: u64) -> (r: SplitMix64)
        ensures
            r@ == seed,
    {
        SplitMix64 { state: seed }
    }

    /// Restores a generator at a previously captured state.
    pub fn from_state(state: u64) -> (r: SplitMix64)
        ensures
            r@ == state,
    {
        SplitMix64 { state }
    }

    /// Returns the current internal state, for snapshotting.
    pub fn state(&self) -> (r: u64)
        ensures
            r == self@,
    {
        self.state
    }

    /// Advances the state and returns a uniformly distributed 64-bit value.
    pub fn next_u64(&mut self) -> (r: u64)
        ensures
            final(self)@ == splitmix_advance(old(self)@),
            r == splitmix_output(final(self)@),
    {
        self.state = self.state.wrapping_add(0x9E37_79B9_7F4A_7C15u64);
        let mut z: u64 = self.state;
        z = (z ^ (z >> 30u64)).wrapping_mul(0xBF58_476D_1CE4_E5B9u64);
        z = (z ^ (z >> 27u64)).wrapping_mul(0x94D0_49BB_1331_11EBu64);
        z ^ (z >> 31u64)
    }

}

} // verus!
