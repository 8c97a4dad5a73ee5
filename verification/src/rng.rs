use vstd::prelude::*;

verus! {

/// Increment added to the generator state on every draw.
pub const STATE_STEP: u64 = 0x9E37_79B9_7F4A_7C15;

/// First multiplier of the output mix.
pub const MIX_MUL_1: u64 = 0xBF58_476D_1CE4_E5B9;

/// Second multiplier of the output mix.
pub const MIX_MUL_2: u64 = 0x94D0_49BB_1331_11EB;

/// The generator state after one draw: a fixed odd increment, mod 2^64.
pub open spec fn next_state(s: u64) -> u64 {
    vstd::wrapping::u64_specs::wrapping_add(s, STATE_STEP)
}

/// The output word produced from a generator state: two rounds of
/// xor-shift and multiply, then a final xor-shift.
pub open spec fn mix(s: u64) -> u64 {
    let z1 = vstd::wrapping::u64_specs::wrapping_mul(s ^ (s >> 30u64), MIX_MUL_1);
    let z2 = vstd::wrapping::u64_specs::wrapping_mul(z1 ^ (z1 >> 27u64), MIX_MUL_2);
    z2 ^ (z2 >> 31u64)
}

/// A small deterministic pseudo-random generator with an explicit seed.
/// The whole output stream is a function of the seed alone, which is
/// what makes site generation reproducible.
pub struct SplitMix {
    state: u64,
}

impl View for SplitMix {
    type V = u64;

    closed spec fn view(&self) -> u64 {
        self.state
    }
}

impl SplitMix {
    pub fn with_seed(seed: u64) -> (r: SplitMix)
        ensures
            r@ == seed,
    {
        SplitMix { state: seed }
    }

    /// Advances the state and returns the mixed output word.
    pub fn next_u64(&mut self) -> (r: u64)
        ensures
            final(self)@ == next_state(old(self)@),
            r == mix(next_state(old(self)@)),
    {
        self.state = self.state.wrapping_add(STATE_STEP);
        let s: u64 = self.state;
        let z1: u64 = (s ^ (s >> 30u64)).wrapping_mul(MIX_MUL_1);
        let z2: u64 = (z1 ^ (z1 >> 27u64)).wrapping_mul(MIX_MUL_2);
        z2 ^ (z2 >> 31u64)
    }
}

} // verus!
