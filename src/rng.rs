//! Deterministic pseudo-random generator driving move proposals.
use vstd::prelude::*;

verus! {

/// Multiplier of the linear congruential step.
pub const MUL: u64 = 0xdead_c0de_0013_3331;

/// Increment of the linear congruential step.
pub const INC: u64 = 2457;

/// Modulus of 64-bit arithmetic.
pub open spec fn modulus() -> int {
    0x1_0000_0000_0000_0000
}

/// The state after one step: `s * MUL + INC` modulo 2^64.
pub open spec fn step(s: u64) -> u64 {
    (((s as int * MUL as int) % modulus() + INC as int) % modulus()) as u64
}

/// The 32-bit draw derived from a state by an xorshift mix.
pub open spec fn mix(s: u64) -> u32 {
    ((s ^ (s << 10u64)) >> 32u64) as u32
}

/// Generator whose whole state is one 64-bit word.
pub struct Rng {
    pub x: u64,
}

impl Rng {
    /// A generator whose state is `seed`.
    pub fn new(seed: u64) -> (r: Rng)
        ensures
            r.x == seed,
    {
        Rng { x: seed }
    }

    /// Advances the state by one step and returns the draw of the new state.
    pub fn next(&mut self) -> (r: u32)
        ensures
            final(self).x == step(old(self).x),
            r == mix(final(self).x),
    {
        let a: u64 = MUL;
        let b: u64 = INC;
        self.x = self.x.wrapping_mul(a).wrapping_add(b);
        let x = self.x;
        ((x ^ x << 10u64) >> 32u64) as u32
    }
}

} // verus!
