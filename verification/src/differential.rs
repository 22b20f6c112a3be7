//! The reproducible corpus generator of the differential loop (Conform §6.5):
//! splitmix64, a tiny deterministic PRNG — the same seed gives the same draws,
//! so a failing case reproduces exactly.

use vstd::prelude::*;

verus! {

/// The splitmix64 state increment (the golden-ratio constant).
pub const SPLITMIX_GAMMA: u64 = 0x9E37_79B9_7F4A_7C15;

/// The state after one step.
pub open spec fn splitmix_state(s: u64) -> u64 {
    ((s as int + SPLITMIX_GAMMA as int) % 0x1_0000_0000_0000_0000) as u64
}

/// `(x * k) mod 2^64`.
pub open spec fn mul64(x: u64, k: u64) -> u64 {
    ((x as int * k as int) % 0x1_0000_0000_0000_0000) as u64
}

/// The output mixed from a (new) state `z`.
pub open spec fn splitmix_output(z: u64) -> u64 {
    let z1 = mul64(z ^ (z >> 30u64), 0xBF58_476D_1CE4_E5B9);
    let z2 = mul64(z1 ^ (z1 >> 27u64), 0x94D0_49BB_1331_11EB);
    z2 ^ (z2 >> 31u64)
}

/// splitmix64 — a tiny deterministic PRNG with no outside dependency.
pub struct SplitMix64(pub u64);

pub(crate) fn wrapping_mul64(x: u64, k: u64) -> (r: u64)
    ensures
        r == mul64(x, k),
{
    assert((x as u128) * (k as u128) <= 0xFFFF_FFFF_FFFF_FFFF * 0xFFFF_FFFF_FFFF_FFFF) by (nonlinear_arith)
        requires
            x <= 0xFFFF_FFFF_FFFF_FFFFu64,
            k <= 0xFFFF_FFFF_FFFF_FFFFu64,
    ;
    let p: u128 = x as u128 * k as u128;
    (p % 0x1_0000_0000_0000_0000) as u64
}

impl SplitMix64 {
    /// A generator seeded with `seed`.
    pub fn new(seed: u64) -> (g: SplitMix64)
        ensures
            g.0 == seed,
    {
        SplitMix64(seed)
    }

    /// The next draw: advance the state by the gamma (wrapping), then mix it.
    pub fn next_u64(&mut self) -> (r: u64)
        ensures
            final(self).0 == splitmix_state(old(self).0),
            r == splitmix_output(splitmix_state(old(self).0)),
    {
        let s: u128 = (self.0 as u128 + SPLITMIX_GAMMA as u128) % 0x1_0000_0000_0000_0000;
        self.0 = s as u64;
        let z = self.0;
        let z1 = wrapping_mul64(z ^ (z >> 30u64), 0xBF58_476D_1CE4_E5B9);
        let z2 = wrapping_mul64(z1 ^ (z1 >> 27u64), 0x94D0_49BB_1331_11EB);
        z2 ^ (z2 >> 31u64)
    }
}

} // verus!
