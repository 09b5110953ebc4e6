//! Injectable pseudo-random number generation.

use vstd::prelude::*;

verus! {

/// A source of pseudo-random 64-bit values.
pub trait Rng {
    /// Return the next pseudo-random `u64`.
    fn next_u64(&mut self) -> u64;
}

/// A deterministic SplitMix64 generator: the same seed gives the same stream.
#[derive(Debug)]
pub struct SeededRng {
    state: u64,
}

/// The state's increment per draw.
pub const GAMMA: u64 = 0x9E37_79B9_7F4A_7C15;

/// The SplitMix64 finalizer.
pub open spec fn mix(z0: u64) -> u64 {
    let z1 = (z0 ^ (z0 >> 30)).wrapping_mul(0xBF58_476D_1CE4_E5B9);
    let z2 = (z1 ^ (z1 >> 27)).wrapping_mul(0x94D0_49BB_1331_11EB);
    z2 ^ (z2 >> 31)
}

/// The state after `n` draws from `seed`.
pub open spec fn state_after(seed: u64, n: nat) -> u64
    decreases n,
{
    if n == 0 {
        seed
    } else {
        state_after(seed, (n - 1) as nat).wrapping_add(GAMMA)
    }
}

/// The `n`-th draw (from 0) of the stream of `seed`.
pub open spec fn draw(seed: u64, n: nat) -> u64 {
    mix(state_after(seed, n + 1))
}

impl View for SeededRng {
    type V = u64;

    closed spec fn view(&self) -> u64 {
        self.state
    }
}

impl SeededRng {
    /// Create a generator seeded with `seed`.
    pub fn new(seed: u64) -> (rng: Self)
        ensures
            rng@ == seed,
    {
        SeededRng { state: seed }
    }
}

impl Rng for SeededRng {
    fn next_u64(&mut self) -> (r: u64)
        ensures
            final(self)@ == old(self)@.wrapping_add(GAMMA),
            r == mix(final(self)@),
    {
        self.state = self.state.wrapping_add(GAMMA);
        let z: u64 = self.state;
        let z: u64 = (z ^ (z >> 30)).wrapping_mul(0xBF58_476D_1CE4_E5B9);
        let z: u64 = (z ^ (z >> 27)).wrapping_mul(0x94D0_49BB_1331_11EB);
        z ^ (z >> 31)
    }
}

/// A generator's stream depends on its seed alone: one that was seeded with
/// `seed` and has drawn `n` values draws `draw(seed, n)` next.
pub proof fn same_seed_same_stream(seed: u64, n: nat)
    ensures
        mix(state_after(seed, n).wrapping_add(GAMMA)) == draw(seed, n),
        state_after(seed, n).wrapping_add(GAMMA) == state_after(seed, n + 1),
{
}

} // verus!
