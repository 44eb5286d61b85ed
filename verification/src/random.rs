//! Uniform pseudo-random draws for the solver, behind the rand crate.

use rand::Rng;
use rand::RngCore;
use rand::SeedableRng;
use vstd::prelude::*;

verus! {

#[verifier::external_type_specification]
#[verifier::external_body]
pub struct ExSmallRng(rand::rngs::SmallRng);

/// A source of uniform pseudo-random draws, wrapping a small fast generator
/// of the rand crate.
pub struct Sampler {
    inner: rand::rngs::SmallRng,
}

impl Sampler {
    /// Relies on rand::rngs::SmallRng::from_os_rng: a generator seeded from
    /// the operating system.
    #[verifier::external_body]
    pub(crate) fn from_entropy() -> (s: Sampler) {
        Sampler { inner: rand::rngs::SmallRng::from_os_rng() }
    }

    /// Relies on rand::SeedableRng::seed_from_u64: a generator whose state is
    /// determined by `seed` alone, for reproducible runs.
    #[verifier::external_body]
    pub(crate) fn from_seed(seed: u64) -> (s: Sampler) {
        Sampler { inner: rand::rngs::SmallRng::seed_from_u64(seed) }
    }

    /// Relies on rand::Rng::random_range: a uniform draw in `[0, m)`; the
    /// call panics on an empty range, so `m` must be positive.
    #[verifier::external_body]
    pub(crate) fn below(&mut self, m: usize) -> (r: usize)
        requires
            m >= 1,
        ensures
            r < m,
    {
        self.inner.random_range(0..m)
    }

    /// Relies on rand::RngCore::next_u64: a uniform 64-bit draw; nothing is
    /// claimed of the value.
    #[verifier::external_body]
    pub(crate) fn next_bits(&mut self) -> (r: u64) {
        self.inner.next_u64()
    }
}

} // verus!
