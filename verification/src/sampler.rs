use vstd::prelude::*;

verus! {

#[verifier::external_type_specification]
#[verifier::external_body]
pub struct ExStdRng(rand::rngs::StdRng);

/// The random source used by generation: a seedable generator behind a
/// capability object, so callers and tests can inject a reproducible source.
pub struct Sampler {
    rng: rand::rngs::StdRng,
}

impl Sampler {
    /// Relies on rand's SeedableRng::from_rng to seed a StdRng from the
    /// thread-local generator; nothing is assumed of the values drawn later.
    #[verifier::external_body]
    pub fn new() -> (r: Sampler) {
        Sampler { rng: <rand::rngs::StdRng as rand::SeedableRng>::from_rng(&mut rand::rng()) }
    }

    /// Relies on rand's SeedableRng::seed_from_u64, a deterministic seeding
    /// of StdRng; nothing is assumed of the values drawn later.
    #[verifier::external_body]
    pub fn from_seed(seed: u64) -> (r: Sampler) {
        Sampler { rng: <rand::rngs::StdRng as rand::SeedableRng>::seed_from_u64(seed) }
    }

    /// Relies on rand's RngExt::random_range over `0..n`: the draw lies in
    /// the range; nothing else (in particular no distribution) is assumed.
    #[verifier::external_body]
    pub fn next_below(&mut self, n: usize) -> (r: usize)
        requires
            n >= 1,
        ensures
            r < n,
    {
        rand::RngExt::random_range(&mut self.rng, 0..n)
    }
}

} // verus!
