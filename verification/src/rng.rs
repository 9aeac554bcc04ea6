//! Randomness for approximate runs, kept behind a seedable generator so that
//! callers can force determinism.

use vstd::prelude::*;

verus! {

/// The rand crate's standard generator, opaque to the verifier.
#[verifier::external_type_specification]
#[verifier::external_body]
pub struct ExStdRng(rand::rngs::StdRng);

/// Relies on rand's `StdRng::from_entropy`: a generator freshly seeded from
/// the operating system. Nothing is promised of its output.
#[verifier::external_body]
pub fn rng_from_entropy() -> rand::rngs::StdRng {
    <rand::rngs::StdRng as rand::SeedableRng>::from_entropy()
}

/// Relies on rand's `SeedableRng::seed_from_u64`: a generator deterministically
/// seeded from the given word. Nothing is promised of its output.
#[verifier::external_body]
pub fn rng_from_seed(seed: u64) -> rand::rngs::StdRng {
    <rand::rngs::StdRng as rand::SeedableRng>::seed_from_u64(seed)
}

/// Relies on rand's `Rng::gen_range` over `0..n`: it panics only on an empty
/// range and otherwise returns a value of the range, whatever it is.
#[verifier::external_body]
pub fn rng_below(rng: &mut rand::rngs::StdRng, n: usize) -> (r: usize)
    requires
        n > 0,
    ensures
        r < n,
{
    rand::Rng::gen_range(rng, 0..n)
}

} // verus!
