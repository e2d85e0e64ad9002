//! The engine's source of randomness, behind trusted declarations.
//!
//! The pseudo-random generator is `rand`'s `StdRng`, an opaque outside type;
//! the engine only ever asks it for an index below a given bound, so that is
//! the whole trusted surface.

use vstd::prelude::*;

verus! {

#[verifier::external_type_specification]
#[verifier::external_body]
pub struct ExStdRng(rand::rngs::StdRng);

/// Relies on rand's `SeedableRng::seed_from_u64`: builds a generator from an
/// explicit seed, for reproducible runs.
#[verifier::external_body]
pub(crate) fn rng_from_seed(seed: u64) -> rand::rngs::StdRng {
    <rand::rngs::StdRng as rand::SeedableRng>::seed_from_u64(seed)
}

/// Relies on rand's `SeedableRng::from_entropy`: builds a generator seeded
/// from the operating system, for non-reproducible production runs.
#[verifier::external_body]
pub(crate) fn rng_from_entropy() -> rand::rngs::StdRng {
    <rand::rngs::StdRng as rand::SeedableRng>::from_entropy()
}

/// Relies on rand's `Rng::gen_range`: a sample from `0..n` is strictly below
/// `n`. The bound must be positive, since `gen_range` panics on an empty
/// range.
#[verifier::external_body]
pub(crate) fn rng_below(rng: &mut rand::rngs::StdRng, n: usize) -> (r: usize)
    requires
        n >= 1,
    ensures
        r < n,
{
    <rand::rngs::StdRng as rand::Rng>::gen_range(rng, 0..n)
}

} // verus!
