//! Trusted boundary around the `rand` crate.
//!
//! Mine placement draws uniformly distributed cell indices from a seeded
//! pseudo-random generator. Nothing is assumed about which index comes
//! back, only that it lies below the requested bound; all board logic is
//! verified for every possible outcome of a draw.

use vstd::prelude::*;

verus! {

/// Declares `rand::rngs::StdRng`, the crate's standard seeded generator,
/// so that a `Game` can hold one; its state stays opaque to the verifier.
#[verifier::external_type_specification]
#[verifier::external_body]
pub struct ExStdRng(rand::rngs::StdRng);

/// Relies on `rand::SeedableRng::seed_from_u64` for `StdRng`: builds a
/// generator from a 64-bit seed.
#[verifier::external_body]
pub(crate) fn seeded_rng(seed: u64) -> rand::rngs::StdRng {
    <rand::rngs::StdRng as rand::SeedableRng>::seed_from_u64(seed)
}

/// Relies on `rand::Rng::gen_range` over `0..n`: returns a uniformly
/// distributed integer below `n`, and panics only when the range is empty.
#[verifier::external_body]
pub(crate) fn draw_index(rng: &mut rand::rngs::StdRng, n: usize) -> (r: usize)
    requires
        n > 0,
    ensures
        r < n,
{
    rand::Rng::gen_range(rng, 0..n)
}

} // verus!
