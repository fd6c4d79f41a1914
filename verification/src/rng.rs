use vstd::prelude::*;
use rand::Rng;
use rand::SeedableRng;

verus! {

#[verifier::external_type_specification]
#[verifier::external_body]
pub struct ExSmallRng(rand::rngs::SmallRng);

/// Relies on rand's `SmallRng::from_rng`, seeded from the thread-local
/// generator: it yields a fresh pseudorandom generator. Nothing is promised
/// of its stream.
#[verifier::external_body]
pub(crate) fn new_small_rng() -> (rng: rand::rngs::SmallRng) {
    rand::rngs::SmallRng::from_rng(&mut rand::rng())
}

/// Relies on rand's `Rng::random_range` over `0..n`: it returns a uniformly
/// distributed value of that range, and panics only when the range is empty,
/// which the precondition rules out. Nothing relates the results of two
/// calls, so the callers hold for every outcome.
#[verifier::external_body]
pub(crate) fn gen_index(rng: &mut rand::rngs::SmallRng, n: usize) -> (r: usize)
    requires
        n > 0,
    ensures
        r < n,
{
    rng.random_range(0..n)
}

} // verus!
