use rand::rngs::StdRng;
use vstd::prelude::*;

verus! {

#[verifier::external_type_specification]
#[verifier::external_body]
pub struct ExStdRng(rand::rngs::StdRng);

/// Relies on rand's `SeedableRng::from_entropy`: a generator seeded by the
/// operating system.
#[verifier::external_body]
pub(crate) fn entropy_rng() -> StdRng {
    <StdRng as rand::SeedableRng>::from_entropy()
}

/// Relies on rand's `Rng::gen_range(0, n)`: a value in `[0, n)`; it panics
/// where `n` is zero.
#[verifier::external_body]
pub(crate) fn random_below(rng: &mut StdRng, n: usize) -> (r: usize)
    requires
        n > 0,
    ensures
        r < n,
{
    rand::Rng::gen_range(rng, 0, n)
}

} // verus!
