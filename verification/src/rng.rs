use vstd::prelude::*;
use rand::RngExt;

verus! {

#[verifier::external_type_specification]
#[verifier::external_body]
pub struct ExStdRng(rand::rngs::StdRng);

/// Relies on rand's `RngExt::random::<bool>`: a fair two-outcome draw.
/// Nothing is promised of the outcome.
#[verifier::external_body]
pub(crate) fn random_flip(rng: &mut rand::rngs::StdRng) -> bool {
    rng.random()
}

/// Relies on rand's `RngExt::random_range` on `0..n`: it returns a value
/// of the nonempty range. Nothing more is promised of the outcome.
#[verifier::external_body]
pub(crate) fn random_below(rng: &mut rand::rngs::StdRng, n: usize) -> (r: usize)
    requires
        n >= 1,
    ensures
        r < n,
{
    rng.random_range(0..n)
}

} // verus!
