use vstd::prelude::*;

pub mod binarytree;
pub mod sidewinder;
pub mod solutions;

verus! {

/// The two outcomes of a fair coin, drawn once per decision point of the
/// maze generators.
#[derive(Debug, Clone, Copy, PartialEq, Eq, Structural)]
pub(crate) enum CoinFlip {
    Heads,
    Tails,
}

/// Draws one fair coin flip from `rng`.
pub(crate) fn flip(rng: &mut rand::rngs::StdRng) -> CoinFlip {
    if crate::rng::random_flip(rng) {
        CoinFlip::Heads
    } else {
        CoinFlip::Tails
    }
}

} // verus!
