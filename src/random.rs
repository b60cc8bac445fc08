//! The random choices that orders and collections draw, through a caller's generator.
use vstd::prelude::*;
use rand::rngs::StdRng;
use crate::perm::unique_bounded;

verus! {

/// The seedable generator that callers hand to every random operation.
#[verifier::external_type_specification]
#[verifier::external_body]
pub struct ExStdRng(rand::rngs::StdRng);

/// Relies on rand's `SliceRandom::shuffle`: the slice is permuted in place.
#[verifier::external_body]
pub(crate) fn shuffle(v: &mut Vec<usize>, rng: &mut StdRng)
    ensures
        final(v)@.to_multiset() == old(v)@.to_multiset(),
{
    rand::seq::SliceRandom::shuffle(v.as_mut_slice(), rng);
}

/// Relies on rand's `Rng::random_range`: a value of the non-empty range `0..n`.
#[verifier::external_body]
pub(crate) fn random_below(rng: &mut StdRng, n: usize) -> (r: usize)
    requires
        n > 0,
    ensures
        r < n,
{
    rand::Rng::random_range(rng, 0..n)
}

/// Relies on rand's `Rng::random` for `bool`: a fair coin.
#[verifier::external_body]
pub(crate) fn random_bool(rng: &mut StdRng) -> (r: bool) {
    rand::Rng::random::<bool>(rng)
}

/// Relies on rand's `IteratorRandom::choose_multiple` over `0..n`: `amount`
/// distinct elements below `n`, or all `n` of them when `amount` exceeds `n`.
#[verifier::external_body]
pub(crate) fn choose_multiple(rng: &mut StdRng, n: usize, amount: usize) -> (r: Vec<usize>)
    ensures
        r@.len() == if amount <= n { amount } else { n },
        unique_bounded(n as int, r@),
{
    rand::seq::IteratorRandom::choose_multiple(0..n, rng, amount)
}

} // verus!
