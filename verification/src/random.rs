//! The random choices made while a maze is generated, drawn from `rand`'s
//! thread-local generator.
use rand::seq::SliceRandom;
use vstd::prelude::*;

verus! {

/// Calls `rand::random_ratio`, which returns `true` with probability
/// `numerator / denominator`. Its documentation guarantees `false` when the
/// numerator is 0 and `true` when it equals the denominator, and a panic when
/// the denominator is 0 or smaller than the numerator; the `requires` leaves
/// those inputs out. Which value comes back otherwise is left to chance.
#[verifier::external_body]
pub(crate) fn random_ratio(numerator: u32, denominator: u32) -> (b: bool)
    requires
        0 < denominator,
        numerator <= denominator,
    ensures
        numerator == 0 ==> !b,
        numerator == denominator ==> b,
{
    rand::random_ratio(numerator, denominator)
}

/// Calls `SliceRandom::shuffle` with `rand::rng()`. The source shuffles by
/// swapping elements (Fisher–Yates), so the result is a permutation of the
/// input; which permutation is left to chance.
#[verifier::external_body]
pub(crate) fn shuffle<T>(items: &mut Vec<T>)
    ensures
        final(items)@.to_multiset() == old(items)@.to_multiset(),
{
    items.shuffle(&mut rand::rng());
}

} // verus!
