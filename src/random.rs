//! The library's source of randomness: an explicitly passed, seedable
//! `rand::rngs::StdRng`. Every stochastic operation takes it as an argument.

use rand::rngs::StdRng;
use rand::seq::SliceRandom;
use rand::Rng;
use vstd::prelude::*;

verus! {

/// `rand::rngs::StdRng`, the seedable generator, carried through as an
/// opaque value.
#[verifier::external_type_specification]
#[verifier::external_body]
pub struct ExStdRng(StdRng);

/// Relies on `rand::Rng::gen_range` over `0..bound`: it returns a value of the
/// range, and panics only when the range is empty.
#[verifier::external_body]
pub(crate) fn draw_below(rng: &mut StdRng, bound: u64) -> (r: u64)
    requires
        bound > 0,
    ensures
        r < bound,
{
    rng.gen_range(0..bound)
}

/// Relies on `rand::seq::SliceRandom::shuffle`: it reorders the slice by
/// swapping elements, so the same items stay, each as often as before.
#[verifier::external_body]
pub(crate) fn shuffle(rng: &mut StdRng, items: &mut Vec<usize>)
    ensures
        final(items)@.to_multiset() == old(items)@.to_multiset(),
{
    items.shuffle(rng)
}

} // verus!
