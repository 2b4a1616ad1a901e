//! The seeded random number generator of the `rand` crate, with the
//! contracts of the calls the random generators make.

use vstd::prelude::*;
use rand::seq::SliceRandom;
use rand::Rng;

verus! {

#[verifier::external_type_specification]
#[verifier::external_body]
pub struct ExStdRng(rand::rngs::StdRng);

/// `Rng::random_range(lo..hi)`: some value in `lo..hi` (which one rests on
/// the generator's state, and is left unsaid); it panics on an empty
/// range, which `requires` leaves out.
#[verifier::external_body]
pub(crate) fn rng_range(rng: &mut rand::rngs::StdRng, lo: usize, hi: usize) -> (r: usize)
    requires
        lo < hi,
    ensures
        lo <= r < hi,
{
    rng.random_range(lo..hi)
}

/// `Rng::random_range(lo..hi)` on `u8` values, as phases are drawn; same
/// contract as [`rng_range`].
#[verifier::external_body]
pub(crate) fn rng_range_u8(rng: &mut rand::rngs::StdRng, lo: u8, hi: u8) -> (r: u8)
    requires
        lo < hi,
    ensures
        lo <= r < hi,
{
    rng.random_range(lo..hi)
}

/// `Rng::random_range(lo..=hi)` on `i32` values (an integer literal range's
/// default type): some value in `lo..=hi`; it panics on an empty range,
/// which `requires` leaves out.
#[verifier::external_body]
pub(crate) fn rng_range_i32_incl(rng: &mut rand::rngs::StdRng, lo: i32, hi: i32) -> (r: i32)
    requires
        lo <= hi,
    ensures
        lo <= r <= hi,
{
    rng.random_range(lo..=hi)
}

/// `SliceRandom::shuffle`: a permutation of the elements (which one rests
/// on the generator's state, and is left unsaid).
#[verifier::external_body]
pub(crate) fn rng_shuffle(rng: &mut rand::rngs::StdRng, v: &mut Vec<usize>)
    ensures
        final(v)@.to_multiset() == old(v)@.to_multiset(),
{
    v.shuffle(rng)
}

} // verus!
