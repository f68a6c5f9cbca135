use vstd::prelude::*;
use rand::Rng;
use rand::seq::SliceRandom;

verus! {

use crate::maze::Point;

/// The seedable generator from which every random choice of the library is drawn.
#[verifier::external_type_specification]
#[verifier::external_body]
pub struct ExStdRng(rand::rngs::StdRng);

/// Relies on rand's `Rng::gen_range` over `0..n`: the value lies in the range
/// (the range is not empty, so it does not panic).
#[verifier::external_body]
pub(crate) fn random_below(rng: &mut rand::rngs::StdRng, n: usize) -> (r: usize)
    requires
        n > 0,
    ensures
        r < n,
{
    rng.gen_range(0..n)
}

/// Relies on rand's `SliceRandom::shuffle`: it swaps elements only, so the
/// result holds the same points, each as often as before.
#[verifier::external_body]
pub(crate) fn shuffle_points(rng: &mut rand::rngs::StdRng, v: &mut Vec<Point>)
    ensures
        final(v)@.len() == old(v)@.len(),
        final(v)@.to_multiset() == old(v)@.to_multiset(),
{
    v.shuffle(rng)
}

} // verus!
