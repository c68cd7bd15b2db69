//! The random-number generator that orders the houses of each trial.
use vstd::prelude::*;

use rand::seq::SliceRandom;
use rand_pcg::Mcg128Xsl64;

use crate::grid::Point;

verus! {

/// rand_pcg's `Mcg128Xsl64` generator, carried through opaquely.
#[verifier::external_type_specification]
#[verifier::external_body]
pub struct ExMcg128Xsl64(Mcg128Xsl64);

/// Relies on rand's `SliceRandom::shuffle`, which only swaps elements of the
/// slice: the result holds the same cells, in an order drawn from `rng`.
#[verifier::external_body]
pub(crate) fn shuffle_points(v: &mut Vec<Point>, rng: &mut Mcg128Xsl64)
    ensures
        final(v)@.to_multiset() == old(v)@.to_multiset(),
{
    v.as_mut_slice().shuffle(rng);
}

} // verus!
