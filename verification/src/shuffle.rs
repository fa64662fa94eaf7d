//! Random order, from the `rand` crate.
use vstd::prelude::*;
use rand::seq::SliceRandom;

verus! {

/// `SliceRandom::shuffle` of rand 0.8, driven by `rand::thread_rng()`. Its source swaps
/// elements pairwise (Fisher-Yates), so the result is a permutation of the input: the
/// same elements, each as often. Which permutation comes out is left open.
#[verifier::external_body]
pub(crate) fn shuffle_positions(positions: &mut Vec<(usize, usize)>)
    ensures
        final(positions)@.to_multiset() == old(positions)@.to_multiset(),
{
    positions.shuffle(&mut rand::thread_rng());
}

} // verus!
