//! The random draws the search makes, taken from the `rand` crate.
use rand::rngs::StdRng;
use rand::seq::SliceRandom;
use rand::Rng;
use vstd::prelude::*;

verus! {

#[verifier::external_type_specification]
#[verifier::external_body]
pub struct ExStdRng(rand::rngs::StdRng);

/// `Rng::gen_range(lo..hi)`: a value drawn in `lo..hi`. The crate panics on
/// an empty range, which `requires` leaves out; which value comes out is left
/// to chance and not stated.
#[verifier::external_body]
pub(crate) fn gen_below(rng: &mut StdRng, lo: usize, hi: usize) -> (r: usize)
    requires
        lo < hi,
    ensures
        lo <= r < hi,
{
    rng.gen_range(lo..hi)
}

/// `Rng::gen_range(lo..=hi)`: a value drawn in `lo..=hi`. The crate panics on
/// an empty range, which `requires` leaves out; which value comes out is left
/// to chance and not stated.
#[verifier::external_body]
pub(crate) fn gen_upto(rng: &mut StdRng, lo: usize, hi: usize) -> (r: usize)
    requires
        lo <= hi,
    ensures
        lo <= r <= hi,
{
    rng.gen_range(lo..=hi)
}

/// `SliceRandom::choose` on a slice of indices: `None` exactly when the slice
/// is empty, else one of its elements. Which one is left to chance and not
/// stated.
#[verifier::external_body]
pub(crate) fn choose_in(v: &Vec<usize>, rng: &mut StdRng) -> (r: Option<usize>)
    ensures
        r is None <==> v@.len() == 0,
        r matches Some(x) ==> v@.contains(x),
{
    v.as_slice().choose(rng).copied()
}

/// `SliceRandom::shuffle` with the thread-local generator: the same elements
/// in an order left to chance, which is not stated.
#[verifier::external_body]
pub(crate) fn shuffle(v: &mut Vec<usize>)
    ensures
        final(v)@.to_multiset() == old(v)@.to_multiset(),
{
    v.as_mut_slice().shuffle(&mut rand::thread_rng());
}

} // verus!
