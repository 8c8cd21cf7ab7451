use vstd::prelude::*;

verus! {

/// Relies on rand's `Rng::gen_range` on the thread-local generator: a value
/// in `[0, bound)`; it panics when the range is empty, hence the `requires`.
#[verifier::external_body]
pub(crate) fn random_below(bound: usize) -> (r: usize)
    requires
        0 < bound,
    ensures
        r < bound,
{
    rand::Rng::gen_range(&mut rand::thread_rng(), 0, bound)
}

/// Relies on `rand::random::<bool>`: a coin flip, nothing promised of it.
#[verifier::external_body]
pub(crate) fn random_flag() -> (r: bool) {
    rand::random::<bool>()
}

/// Relies on rand's `SliceRandom::shuffle` on the thread-local generator: it
/// only swaps elements, so the result is a permutation of the input.
#[verifier::external_body]
pub(crate) fn shuffle_indices(v: &mut Vec<usize>)
    ensures
        final(v)@.to_multiset() == old(v)@.to_multiset(),
{
    rand::seq::SliceRandom::shuffle(v.as_mut_slice(), &mut rand::thread_rng())
}

} // verus!
