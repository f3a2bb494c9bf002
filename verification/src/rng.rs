//! Trusted access to the `rand` crate: the thread-local random number
//! generator, in-place shuffling, and uniform sampling below a bound.
//!
//! Randomness cannot be pinned down, so the contracts only state what holds
//! of every outcome: a shuffle keeps exactly the same elements, and a sample
//! below `n` is less than `n`.

use vstd::prelude::*;

verus! {

#[verifier::external_type_specification]
#[verifier::external_body]
pub struct ExThreadRng(rand::rngs::ThreadRng);

/// Relies on rand::thread_rng: returns a handle to the thread-local
/// generator. Nothing is promised of the values it will produce.
#[verifier::external_body]
pub fn fresh_rng() -> rand::rngs::ThreadRng {
    rand::thread_rng()
}

/// Relies on rand::seq::SliceRandom::shuffle: permutes the slice in place,
/// so the multiset of elements is unchanged.
#[verifier::external_body]
pub fn shuffle_vec<T>(v: &mut Vec<T>, rng: &mut rand::rngs::ThreadRng)
    ensures
        final(v)@.to_multiset() == old(v)@.to_multiset(),
        final(v)@.len() == old(v)@.len(),
{
    rand::seq::SliceRandom::shuffle(v.as_mut_slice(), rng);
}

/// Relies on rand::Rng::gen_range: a sample from 0..n is uniform and below
/// n. The call panics on an empty range, so n must be positive.
#[verifier::external_body]
pub fn rand_below(rng: &mut rand::rngs::ThreadRng, n: usize) -> (r: usize)
    requires
        n > 0,
    ensures
        r < n,
{
    rand::Rng::gen_range(rng, 0..n)
}

} // verus!
