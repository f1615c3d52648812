//! Random draws used by the mutation and selection operators.
//!
//! Every draw goes through the `rand` crate; the contracts state only what
//! holds of every outcome (the range of the value), never which value
//! comes back.

use vstd::prelude::*;
use rand::seq::SliceRandom;

verus! {

/// Relies on `rand::random_range`: a random index below `n`.
#[verifier::external_body]
pub(crate) fn below(n: usize) -> (r: usize)
    requires
        n >= 1,
    ensures
        r < n,
{
    rand::random_range(0..n)
}

/// Relies on `rand::random_range`: a random value in `[lo, hi)`.
#[verifier::external_body]
pub(crate) fn range(lo: usize, hi: usize) -> (r: usize)
    requires
        lo < hi,
    ensures
        lo <= r < hi,
{
    rand::random_range(lo..hi)
}

/// Relies on `rand::random_range`: a random probability in micro-units,
/// uniform over `[0, 1)`.
#[verifier::external_body]
pub(crate) fn micro() -> (r: i64)
    ensures
        0 <= r < 1_000_000,
{
    rand::random_range(0i64..1_000_000i64)
}

/// Relies on `rand::random_range`: a random fixed-point value from the
/// symmetric range `[-bound, bound)`.
#[verifier::external_body]
pub(crate) fn spread(bound: i64) -> (r: i64)
    requires
        bound >= 1,
    ensures
        -bound <= r < bound,
{
    rand::random_range(-bound..bound)
}

/// Relies on `rand::random`: a seed for task construction. Nothing can be
/// promised of a random seed.
#[verifier::external_body]
pub(crate) fn seed() -> u64 {
    rand::random()
}

/// Relies on `SliceRandom::shuffle`: a random permutation in place.
#[verifier::external_body]
pub(crate) fn shuffle<T>(v: &mut Vec<T>)
    ensures
        final(v)@.len() == old(v)@.len(),
        final(v)@.to_multiset() == old(v)@.to_multiset(),
{
    v.shuffle(&mut rand::rng())
}

} // verus!
