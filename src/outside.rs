//! The calls into `rand` and `num`.

use rand::seq::SliceRandom;
use rand::Rng;
use vstd::prelude::*;

verus! {

/// Relies on `rand::Rng::gen_range` on the thread-local generator: a value
/// drawn from `lo..hi`; it panics on an empty range, which `requires` rules out.
#[verifier::external_body]
pub(crate) fn generate_random_number(lo: i32, hi: i32) -> (num: i32)
    requires
        lo < hi,
    ensures
        lo <= num < hi,
{
    rand::thread_rng().gen_range(lo..hi)
}

/// Relies on `rand::seq::SliceRandom::shuffle` on the thread-local generator:
/// it only swaps elements, so the result holds the same values.
#[verifier::external_body]
pub(crate) fn shuffle_values(values: &mut Vec<i32>)
    ensures
        final(values)@.to_multiset() == old(values)@.to_multiset(),
{
    values.shuffle(&mut rand::thread_rng());
}

/// Relies on `num::integer::sqrt` on `usize`: the truncated square root.
#[verifier::external_body]
pub(crate) fn integer_sqrt(x: usize) -> (root: usize)
    ensures
        root * root <= x,
        x < (root + 1) * (root + 1),
{
    num::integer::sqrt(x)
}

} // verus!
