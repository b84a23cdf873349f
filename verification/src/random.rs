//! Access to the thread-local random number generator of the `rand` crate.

use rand::Rng;
use vstd::prelude::*;

verus! {

/// Draws an index below `bound` with `rand::thread_rng().gen_range(0..bound)`.
///
/// `Rng::gen_range` panics on an empty range, so `bound` must be positive; the
/// only thing claimed of the result is that it lies in the half-open range.
#[verifier::external_body]
pub(crate) fn random_index(bound: usize) -> (index: usize)
    requires
        bound > 0,
    ensures
        index < bound,
{
    rand::thread_rng().gen_range(0..bound)
}

/// Draws a value with `rand::thread_rng().gen_range(low..high)`.
///
/// `Rng::gen_range` panics on an empty range, so `low < high` is required; the
/// only thing claimed of the result is that it lies in the half-open range.
#[verifier::external_body]
pub(crate) fn random_value(low: i32, high: i32) -> (value: i32)
    requires
        low < high,
    ensures
        low <= value < high,
{
    rand::thread_rng().gen_range(low..high)
}

} // verus!
