//! The random draws that scrambling needs, taken from the `rand` crate.

use vstd::prelude::*;
use rand::rngs::ThreadRng;
use rand::RngExt;

verus! {

#[verifier::external_type_specification]
#[verifier::external_body]
pub struct ExThreadRng(ThreadRng);

/// `rand::rng`: a handle to the calling thread's generator. Nothing is
/// claimed of what it will give. It panics where the system cannot seed the
/// generator, which no argument decides.
#[verifier::external_body]
pub(crate) fn thread_rng() -> (rng: ThreadRng) {
    rand::rng()
}

/// `RngExt::random_range` on the half-open range `low..high`, which panics
/// on an empty range: whatever is drawn lies in the range.
#[verifier::external_body]
pub(crate) fn random_index(rng: &mut ThreadRng, low: usize, high: usize) -> (index: usize)
    requires
        low < high,
    ensures
        low <= index < high,
{
    rng.random_range(low..high)
}

/// `RngExt::random_ratio`, which panics on a zero denominator and on a
/// numerator above the denominator: `true` with that chance. Nothing is
/// claimed of the outcome.
#[verifier::external_body]
pub(crate) fn random_chance(rng: &mut ThreadRng, numerator: u32, denominator: u32) -> (hit: bool)
    requires
        0 < denominator,
        numerator <= denominator,
{
    rng.random_ratio(numerator, denominator)
}

} // verus!
