//! Trusted boundary to the random-number generator.

use vstd::prelude::*;
use rand::RngExt;

verus! {

/// Relies on rand's thread-local generator: `RngExt::random_range` over the
/// half-open range `0..n` returns a value of that range. It panics on an
/// empty range, which the precondition excludes, and the thread generator
/// can fail if the system entropy source does at seeding or reseeding.
/// Nothing more is assumed of a random draw.
#[verifier::external_body]
pub(crate) fn rand_below(n: u128) -> (r: u128)
    requires
        0 < n,
    ensures
        r < n,
{
    rand::rng().random_range(0..n)
}

} // verus!
