//! The single place where randomness enters: an index drawn below a bound.

use vstd::prelude::*;

use rand::RngExt;

verus! {

/// Relies on rand's `RngExt::random_range` over `0..n`: the sample lies in
/// the given range. rand panics on an empty range; the precondition
/// excludes that. Nothing more is promised of a random value.
#[verifier::external_body]
pub(crate) fn random_below(n: usize) -> (r: usize)
    requires
        0 < n,
    ensures
        r < n,
{
    rand::rng().random_range(0..n)
}

} // verus!
