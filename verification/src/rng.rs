//! The crate's only source of randomness: a uniform draw from a half-open
//! integer range, used for the build's split-axis choice and for the
//! integrator's sampling.  Every contract elsewhere holds for every value
//! these draws can take.
use vstd::prelude::*;

verus! {

/// Relies on rand::random_range: a uniform draw from the half-open range
/// `lo..hi`, which panics only when the range is empty.
#[verifier::external_body]
pub(crate) fn random_in(lo: i64, hi: i64) -> (r: i64)
    requires
        lo < hi,
    ensures
        lo <= r < hi,
{
    rand::random_range(lo..hi)
}

} // verus!
