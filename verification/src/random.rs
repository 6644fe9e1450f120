//! The random draws of the problem generators.
use vstd::prelude::*;

verus! {

/// `rand::random_range(lo..hi)`: a number drawn uniformly from `lo..hi` by the thread's
/// generator. Claimed: the result lies in the range, and nothing more (it depends on chance).
#[verifier::external_body]
pub fn random_in(lo: u64, hi: u64) -> (res: u64)
    requires
        lo < hi,
    ensures
        lo <= res < hi,
{
    rand::random_range(lo..hi)
}

/// `rand::random_ratio(numerator, denominator)`: `true` with that probability. Claimed, as
/// rand documents: `false` when the numerator is 0, `true` when it equals the denominator.
#[verifier::external_body]
pub fn random_ratio(numerator: u32, denominator: u32) -> (res: bool)
    requires
        0 < denominator,
        numerator <= denominator,
    ensures
        numerator == 0 ==> !res,
        numerator == denominator ==> res,
{
    rand::random_ratio(numerator, denominator)
}

} // verus!
