use rand::Rng;
use vstd::prelude::*;

verus! {

/// Relies on `rand::Rng::gen_range` on a half-open range, drawn from
/// `rand::thread_rng`: the value lies in `[lo, hi)`; the range must not be
/// empty, for `gen_range` panics on an empty one.
#[verifier::external_body]
pub(crate) fn random_range(lo: i32, hi: i32) -> (r: i32)
    requires
        lo < hi,
    ensures
        lo <= r < hi,
{
    rand::thread_rng().gen_range(lo..hi)
}

/// Relies on `rand::Rng::gen_ratio`, drawn from `rand::thread_rng`: true with
/// probability `numerator / denominator`, never when the numerator is zero and
/// always when it equals the denominator. It panics unless
/// `0 < denominator` and `numerator <= denominator`.
#[verifier::external_body]
pub(crate) fn random_ratio(numerator: u32, denominator: u32) -> (r: bool)
    requires
        0 < denominator,
        numerator <= denominator,
    ensures
        numerator == 0 ==> !r,
        numerator == denominator ==> r,
{
    rand::thread_rng().gen_ratio(numerator, denominator)
}

} // verus!
