//! Random numbers.

use rand::RngExt;
use vstd::prelude::*;

verus! {

/// A random number from `lo` to `hi`, by `rand::RngExt::random_range` on the
/// generator of `rand::rng`. Claims that the number lies in the range, ends
/// included, which must not be empty; which number it is depends on chance.
#[verifier::external_body]
pub(crate) fn random_u8(lo: u8, hi: u8) -> (n: u8)
    requires
        lo <= hi,
    ensures
        lo <= n <= hi,
{
    rand::rng().random_range(lo..=hi)
}

/// A random number from `lo` to `hi`, by `rand::RngExt::random_range` on the
/// generator of `rand::rng`. Claims that the number lies in the range, ends
/// included, which must not be empty; which number it is depends on chance.
#[verifier::external_body]
pub(crate) fn random_u16(lo: u16, hi: u16) -> (n: u16)
    requires
        lo <= hi,
    ensures
        lo <= n <= hi,
{
    rand::rng().random_range(lo..=hi)
}

/// A number picked at random, by `rand::random`. Any number may come; nothing
/// more can be said of it.
#[verifier::external_body]
pub(crate) fn any_u16() -> (n: u16) {
    rand::random()
}

} // verus!
