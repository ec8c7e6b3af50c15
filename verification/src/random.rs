//! Chance.

use rand::Rng;
use vstd::prelude::*;

verus! {

/// `rand::random` for `u64`: any number.
#[verifier::external_body]
pub(crate) fn random_u64() -> u64 {
    rand::random::<u64>()
}

/// `rand::random` for `u128`: any number.
#[verifier::external_body]
pub(crate) fn random_u128() -> u128 {
    rand::random::<u128>()
}

/// `rand::Rng::gen_range` on the generator of the thread: a number from `low`
/// on and below `high`.
#[verifier::external_body]
pub(crate) fn random_between(low: u64, high: u64) -> (r: u64)
    requires
        low < high,
    ensures
        low <= r < high,
{
    rand::thread_rng().gen_range(low, high)
}

} // verus!
