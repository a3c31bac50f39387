//! The one source of randomness of this crate.

use rand::Rng;
use vstd::prelude::*;

verus! {

/// Trusted: `Rng::gen_range` on the thread-local generator of `rand` returns
/// a value of the half-open range it is given. Nothing else is known of the
/// value, and two calls may differ.
#[verifier::external_body]
pub(crate) fn random_in_range(low: u64, high: u64) -> (r: u64)
    requires
        low < high,
    ensures
        low <= r < high,
{
    rand::thread_rng().gen_range(low..high)
}

} // verus!
