//! The random draws of a typing run that are integers.
use vstd::prelude::*;

verus! {

/// Calls `rand::random_range` with the inclusive range `low..=high`, which
/// draws from the thread-local generator. The result is random: the contract
/// states only that it lies in the range. rand panics on an empty range, which
/// `requires` leaves out.
#[verifier::external_body]
pub(crate) fn random_between(low: u64, high: u64) -> (r: u64)
    requires
        low <= high,
    ensures
        low <= r <= high,
{
    rand::random_range(low..=high)
}

} // verus!
