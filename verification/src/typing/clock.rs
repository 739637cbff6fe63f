//! The clock that a typing run reads.
use vstd::prelude::*;

verus! {

#[verifier::external_type_specification]
#[verifier::external_body]
pub struct ExInstant(std::time::Instant);

/// Calls `Instant::now` of std. The result is the time of the call; nothing is
/// stated of it.
#[verifier::external_body]
pub fn now() -> std::time::Instant {
    std::time::Instant::now()
}

/// Calls `Instant::elapsed` of std: the time since `start`, which depends on the
/// clock; nothing is stated of it.
#[verifier::external_body]
pub fn elapsed(start: &std::time::Instant) -> std::time::Duration {
    start.elapsed()
}

/// Calls `Duration::as_secs` of std: the whole seconds of `d`. The duration is
/// opaque here, so nothing is stated of the result.
#[verifier::external_body]
pub fn as_secs(d: &std::time::Duration) -> u64 {
    d.as_secs()
}

} // verus!
