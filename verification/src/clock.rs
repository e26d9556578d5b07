use vstd::prelude::*;
use std::time::{Duration, Instant};

verus! {

/// `std::time::Instant`, carried through the library as an opaque value.
#[verifier::external_type_specification]
#[verifier::external_body]
pub struct ExInstant(Instant);

/// Calls `std::time::Instant::now`. The result is the current time, so
/// nothing is stated of it.
#[verifier::external_body]
pub(crate) fn instant_now() -> Instant {
    Instant::now()
}

/// Calls `std::time::Instant::elapsed` on `t`: the time since `t`, which
/// depends on the clock, so nothing is stated of it.
#[verifier::external_body]
fn elapsed_since(t: &Instant) -> Duration {
    t.elapsed()
}

/// Calls `std::time::Duration::as_nanos`: the whole nanoseconds of `d`.
/// `Duration` is opaque to Verus, so nothing is stated of the result.
#[verifier::external_body]
fn nanos_of(d: Duration) -> u128 {
    d.as_nanos()
}

/// The nanoseconds elapsed since `t`, read from the clock. Comparing them
/// orders elapsed times exactly as comparing the `Duration`s does.
pub(crate) fn elapsed_nanos(t: &Instant) -> u128 {
    nanos_of(elapsed_since(t))
}

/// Name for the duration of `secs` whole seconds, as built by
/// `std::time::Duration::from_secs`.
pub uninterp spec fn secs_duration(secs: u64) -> Duration;

/// Calls `std::time::Duration::from_secs`, which is a function of `secs`
/// alone. `Duration` is opaque to Verus, so the contract names the result
/// rather than stating its length.
#[verifier::external_body]
pub(crate) fn duration_from_secs(secs: u64) -> (d: Duration)
    ensures
        d == secs_duration(secs),
{
    Duration::from_secs(secs)
}

/// Calls `chrono::Utc::now()` and returns its `timestamp()`: the current UNIX
/// time in seconds. It depends on the clock, so nothing is stated of it.
#[verifier::external_body]
pub(crate) fn unix_time_now() -> i64 {
    chrono::Utc::now().timestamp()
}

} // verus!
