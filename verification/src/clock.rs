//! Reading the monotonic clock of the machine.
//!
//! What these functions return depends on the time at which they are called,
//! so nothing is stated of their results: the protocol logic that depends on
//! time takes the outcome of a clock reading as an argument.

use std::time::Duration;
use std::time::Instant;

use vstd::prelude::*;

verus! {

#[verifier::external_type_specification]
#[verifier::external_body]
pub struct ExInstant(Instant);

/// Calls `std::time::Instant::now`: the current instant of the monotonic clock,
/// opaque here; nothing is stated of it.
#[verifier::external_body]
pub(crate) fn instant_now() -> (now: Instant) {
    Instant::now()
}

/// Calls `std::time::Instant::elapsed`: the time passed since `since`, which
/// depends on the clock; nothing is stated of it.
#[verifier::external_body]
pub(crate) fn instant_elapsed(since: &Instant) -> (d: Duration) {
    since.elapsed()
}

/// Calls `std::time::Duration::as_nanos`: the whole duration in nanoseconds.
/// A `Duration` is opaque here and only ever comes from a clock reading, so
/// nothing is stated of the result.
#[verifier::external_body]
pub(crate) fn duration_as_nanos(d: &Duration) -> (nanos: u128) {
    d.as_nanos()
}

/// The nanoseconds passed since `since`, read from the clock; nothing is
/// stated of them. The decisions that depend on them take them as an argument.
pub(crate) fn elapsed_nanos(since: &Instant) -> u128 {
    let elapsed = instant_elapsed(since);
    duration_as_nanos(&elapsed)
}

} // verus!
