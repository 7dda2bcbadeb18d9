//! The wall clock, and what the library makes of a reading.

use std::time::{Duration, SystemTime, UNIX_EPOCH};
use vstd::prelude::*;

verus! {

/// `std::time::SystemTime` of the standard library: a reading of the wall
/// clock. The library hands a reading from one call to the next and looks
/// at nothing inside it.
#[verifier::external_type_specification]
#[verifier::external_body]
pub struct ExSystemTime(std::time::SystemTime);

/// `SystemTime::now` of the standard library: a reading of the wall clock.
/// Nothing is claimed of the reading.
#[verifier::external_body]
fn wall_clock() -> SystemTime {
    SystemTime::now()
}

/// `SystemTime::duration_since` of the standard library, against the epoch:
/// the time that has passed since the epoch, or `None` where the reading
/// lies before it. Nothing is claimed of the length.
#[verifier::external_body]
fn since_epoch(reading: &SystemTime) -> Option<Duration> {
    reading.duration_since(UNIX_EPOCH).ok()
}

/// `Duration::as_nanos` of the standard library: a span in nanoseconds.
/// Nothing is claimed of the number.
#[verifier::external_body]
fn whole_nanos(span: &Duration) -> u128 {
    span.as_nanos()
}

/// The whole milliseconds of a span of nanoseconds, as a signed number of
/// sixty-four bits; higher bits are cut off.
pub open spec fn millis_of(nanos: nat) -> int {
    let low = (nanos / 1_000_000) % 0x1_0000_0000_0000_0000;
    if low < 0x8000_0000_0000_0000 {
        low as int
    } else {
        low - 0x1_0000_0000_0000_0000
    }
}

/// The whole seconds of a span of nanoseconds, as a signed number of
/// sixty-four bits; higher bits are cut off.
pub open spec fn secs_of(nanos: nat) -> int {
    let low = (nanos / 1_000_000_000) % 0x1_0000_0000_0000_0000;
    if low < 0x8000_0000_0000_0000 {
        low as int
    } else {
        low - 0x1_0000_0000_0000_0000
    }
}

/// The low sixty-four bits of a number, read as a signed number.
fn low_bits(number: u128) -> (signed: i64)
    ensures
        signed == ({
            let low = number as nat % 0x1_0000_0000_0000_0000;
            if low < 0x8000_0000_0000_0000 {
                low as int
            } else {
                low - 0x1_0000_0000_0000_0000
            }
        }),
{
    let low: u128 = number % 0x1_0000_0000_0000_0000;
    if low < 0x8000_0000_0000_0000 {
        low as i64
    } else {
        ((low - 0x8000_0000_0000_0000) as i64) + i64::MIN
    }
}

/// The whole milliseconds of a span of nanoseconds.
pub fn timestamp_ms_of(nanos: u128) -> (millis: i64)
    ensures
        millis == millis_of(nanos as nat),
{
    low_bits(nanos / 1_000_000)
}

/// The whole seconds of a span of nanoseconds.
pub fn timestamp_secs_of(nanos: u128) -> (secs: i64)
    ensures
        secs == secs_of(nanos as nat),
{
    low_bits(nanos / 1_000_000_000)
}

/// What a reading of the clock counts as: the nanoseconds that have passed
/// since the epoch, and zero for a reading that lies before the epoch.
pub fn nanos_or_zero(since_the_epoch: Option<u128>) -> (nanos: u128)
    ensures
        nanos == match since_the_epoch {
            Some(passed) => passed,
            None => 0,
        },
{
    match since_the_epoch {
        Some(passed) => passed,
        None => 0,
    }
}

/// Nanoseconds since the epoch by the wall clock; zero where the clock
/// reads before the epoch. The number is whatever the clock gives at the
/// moment of the call: see `nanos_or_zero` for what is made of a reading.
pub fn now_nanos() -> u128 {
    let reading = wall_clock();
    let passed = match since_epoch(&reading) {
        Some(span) => Some(whole_nanos(&span)),
        None => None,
    };
    nanos_or_zero(passed)
}

/// Milliseconds since the epoch by the wall clock; zero where the clock
/// reads before the epoch.
pub fn current_timestamp_ms() -> (millis: i64)
    ensures
        exists|nanos: nat| nanos <= u128::MAX && millis == #[trigger] millis_of(nanos),
{
    let nanos = now_nanos();
    timestamp_ms_of(nanos)
}

/// Seconds since the epoch by the wall clock; zero where the clock reads
/// before the epoch.
pub fn current_timestamp_secs() -> (secs: i64)
    ensures
        exists|nanos: nat| nanos <= u128::MAX && secs == #[trigger] secs_of(nanos),
{
    let nanos = now_nanos();
    timestamp_secs_of(nanos)
}

} // verus!
