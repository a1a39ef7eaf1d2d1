//! Timestamps in milliseconds since the Unix epoch.

use vstd::prelude::*;

use crate::outside;
use crate::text;
use crate::text::Error;

verus! {

/// A number of milliseconds as a timestamp: no more than the largest there is.
pub open spec fn saturated(millis: u128) -> int {
    if millis > i64::MAX as u128 {
        i64::MAX as int
    } else {
        millis as int
    }
}

/// A number of milliseconds as a timestamp, saturating rather than wrapping.
pub fn saturated_millis(millis: u128) -> (r: i64)
    ensures
        r == saturated(millis),
{
    if millis > 9_223_372_036_854_775_807u128 {
        i64::MAX
    } else {
        millis as i64
    }
}

/// The length of a duration as a timestamp.
pub fn millis_of(elapsed: std::time::Duration) -> (r: i64)
    ensures
        r == saturated(outside::duration_millis(elapsed)),
{
    saturated_millis(outside::whole_millis(elapsed))
}

/// The timestamp of a clock: the time since the Unix epoch, or zero where the clock reads
/// before it.
pub open spec fn stamp(since_epoch: Option<std::time::Duration>) -> int {
    match since_epoch {
        Some(elapsed) => saturated(outside::duration_millis(elapsed)),
        None => 0,
    }
}

/// The timestamp of a clock: the time since the Unix epoch, or zero where the clock reads
/// before it.
pub fn timestamp(since_epoch: Option<std::time::Duration>) -> (r: i64)
    ensures
        r == stamp(since_epoch),
{
    match since_epoch {
        Some(elapsed) => millis_of(elapsed),
        None => 0,
    }
}

/// Milliseconds since the Unix epoch; zero on a clock that reads before it.
pub fn now_ms() -> (r: i64)
    ensures
        r >= 0,
        exists|reading: std::time::SystemTime| r == stamp(#[trigger] outside::elapsed_at(reading)),
{
    timestamp(outside::since_epoch(outside::read_clock()))
}

/// The verdict on a clock, given whether it reads at or after the epoch.
pub fn clock_verdict(readable: bool) -> (r: Result<(), Error>)
    ensures
        if readable {
            r is Ok
        } else {
            text::refused(
                r,
                "the system clock reads before 1970-01-01; kanban stamps every record it writes and orders leases by those stamps, so it will not write a time it cannot compute"@,
            )
        },
{
    if readable {
        Ok(())
    } else {
        text::refuse(
            "the system clock reads before 1970-01-01; kanban stamps every record it writes and orders leases by those stamps, so it will not write a time it cannot compute".to_owned(),
        )
    }
}

/// Refuse to run on a clock that cannot produce a timestamp. What the clock
/// reads is up to the machine.
pub fn require_sane_clock() -> (r: Result<(), Error>)
    ensures
        exists|reading: std::time::SystemTime|
            r is Ok <==> (#[trigger] outside::elapsed_at(reading)) is Some,
        r is Err ==> text::refused(
            r,
            "the system clock reads before 1970-01-01; kanban stamps every record it writes and orders leases by those stamps, so it will not write a time it cannot compute"@,
        ),
{
    clock_verdict(outside::since_epoch(outside::read_clock()).is_some())
}

} // verus!
