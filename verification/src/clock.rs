//! The wall clock.

use std::time::{Duration, SystemTime, SystemTimeError};
use vstd::prelude::*;

verus! {

/// A point in time of the system clock.
#[verifier::external_type_specification]
#[verifier::external_body]
pub struct ExSystemTime(SystemTime);

/// The error of a clock that stands before the epoch.
#[verifier::external_type_specification]
#[verifier::external_body]
pub struct ExSystemTimeError(SystemTimeError);

/// `SystemTime::now`: reads the system clock. Nothing is claimed of the time that it shows.
pub assume_specification [SystemTime::now] () -> SystemTime;

/// The point in time, in nanoseconds since the Unix epoch; negative before it.
pub uninterp spec fn unix_nanos(time: SystemTime) -> int;

/// The length of a span of time, in nanoseconds.
pub uninterp spec fn span_nanos(span: Duration) -> nat;

/// `SystemTime::duration_since` the Unix epoch: the time elapsed since then, and an error for a
/// point in time before it.
#[verifier::external_body]
fn since_epoch(time: SystemTime) -> (r: Result<Duration, SystemTimeError>)
    ensures
        match r {
            Ok(span) => unix_nanos(time) >= 0 && span_nanos(span) == unix_nanos(time),
            Err(_) => unix_nanos(time) < 0,
        },
{
    time.duration_since(SystemTime::UNIX_EPOCH)
}

/// `Duration::as_millis`: the whole milliseconds of a span.
pub assume_specification [Duration::as_millis] (span: &Duration) -> (r: u128)
    ensures
        r == span_nanos(*span) / 1_000_000,
;

/// The clock reading for a span since the epoch: its milliseconds, cut to 64 bits, and zero for
/// a clock that stands before the epoch.
pub fn reading(elapsed_ms: Option<u128>) -> (r: u64)
    ensures
        r as int == match elapsed_ms {
            None => 0,
            Some(ms) => ms as int % 0x1_0000_0000_0000_0000,
        },
{
    match elapsed_ms {
        None => 0,
        Some(ms) => (ms % 0x1_0000_0000_0000_0000) as u64,
    }
}

/// What a clock shows at `nanos` nanoseconds since the Unix epoch: the whole milliseconds, cut to
/// 64 bits, and zero before the epoch.
pub open spec fn reading_at(nanos: int) -> int {
    if nanos < 0 {
        0
    } else {
        nanos / 1_000_000 % 0x1_0000_0000_0000_0000
    }
}

/// Whether `ms` is what a clock shows at some point in time.
pub open spec fn is_shown(ms: u64) -> bool {
    exists|time: SystemTime| ms == reading_at(#[trigger] unix_nanos(time))
}

/// The time in milliseconds since the Unix epoch: what a clock shows at the point in time that the
/// machine gives. Which point that is depends on the machine's clock alone.
pub fn now_ms() -> (r: u64)
    ensures
        is_shown(r),
{
    let time: SystemTime = SystemTime::now();
    match since_epoch(time) {
        Ok(span) => reading(Some(span.as_millis())),
        Err(_) => reading(None),
    }
}

} // verus!
