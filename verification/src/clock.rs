//! Times for the tracker, counted in nanoseconds.
//!
//! The tracker compares times as plain numbers. A caller that counts
//! nanoseconds and has a timeout in seconds gets it in nanoseconds here.

use vstd::prelude::*;

verus! {

/// The nanoseconds in one second.
pub const NANOS_PER_SECOND: u64 = 1_000_000_000;

/// Whether `elapsed` nanoseconds are more than `seconds` seconds.
pub open spec fn is_longer_than(elapsed: u64, seconds: u64) -> bool {
    elapsed > seconds * NANOS_PER_SECOND
}

/// `seconds` in nanoseconds, or the greatest number where that does not
/// fit. As a timeout the result does what `seconds` asks for either way:
/// no time that can be counted lies beyond the greatest number.
pub fn seconds_to_nanos(seconds: u64) -> (nanos: u64)
    ensures
        nanos == if seconds * NANOS_PER_SECOND <= u64::MAX {
            seconds * NANOS_PER_SECOND
        } else {
            u64::MAX as int
        },
        forall|elapsed: u64| elapsed > nanos <==> #[trigger] is_longer_than(elapsed, seconds),
{
    if seconds > u64::MAX / NANOS_PER_SECOND {
        u64::MAX
    } else {
        seconds * NANOS_PER_SECOND
    }
}

} // verus!
