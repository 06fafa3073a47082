//! Points in time, counted in nanoseconds from some common start.

use vstd::prelude::*;

verus! {

/// A second.
pub const SECOND: u64 = 1_000_000_000;

/// The time from `then` to `now`, or nothing if `then` lies ahead.
pub open spec fn since(now: u64, then: u64) -> u64 {
    if now > then {
        (now - then) as u64
    } else {
        0
    }
}

/// Returns the time from `then` to `now`, or nothing if `then` lies ahead.
pub fn elapsed(now: u64, then: u64) -> (time: u64)
    ensures
        time == since(now, then),
{
    if now > then {
        now - then
    } else {
        0
    }
}

} // verus!
