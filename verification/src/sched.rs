//! Calls that face the clock and the scheduler rather than the slot tables:
//! timed sleep, the priority decision, and the time-value split. The clock
//! reading and the timer registration themselves belong to the kernel around
//! the library; here the computed deadline and the decision are pinned down.

use vstd::prelude::*;
use crate::proc::{Park, SysEffect};

verus! {

/// A point in time split into whole seconds and the microsecond remainder.
#[derive(Clone, Copy, Debug, PartialEq, Eq)]
pub struct TimeVal {
    pub sec: usize,
    pub usec: usize,
}

impl TimeVal {
    /// Split a microsecond reading of the monotonic clock into seconds and
    /// microseconds.
    pub fn from_micros(us: usize) -> (tv: TimeVal)
        ensures
            tv.sec == us / 1000000,
            tv.usec == us % 1000000,
            tv.usec < 1000000,
    {
        TimeVal { sec: us / 1000000, usec: us % 1000000 }
    }
}

/// Timed sleep, called at monotonic time `now_ms`: the caller is suspended
/// until the deadline `now_ms + ms`, and the scheduler's timer wakes it no
/// earlier than that. The call returns 0 once the thread runs again.
pub fn sys_sleep(ms: usize, now_ms: usize) -> (e: SysEffect)
    requires
        now_ms + ms <= usize::MAX,
    ensures
        e.status == 0,
        e.wake is None,
        e.park == Park::BlockUntil((now_ms + ms) as usize),
        e.park matches Park::BlockUntil(deadline) && deadline >= now_ms + ms,
{
    SysEffect { status: 0, wake: None, park: Park::BlockUntil(now_ms + ms) }
}

/// Decide a set-priority request: priorities of 2 and below are invalid and
/// rejected with -1; any other priority is adopted and echoed back. The
/// scheduler applies an accepted value.
pub fn sys_set_priority(prio: isize) -> (r: isize)
    ensures
        r == (if prio <= 2 {
            -1isize
        } else {
            prio
        }),
{
    if prio <= 2 {
        -1
    } else {
        prio
    }
}

} // verus!
