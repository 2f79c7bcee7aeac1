//! The watchdog over the ethical audit: the audit thread counts its beats,
//! and the core loop stops the organism once the count has stood still for
//! too long. Times are monotonic clock readings in nanoseconds.

use vstd::prelude::*;

verus! {

/// How long the beat count may stand still (1.5 s).
pub const HEARTBEAT_TIMEOUT_NS: u64 = 1_500_000_000;

/// The last beat count seen, and when it was last seen to advance.
#[derive(Debug, Clone, Copy, PartialEq, Eq, Structural)]
pub struct HeartbeatWatch {
    pub last_count: u64,
    pub last_seen_ns: u64,
}

/// How long ago `then` was at `now`; a reading from the future counts as now.
pub open spec fn since(now: u64, then: u64) -> int {
    if now >= then { now - then } else { 0 }
}

impl HeartbeatWatch {
    /// A watch that has seen no beat, started at `now_ns`.
    pub fn new(now_ns: u64) -> (w: Self)
        ensures
            w == (HeartbeatWatch { last_count: 0, last_seen_ns: now_ns }),
    {
        HeartbeatWatch { last_count: 0, last_seen_ns: now_ns }
    }

    /// Looks at the beat count `count` at `now_ns`: an advanced count is
    /// remembered with the time; a count that has not advanced for longer
    /// than the timeout means the audit is lost.
    pub fn observe(&self, count: u64, now_ns: u64) -> (r: (HeartbeatWatch, bool))
        ensures
            count > self.last_count ==> r == (HeartbeatWatch { last_count: count, last_seen_ns: now_ns }, false),
            count <= self.last_count ==> r == (*self, since(now_ns, self.last_seen_ns) > HEARTBEAT_TIMEOUT_NS),
    {
        if count > self.last_count {
            (HeartbeatWatch { last_count: count, last_seen_ns: now_ns }, false)
        } else {
            let elapsed = if now_ns >= self.last_seen_ns { now_ns - self.last_seen_ns } else { 0 };
            (*self, elapsed > HEARTBEAT_TIMEOUT_NS)
        }
    }
}

} // verus!
