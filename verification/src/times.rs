//! Points in time as the store keeps them: whole seconds since the Unix epoch.
use vstd::prelude::*;

verus! {

/// A point in time at or after the Unix epoch, as seconds and nanoseconds.
#[derive(Clone, Copy, Debug, PartialEq, Eq, PartialOrd, Ord, Hash)]
pub struct TimePoint {
    pub secs: u64,
    pub nanos: u32,
}

/// The value that the store keeps for a point in time.
pub open spec fn epoch_secs(t: TimePoint) -> i64 {
    t.secs as i64
}

/// The whole seconds since the epoch, as the store keeps them.
pub fn system_time_to_i64(st: TimePoint) -> (r: i64)
    ensures
        r == epoch_secs(st),
{
    st.secs as i64
}

/// The point in time that a stored number of seconds stands for.
pub fn i64_to_system_time(ts: i64) -> (r: TimePoint)
    requires
        ts >= 0,
    ensures
        r == (TimePoint { secs: ts as u64, nanos: 0 }),
{
    TimePoint { secs: ts as u64, nanos: 0 }
}

/// The point in time truncated to whole seconds, as it comes back from the store.
pub open spec fn stored_time(t: TimePoint) -> TimePoint {
    TimePoint { secs: t.secs, nanos: 0 }
}

/// A point whose seconds fit in `i64` is kept as exactly those seconds.
pub proof fn lemma_epoch_secs_exact(t: TimePoint)
    requires
        t.secs <= i64::MAX,
    ensures
        epoch_secs(t) == t.secs,
{
}

} // verus!
