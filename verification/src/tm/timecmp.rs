//! Comparison of points in time by the seconds that the store keeps.
use crate::times::{epoch_secs, lemma_epoch_secs_exact, system_time_to_i64, TimePoint};
use vstd::prelude::*;

verus! {

/// The order of two points in time by the seconds that the store keeps of them.
pub open spec fn time_order(a: TimePoint, b: TimePoint) -> std::cmp::Ordering {
    if epoch_secs(a) < epoch_secs(b) {
        std::cmp::Ordering::Less
    } else if epoch_secs(a) == epoch_secs(b) {
        std::cmp::Ordering::Equal
    } else {
        std::cmp::Ordering::Greater
    }
}

/// Compares two points in time by their whole seconds since the epoch.
pub fn compare_system_times(a: TimePoint, b: TimePoint) -> (r: std::cmp::Ordering)
    ensures
        r == time_order(a, b),
{
    let x = system_time_to_i64(a);
    let y = system_time_to_i64(b);
    if x < y {
        std::cmp::Ordering::Less
    } else if x == y {
        std::cmp::Ordering::Equal
    } else {
        std::cmp::Ordering::Greater
    }
}

/// For points whose seconds fit in `i64`: swapping the points reverses the
/// order, two points are equal exactly when they fall in the same whole second,
/// and an earlier or equal second never compares greater.
pub proof fn law_time_order_by_whole_seconds(a: TimePoint, b: TimePoint)
    requires
        a.secs <= i64::MAX,
        b.secs <= i64::MAX,
    ensures
        time_order(b, a) == (match time_order(a, b) {
            std::cmp::Ordering::Less => std::cmp::Ordering::Greater,
            std::cmp::Ordering::Equal => std::cmp::Ordering::Equal,
            std::cmp::Ordering::Greater => std::cmp::Ordering::Less,
        }),
        (time_order(a, b) == std::cmp::Ordering::Equal) <==> a.secs == b.secs,
        a.secs <= b.secs ==> time_order(a, b) != std::cmp::Ordering::Greater,
{
    lemma_epoch_secs_exact(a);
    lemma_epoch_secs_exact(b);
}

} // verus!
