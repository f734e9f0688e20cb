//! Capture timestamps, read from the system clock.
use vstd::prelude::*;
use std::time::{Duration, SystemTime};

verus! {

#[verifier::external_type_specification]
#[verifier::external_body]
pub struct ExSystemTime(std::time::SystemTime);

/// Relies on `SystemTime::now`: a reading of the system clock. Nothing is
/// known of its value.
pub assume_specification[ std::time::SystemTime::now ]() -> std::time::SystemTime;

/// Relies on `Duration::as_secs`: the whole seconds of a duration.
pub assume_specification[ core::time::Duration::as_secs ](d: &core::time::Duration) -> u64;

/// Relies on `Duration::subsec_nanos`: the fractional part of a duration in
/// nanoseconds, which std documents as always below one second.
pub assume_specification[ core::time::Duration::subsec_nanos ](d: &core::time::Duration) -> (r: u32)
    ensures
        r < 1_000_000_000,
;

/// Relies on `SystemTime::duration_since` with `UNIX_EPOCH`: the time since
/// the epoch, or `None` for a clock set before it.
#[verifier::external_body]
fn since_epoch(t: &SystemTime) -> Option<Duration> {
    t.duration_since(std::time::UNIX_EPOCH).ok()
}

/// Whole milliseconds in `secs` seconds and `nanos` nanoseconds.
pub open spec fn duration_millis(secs: u64, nanos: u32) -> int {
    secs * 1000 + nanos / 1_000_000
}

/// Whole milliseconds in a duration of `secs` seconds and `nanos`
/// nanoseconds; the sub-millisecond rest is dropped.
pub fn millis_of(secs: u64, nanos: u32) -> (r: u128)
    requires
        nanos < 1_000_000_000,
    ensures
        r == duration_millis(secs, nanos),
        r <= u64::MAX as u128 * 1000 + 999,
{
    secs as u128 * 1000 + nanos as u128 / 1_000_000
}

/// Milliseconds since the UNIX epoch by the system clock; 0 if the clock is
/// set before the epoch.
pub fn now_millis() -> (r: u128)
    ensures
        r <= u64::MAX as u128 * 1000 + 999,
{
    let now = SystemTime::now();
    match since_epoch(&now) {
        Some(d) => millis_of(d.as_secs(), d.subsec_nanos()),
        None => 0,
    }
}

/// A later clock reading never gives fewer milliseconds: durations ordered
/// by seconds, then nanoseconds, keep their order.
pub proof fn lemma_millis_monotonic(s1: u64, n1: u32, s2: u64, n2: u32)
    requires
        n1 < 1_000_000_000,
        n2 < 1_000_000_000,
        s1 < s2 || (s1 == s2 && n1 <= n2),
    ensures
        duration_millis(s1, n1) <= duration_millis(s2, n2),
{
    assert(n1 / 1_000_000 <= 999 && n2 / 1_000_000 >= 0);
    if s1 == s2 {
        assert(n1 / 1_000_000 <= n2 / 1_000_000) by (nonlinear_arith)
            requires
                n1 <= n2,
        ;
    }
}

} // verus!
