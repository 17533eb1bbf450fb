//! Time as plain numbers: nanoseconds on a monotonic clock, and seconds since
//! the Unix epoch.

use vstd::prelude::*;

verus! {

#[verifier::external_type_specification]
#[verifier::external_body]
pub struct ExInstant(std::time::Instant);

/// `Instant::now`: a reading of the monotonic clock. Nothing is claimed of
/// which one.
pub assume_specification[ std::time::Instant::now ]() -> std::time::Instant
;

/// The nanoseconds from one instant to another, none where the other is the
/// earlier one.
pub uninterp spec fn nanos_between(
    earlier: std::time::Instant,
    later: std::time::Instant,
) -> int;

/// The length of a duration in nanoseconds.
pub uninterp spec fn duration_nanos(duration: std::time::Duration) -> int;

/// `Instant::saturating_duration_since`: the time from one instant to another,
/// or none where the other is the earlier one. How long it is between two given
/// instants is named.
pub assume_specification[ std::time::Instant::saturating_duration_since ](
    instant: &std::time::Instant,
    earlier: std::time::Instant,
) -> (d: std::time::Duration)
    ensures
        duration_nanos(d) == nanos_between(earlier, *instant),
;

/// `Duration::as_nanos`: the length of a duration in nanoseconds, which is
/// named.
pub assume_specification[ std::time::Duration::as_nanos ](
    duration: &std::time::Duration,
) -> (n: u128)
    ensures
        n == duration_nanos(*duration),
;

/// `Duration::as_secs`: the whole seconds of a duration, without the part of a
/// second that is left.
pub assume_specification[ std::time::Duration::as_secs ](duration: &std::time::Duration) -> (s: u64)
    ensures
        s == duration_nanos(*duration) / 1_000_000_000,
;

/// `SystemTime::elapsed` on the Unix epoch: the time since then, or nothing
/// where the system clock stands before it. Nothing is claimed of the value.
#[verifier::external_body]
fn since_epoch() -> (d: Option<std::time::Duration>) {
    std::time::UNIX_EPOCH.elapsed().ok()
}

/// The whole seconds of a time since the Unix epoch, as a signed number; zero
/// where there is no such time.
pub open spec fn whole_seconds(since: Option<std::time::Duration>) -> i64 {
    match since {
        Some(d) => (duration_nanos(d) / 1_000_000_000) as u64 as i64,
        None => 0,
    }
}

/// The whole seconds of a time since the Unix epoch, as a signed number; zero
/// where there is no such time.
pub fn seconds_of(since: Option<std::time::Duration>) -> (s: i64)
    ensures
        s == whole_seconds(since),
        since matches Some(d) ==> s == (duration_nanos(d) / 1_000_000_000) as u64 as i64,
        since is None ==> s == 0,
{
    match since {
        Some(d) => d.as_secs() as i64,
        None => 0,
    }
}

/// The nanoseconds of a time since the Unix epoch, cut to 64 bits; `fallback`
/// where there is no such time.
pub open spec fn low_nanos(since: Option<std::time::Duration>, fallback: u64) -> u64 {
    match since {
        Some(d) => duration_nanos(d) as u128 as u64,
        None => fallback,
    }
}

/// The nanoseconds of a time since the Unix epoch, cut to 64 bits; `fallback`
/// where there is no such time.
pub fn nanos_or(since: Option<std::time::Duration>, fallback: u64) -> (n: u64)
    ensures
        n == low_nanos(since, fallback),
        since matches Some(d) ==> n == duration_nanos(d) as u128 as u64,
        since is None ==> n == fallback,
{
    match since {
        Some(d) => d.as_nanos() as u64,
        None => fallback,
    }
}

/// Whether these are the whole seconds of some time since the Unix epoch.
pub open spec fn is_unix_seconds(s: i64) -> bool {
    exists|since: Option<std::time::Duration>| s == #[trigger] whole_seconds(since)
}

/// Whether these are the nanoseconds of some time since the Unix epoch, cut to
/// 64 bits, with `fallback` for no such time.
pub open spec fn is_unix_nanos(n: u64, fallback: u64) -> bool {
    exists|since: Option<std::time::Duration>| n == #[trigger] low_nanos(since, fallback)
}

/// Whole seconds since the Unix epoch, or zero where the system clock stands
/// before it.
pub(crate) fn unix_seconds() -> (s: i64)
    ensures
        is_unix_seconds(s),
        s == 0 || exists|d: std::time::Duration|
            s == (#[trigger] duration_nanos(d) / 1_000_000_000) as u64 as i64,
{
    seconds_of(since_epoch())
}

/// Nanoseconds since the Unix epoch, cut to 64 bits, or `fallback` where the
/// system clock stands before it.
pub(crate) fn unix_nanos_or(fallback: u64) -> (n: u64)
    ensures
        is_unix_nanos(n, fallback),
{
    nanos_or(since_epoch(), fallback)
}

/// A monotonic clock that starts at zero. Copies of a clock share its start,
/// so that their readings can be held against each other.
#[derive(Debug, Clone, Copy)]
pub struct Clock {
    origin: std::time::Instant,
}

/// What a clock shows at an instant: the nanoseconds since it was started.
pub open spec fn reading(c: Clock, at: std::time::Instant) -> int {
    nanos_between(c.started(), at)
}

/// Whether a clock shows this number of nanoseconds at some instant.
pub open spec fn is_reading(c: Clock, nanos: int) -> bool {
    exists|at: std::time::Instant| nanos == #[trigger] reading(c, at)
}

impl Clock {
    /// The instant at which the clock was started.
    pub closed spec fn started(&self) -> std::time::Instant {
        self.origin
    }

    /// A clock that starts now.
    pub fn start() -> (c: Clock) {
        Clock { origin: std::time::Instant::now() }
    }

    /// Nanoseconds from the start of the clock to an instant.
    pub fn at(&self, instant: std::time::Instant) -> (nanos: u128)
        ensures
            nanos == reading(*self, instant),
            nanos == nanos_between(self.started(), instant),
    {
        instant.saturating_duration_since(self.origin).as_nanos()
    }

    /// Nanoseconds since the clock was started.
    pub fn now(&self) -> (nanos: u128)
        ensures
            is_reading(*self, nanos as int),
    {
        self.at(std::time::Instant::now())
    }
}

/// Nanoseconds in a second.
pub const NANOS_PER_SEC: u128 = 1_000_000_000;

/// The time from `since` to `now`, or none where `now` is the earlier one.
pub open spec fn elapsed(since: int, now: int) -> int {
    if now >= since {
        now - since
    } else {
        0
    }
}

/// Time that has gone by is the difference of two readings, and none where the
/// clock seems to have gone back.
pub proof fn time_does_not_run_back(since: int, now: int)
    ensures
        since <= now ==> elapsed(since, now) == now - since,
        now <= since ==> elapsed(since, now) == 0,
        elapsed(since, now) >= 0,
        NANOS_PER_SEC == 1_000_000_000,
{
}

} // verus!
