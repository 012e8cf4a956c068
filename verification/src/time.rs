//! Clock readings for TTL math and event timestamps.
use vstd::prelude::*;

verus! {

/// Current wall-clock time in milliseconds since the Unix epoch: the stamp
/// written into records and events. The wall clock may step; TTL arithmetic
/// takes its times from `MonotonicClock` below instead.
///
/// Relies on std::time::SystemTime::now and duration_since(UNIX_EPOCH):
/// the reading depends on the clock, so nothing is promised of the value.
#[verifier::external_body]
pub fn now() -> u64 {
    std::time::SystemTime::now()
        .duration_since(std::time::UNIX_EPOCH)
        .unwrap_or_default()
        .as_millis() as u64
}

/// Whole seconds in a span of `ms` milliseconds.
pub fn as_secs_u64(ms: u64) -> (r: u64)
    ensures
        r == ms / 1000,
{
    ms / 1000
}

/// The local calendar day as `YYYY-MM-DD`: the key under which the daily
/// online statistics are written.
///
/// Relies on chrono::Local::now and its `%Y-%m-%d` formatting. The value
/// depends on the clock and the machine's time zone, so nothing is promised
/// of it. On a system clock set before the Unix epoch chrono's reading
/// itself fails; only the shell calls this.
#[verifier::external_body]
pub fn today() -> String {
    chrono::Local::now().format("%Y-%m-%d").to_string()
}

#[verifier::external_type_specification]
#[verifier::external_body]
pub struct ExInstant(std::time::Instant);

/// A monotonic clock for TTL arithmetic: its readings never decrease, where
/// the wall clock above may step backwards and wrongly extend liveness.
pub struct MonotonicClock {
    start: std::time::Instant,
    last: Ghost<u64>,
}

/// Relies on std::time::Instant::now: the reading is opaque here; only the
/// differences taken below carry meaning.
#[verifier::external_body]
fn instant_now() -> std::time::Instant {
    std::time::Instant::now()
}

impl MonotonicClock {
    /// The last reading this clock handed out (zero before the first).
    pub closed spec fn last_reading(&self) -> u64 {
        self.last@
    }

    /// Starts a clock; readings count milliseconds from here.
    pub fn new() -> (r: MonotonicClock)
        ensures
            r.last_reading() == 0,
    {
        MonotonicClock { start: instant_now(), last: Ghost(0) }
    }

    /// Milliseconds since the clock started. A later reading is never
    /// smaller than an earlier one.
    ///
    /// Relies on std::time::Instant::elapsed: Instant is monotonic and
    /// unaffected by wall-clock adjustments, and elapsed never panics.
    #[verifier::external_body]
    pub fn now_ms(&mut self) -> (r: u64)
        ensures
            r >= old(self).last_reading(),
            final(self).last_reading() == r,
    {
        self.start.elapsed().as_millis() as u64
    }
}

} // verus!
