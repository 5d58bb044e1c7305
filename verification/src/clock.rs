//! Points in time and spans of time, in nanoseconds.
use vstd::prelude::*;

verus! {

/// A span of time.
#[derive(Clone, Copy, Debug, PartialEq, Eq, Structural)]
pub struct Duration {
    pub nanos: u64,
}

/// A point on the monotonic clock, counted from when the process first read
/// it.
#[derive(Clone, Copy, Debug, PartialEq, Eq, Structural)]
pub struct Instant {
    pub nanos: u64,
}

/// The time from `earlier` to `later`, zero where `later` comes first.
pub open spec fn elapsed(earlier: Instant, later: Instant) -> Duration {
    if earlier.nanos <= later.nanos {
        Duration { nanos: (later.nanos - earlier.nanos) as u64 }
    } else {
        Duration { nanos: 0 }
    }
}

impl Duration {
    /// A span of `millis` milliseconds.
    pub fn from_millis(millis: u32) -> (d: Duration)
        ensures
            d.nanos == millis * 1_000_000,
    {
        Duration { nanos: millis as u64 * 1_000_000 }
    }
}

impl Instant {
    /// The time from `earlier` to this point, zero where `earlier` is the
    /// later of the two.
    pub fn duration_since(&self, earlier: Instant) -> (d: Duration)
        ensures
            d == elapsed(earlier, *self),
    {
        if earlier.nanos <= self.nanos {
            Duration { nanos: self.nanos - earlier.nanos }
        } else {
            Duration { nanos: 0 }
        }
    }
}

/// What a `std::time::Duration` of this many nanoseconds prints as with `{:?}`.
pub uninterp spec fn duration_text(nanos: u64) -> Seq<char>;

/// The `Debug` rendering of `std::time::Duration`, such as `1.5s` or `600ms`.
/// It depends on the length of the span alone, and is called
/// [`duration_text`] in every contract. The choice of unit and the number of
/// digits are left unsaid.
#[verifier::external_body]
fn debug_duration(nanos: u64) -> (s: String)
    ensures
        s@ == duration_text(nanos),
{
    format!("{:?}", std::time::Duration::from_nanos(nanos))
}

impl Duration {
    /// The span as a reader sees it in a report.
    pub fn to_text(&self) -> (s: String)
        ensures
            s@ == duration_text(self.nanos),
    {
        debug_duration(self.nanos)
    }
}

// ---------------------------------------------------------------------------
// Laws
// ---------------------------------------------------------------------------

/// From a point in time to one that lies `nanos` behind it, `nanos` pass; back
/// again, nothing does.
pub proof fn time_passes_forward(earlier: Instant, later: Instant, nanos: u64)
    requires
        earlier.nanos + nanos == later.nanos,
    ensures
        elapsed(earlier, later).nanos == nanos,
        elapsed(later, earlier).nanos == 0,
{
}

} // verus!
