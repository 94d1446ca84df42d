//! Points in time and the distances between them, as whole nanoseconds.

use vstd::prelude::*;

verus! {

/// Nanoseconds in a second.
pub const NANOS: u128 = 1_000_000_000;

/// A span of time.
#[derive(Debug, Clone, Copy, PartialEq, Eq, PartialOrd, Ord, Hash, Structural)]
pub struct Duration {
    pub nanos: u128,
}

impl Duration {
    /// A whole number of seconds.
    pub fn from_secs(secs: u64) -> (r: Duration)
        ensures
            r.nanos == secs * NANOS,
    {
        Duration { nanos: secs as u128 * NANOS }
    }

    /// A whole number of milliseconds.
    pub fn from_millis(millis: u64) -> (r: Duration)
        ensures
            r.nanos == millis * 1_000_000,
    {
        Duration { nanos: millis as u128 * 1_000_000 }
    }
}

/// A reading of a clock that never goes back. The origin is the clock's own.
#[derive(Debug, Clone, Copy, PartialEq, Eq, PartialOrd, Ord, Hash, Structural)]
pub struct Instant {
    pub nanos: u128,
}

impl Instant {
    /// Whether `span` later can still be held.
    pub open spec fn reaches(self, span: Duration) -> bool {
        self.nanos + span.nanos <= u128::MAX
    }

    /// The reading `span` later.
    pub open spec fn after(self, span: Duration) -> Instant {
        Instant { nanos: (self.nanos + span.nanos) as u128 }
    }

    /// The reading `span` later.
    pub fn plus(&self, span: Duration) -> (r: Instant)
        requires
            self.reaches(span),
        ensures
            r == self.after(span),
            r.nanos == self.nanos + span.nanos,
    {
        Instant { nanos: self.nanos + span.nanos }
    }
}

/// A reading of the wall clock: `secs` seconds and `nanos` nanoseconds after the Unix epoch.
#[derive(Debug, Clone, Copy, PartialEq, Eq, PartialOrd, Ord, Hash, Structural)]
pub struct SystemTime {
    pub secs: i64,
    pub nanos: u32,
}

impl SystemTime {
    /// Nanoseconds after the Unix epoch.
    pub open spec fn at(self) -> int {
        self.secs * NANOS + self.nanos
    }

    /// A whole number of seconds after the Unix epoch.
    pub fn from_unix_secs(secs: i64) -> (r: SystemTime)
        ensures
            r == (SystemTime { secs, nanos: 0 }),
            r.at() == secs * NANOS,
    {
        SystemTime { secs, nanos: 0 }
    }

    fn read(&self) -> (r: i128)
        ensures
            r == self.at(),
    {
        self.secs as i128 * 1_000_000_000 + self.nanos as i128
    }

    /// How long before this reading another one is; nothing where the other one is later.
    pub fn duration_since(&self, earlier: SystemTime) -> (r: Option<Duration>)
        ensures
            r is Some <==> earlier.at() <= self.at(),
            r matches Some(d) ==> d.nanos == self.at() - earlier.at(),
    {
        let (now, before): (i128, i128) = (self.read(), earlier.read());
        if before <= now {
            Some(Duration { nanos: (now - before) as u128 })
        } else {
            None
        }
    }

    /// Whether this reading is earlier than another one.
    pub fn is_before(&self, other: SystemTime) -> (r: bool)
        ensures
            r == (self.at() < other.at()),
    {
        self.read() < other.read()
    }
}

/// A second is a thousand million nanoseconds, and readings are ordered by both parts: a later
/// second is later, and of the same second the one with more nanoseconds.
pub proof fn law_readings_are_ordered_by_seconds_and_nanoseconds(a: SystemTime, b: SystemTime)
    requires
        a.nanos < 1_000_000_000,
        b.nanos < 1_000_000_000,
    ensures
        a.at() == a.secs * 1_000_000_000 + a.nanos,
        a.at() < b.at() <==> a.secs < b.secs || (a.secs == b.secs && a.nanos < b.nanos),
{
}

}
