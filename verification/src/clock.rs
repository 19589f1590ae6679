//! Points in time, and the wall clock.

use vstd::prelude::*;

verus! {

/// A point in time: whole seconds since the Unix epoch and the nanoseconds
/// past that second.
#[derive(Debug, Clone, Copy, PartialEq, Eq, Structural)]
pub struct Timestamp {
    /// Seconds since 1970-01-01T00:00:00Z (negative before it).
    pub seconds: i64,
    /// Nanoseconds past `seconds`.
    pub nanos: u32,
}

impl Timestamp {
    /// Nanoseconds since the Unix epoch; zero for instants before it.
    pub open spec fn unix_nanos(self) -> nat {
        if self.seconds < 0 {
            0
        } else {
            (self.seconds * 1_000_000_000 + self.nanos) as nat
        }
    }

    /// Nanoseconds since the Unix epoch, saturating at zero before it.
    pub fn as_unix_nanos(&self) -> (n: u128)
        ensures
            n == self.unix_nanos(),
    {
        if self.seconds < 0 {
            0
        } else {
            (self.seconds as u128) * 1_000_000_000 + (self.nanos as u128)
        }
    }
}

/// The current time.
///
/// Trusted: calls `chrono::Utc::now`. Its source (on every target but
/// wasm32 without WASI) reads `SystemTime::now()`, panics if that is before
/// the Unix epoch, and keeps the sub-second part of a `Duration`; so the
/// seconds are never negative and the nanoseconds stay under one second.
/// Which instant comes back is the clock's business and is not stated.
#[verifier::external_body]
pub(crate) fn now() -> (t: Timestamp)
    ensures
        t.seconds >= 0,
        t.nanos < 1_000_000_000,
{
    let now = chrono::Utc::now();
    Timestamp { seconds: now.timestamp(), nanos: now.timestamp_subsec_nanos() }
}

} // verus!
