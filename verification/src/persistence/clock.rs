//! Instants in time, as milliseconds since the Unix epoch.

use vstd::prelude::*;

verus! {

/// A wall-clock instant in UTC, in milliseconds since the Unix epoch.
#[derive(Clone, Copy, Debug, PartialEq, Eq, Structural, Hash)]
pub struct Timestamp {
    pub millis: i64,
}

impl Timestamp {
    pub fn from_millis(millis: i64) -> (r: Timestamp)
        ensures
            r.millis == millis,
    {
        Timestamp { millis }
    }

    /// The current wall-clock time.
    pub(crate) fn now() -> Timestamp {
        Timestamp { millis: now_unix_millis() }
    }
}

impl Default for Timestamp {
    fn default() -> (r: Timestamp)
        ensures
            r.millis == 0,
    {
        Timestamp { millis: 0 }
    }
}

/// Relies on `chrono::Utc::now`: the host's current wall-clock time. Nothing
/// is assumed of the value; the clock may even jump backwards.
#[verifier::external_body]
fn now_unix_millis() -> i64 {
    chrono::Utc::now().timestamp_millis()
}

} // verus!
