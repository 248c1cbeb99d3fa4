use crate::outside::{rfc3339_of, rfc3339_parsed, rfc3339_text, rfc3339_time};
use vstd::prelude::*;

verus! {

/// A point in time: whole seconds since the Unix epoch and the nanoseconds
/// within that second.
#[derive(Clone, Copy, Debug, PartialEq, Eq, Structural)]
pub struct Timestamp {
    pub secs: i64,
    pub nanos: u32,
}

impl Timestamp {
    /// The single integer by which timestamps are ordered: seconds first,
    /// nanoseconds second.
    pub open spec fn key(self) -> int {
        self.secs * 0x1_0000_0000 + self.nanos
    }

    /// `self` lies strictly after `other`.
    pub open spec fn newer_than(self, other: Timestamp) -> bool {
        self.key() > other.key()
    }

    /// The timestamp of the seconds and nanoseconds given.
    pub fn new(secs: i64, nanos: u32) -> (t: Timestamp)
        ensures
            t.secs == secs,
            t.nanos == nanos,
    {
        Timestamp { secs, nanos }
    }

    /// Decides `newer_than` by comparing seconds, then nanoseconds.
    pub fn is_newer_than(&self, other: &Timestamp) -> (newer: bool)
        ensures
            newer == self.newer_than(*other),
    {
        self.secs > other.secs || (self.secs == other.secs && self.nanos > other.nanos)
    }
}

/// The time that `text` names in RFC 3339, as a timestamp.
pub open spec fn time_of_text(text: Seq<char>) -> Option<Timestamp> {
    match rfc3339_time(text) {
        Some(pair) => Some(Timestamp { secs: pair.0, nanos: pair.1 }),
        None => None,
    }
}

/// The RFC 3339 text of a timestamp, as it is kept in a file. There is none
/// for a timestamp that the calendar cannot name.
pub fn timestamp_text(t: Timestamp) -> (text: Option<String>)
    ensures
        match text {
            Some(written) => rfc3339_text(t.secs, t.nanos) == Some(written@),
            None => rfc3339_text(t.secs, t.nanos) is None,
        },
{
    rfc3339_of(t.secs, t.nanos)
}

/// The timestamp that an RFC 3339 text names, if it names one.
pub fn timestamp_of_text(text: &str) -> (t: Option<Timestamp>)
    ensures
        t == time_of_text(text@),
{
    match rfc3339_parsed(text) {
        Some(pair) => Some(Timestamp { secs: pair.0, nanos: pair.1 }),
        None => None,
    }
}

} // verus!
