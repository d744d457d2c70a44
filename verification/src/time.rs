//! Points in time, as whole seconds and nanoseconds counted from the Unix epoch.

use vstd::prelude::*;

verus! {

pub const NANOS_PER_SEC: u32 = 1_000_000_000;

/// A point in time: `secs` whole seconds after the Unix epoch (before it when
/// negative) and `nanos` nanoseconds into that second.
#[derive(Clone, Copy, Debug, PartialEq, Eq, Structural)]
pub struct Timestamp {
    pub secs: i64,
    pub nanos: u32,
}

impl Timestamp {
    /// The nanosecond count is below one second.
    pub open spec fn wf(self) -> bool {
        self.nanos < NANOS_PER_SEC
    }

    /// The point in time as nanoseconds from the epoch.
    pub open spec fn as_nanos(self) -> int {
        self.secs * 1_000_000_000 + self.nanos
    }

    /// On well-formed values the comparison is that of the nanosecond counts.
    pub proof fn lemma_order_is_chronological(self, other: Timestamp)
        requires
            self.wf(),
            other.wf(),
        ensures
            self.at_or_before(other) <==> self.as_nanos() <= other.as_nanos(),
    {
    }

    /// The instant `secs` whole seconds after the epoch.
    pub fn from_secs(secs: i64) -> (t: Timestamp)
        ensures
            t.wf(),
            t.secs == secs,
            t.nanos == 0,
    {
        Timestamp { secs, nanos: 0 }
    }

    /// Whether `self` is not later than `other`: an earlier second, or the same
    /// second and no more nanoseconds.
    pub open spec fn at_or_before(self, other: Timestamp) -> bool {
        self.secs < other.secs || (self.secs == other.secs && self.nanos <= other.nanos)
    }

    /// Compares two points in time.
    pub fn is_at_or_before(&self, other: &Timestamp) -> (earlier: bool)
        ensures
            earlier == self.at_or_before(*other),
    {
        self.secs < other.secs || (self.secs == other.secs && self.nanos <= other.nanos)
    }

    /// The instant `secs` seconds before `self`, or `None` where the seconds leave
    /// the range of `i64`.
    pub fn checked_sub_secs(&self, secs: u64) -> (earlier: Option<Timestamp>)
        ensures
            match earlier {
                Some(t) => t.secs == self.secs - secs && t.nanos == self.nanos,
                None => self.secs - secs < i64::MIN,
            },
    {
        if secs > i64::MAX as u64 {
            // self.secs - secs >= i64::MIN needs self.secs >= secs + i64::MIN
            let over: u64 = secs - i64::MAX as u64;
            // secs = i64::MAX + over, with 1 <= over <= i64::MAX + 1
            if self.secs >= 0 && self.secs as u64 + 1 >= over {
                let below: i64 = (self.secs as u64 + 1 - over) as i64;
                Some(Timestamp { secs: below + i64::MIN, nanos: self.nanos })
            } else {
                None
            }
        } else {
            let delta: i64 = secs as i64;
            if self.secs >= i64::MIN + delta {
                Some(Timestamp { secs: self.secs - delta, nanos: self.nanos })
            } else {
                None
            }
        }
    }
}

} // verus!
