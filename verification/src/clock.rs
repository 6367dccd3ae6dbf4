//! Moments and spans of time.
use vstd::prelude::*;

verus! {

/// A moment: seconds since the start of 1970, which may be negative, and the
/// nanoseconds (fewer than a billion) that have passed since that second.
#[derive(Clone, Copy, Debug, PartialEq, Eq, Structural)]
pub struct Timestamp {
    pub secs: i64,
    pub nanos: u32,
}

/// A length of time: seconds, and fewer than a billion nanoseconds.
#[derive(Clone, Copy, Debug, PartialEq, Eq, Structural)]
pub struct Span {
    pub secs: u64,
    pub nanos: u32,
}

impl Span {
    /// The length in nanoseconds.
    pub open spec fn total(self) -> nat {
        (self.secs * 1_000_000_000 + self.nanos) as nat
    }

    /// A span of whole seconds.
    pub fn from_secs(secs: u64) -> (s: Span)
        ensures
            s.secs == secs,
            s.nanos == 0,
    {
        Span { secs, nanos: 0 }
    }

    /// The length in nanoseconds.
    pub fn total_nanos(&self) -> (n: u128)
        ensures
            n == self.total(),
    {
        (self.secs as u128) * 1_000_000_000 + (self.nanos as u128)
    }
}

impl Timestamp {
    /// Whether this moment comes before another one.
    pub open spec fn before(self, other: Timestamp) -> bool {
        self.secs < other.secs || (self.secs == other.secs && self.nanos < other.nanos)
    }

    /// Whether this moment comes before another one.
    pub fn is_before(&self, other: &Timestamp) -> (b: bool)
        ensures
            b == self.before(*other),
    {
        self.secs < other.secs || (self.secs == other.secs && self.nanos < other.nanos)
    }

    /// The moment `secs` seconds later.
    pub fn plus_secs(&self, secs: u64) -> (t: Timestamp)
        requires
            self.secs + secs <= i64::MAX,
        ensures
            t.secs == self.secs + secs,
            t.nanos == self.nanos,
    {
        let sum: i128 = self.secs as i128 + secs as i128;
        Timestamp { secs: sum as i64, nanos: self.nanos }
    }
}

/// The second of a moment as it is written down. Moments before 1970 are
/// written as its start, so that everything counts as expired by then.
pub open spec fn epoch(time: Timestamp) -> i64 {
    if time.secs < 0 {
        0
    } else {
        time.secs
    }
}

/// The moment that a written second stands for.
pub open spec fn moment(seconds: i64) -> Timestamp {
    Timestamp {
        secs: if seconds < 0 {
            0
        } else {
            seconds
        },
        nanos: 0,
    }
}

/// Writes a moment down as seconds since the start of 1970.
pub fn to_epoch(time: Timestamp) -> (seconds: i64)
    ensures
        seconds == epoch(time),
{
    if time.secs < 0 {
        0
    } else {
        time.secs
    }
}

/// Reads a moment from seconds since the start of 1970.
pub fn from_epoch(seconds: i64) -> (time: Timestamp)
    ensures
        time == moment(seconds),
{
    if seconds < 0 {
        Timestamp { secs: 0, nanos: 0 }
    } else {
        Timestamp { secs: seconds, nanos: 0 }
    }
}

/// The second that lies a span before a moment, as it is written down: the start
/// of 1970 where that is earlier.
pub open spec fn cutoff(now: Timestamp, span: Span) -> i64 {
    let secs = now.secs - span.secs - (if now.nanos < span.nanos {
        1int
    } else {
        0int
    });
    if secs < 0 {
        0
    } else {
        secs as i64
    }
}

/// Computes the second that lies a span before a moment.
pub fn cutoff_before(now: Timestamp, span: Span) -> (seconds: i64)
    ensures
        seconds == cutoff(now, span),
{
    let borrow: i128 = if now.nanos < span.nanos {
        1
    } else {
        0
    };
    let secs: i128 = now.secs as i128 - span.secs as i128 - borrow;
    if secs < 0 {
        0
    } else {
        secs as i64
    }
}

/// A moment that is written down and read back is the start of its second; one
/// before 1970 comes back as the start of 1970.
pub proof fn law_epoch_round_trip(time: Timestamp)
    ensures
        moment(epoch(time)).nanos == 0,
        moment(epoch(time)).secs == if time.secs < 0 {
            0
        } else {
            time.secs
        },
        forall|s: i64| s >= 0 ==> #[trigger] epoch(moment(s)) == s,
{
}

/// Spans and moments are ordered by all of their nanoseconds, not by their seconds
/// alone.
pub proof fn law_time_is_ordered(a: Span, b: Span, s: Timestamp, t: Timestamp)
    requires
        a.nanos < 1_000_000_000,
        b.nanos < 1_000_000_000,
        s.nanos < 1_000_000_000,
        t.nanos < 1_000_000_000,
    ensures
        a.total() < b.total() <==> a.secs < b.secs || (a.secs == b.secs && a.nanos < b.nanos),
        a.secs == b.secs + 1 && a.nanos == b.nanos ==> a.total() == b.total() + 1_000_000_000,
        s.before(t) <==> s.secs * 1_000_000_000 + s.nanos < t.secs * 1_000_000_000 + t.nanos,
{
}

/// The second that lies a span before a moment is the last whole second that is
/// no later than that; nothing lies before the start of 1970.
pub proof fn law_cutoff_is_rounded_down(now: Timestamp, span: Span)
    requires
        now.nanos < 1_000_000_000,
        span.nanos < 1_000_000_000,
    ensures
        ({
            let left = (now.secs * 1_000_000_000 + now.nanos) - (span.secs * 1_000_000_000
                + span.nanos);
            let c = cutoff(now, span);
            if left < 0 {
                c == 0
            } else {
                c * 1_000_000_000 <= left < (c + 1) * 1_000_000_000
            }
        }),
{
}

} // verus!
