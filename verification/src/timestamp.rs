//! Points in time, as the database stores them: without a time zone, read as UTC.

use chrono::DateTime;
use vstd::prelude::*;

verus! {

/// First second of the year -262143, the earliest one that `chrono` represents.
pub const MIN_SECS: i64 = -8_334_601_228_800;

/// Last second of the year 262142, the latest one that `chrono` represents.
pub const MAX_SECS: i64 = 8_210_266_876_799;

/// Whether `secs` seconds since the Unix epoch and `nanos` nanoseconds form a date and time.
///
/// A leap second is written as the second before it with a whole second of nanoseconds on top.
pub open spec fn representable(secs: i64, nanos: u32) -> bool {
    &&& MIN_SECS <= secs <= MAX_SECS
    &&& nanos < 2_000_000_000
    &&& nanos >= 1_000_000_000 ==> secs as int % 60 == 59
}

/// Microseconds since the Unix epoch of a date and time; what is below a microsecond is dropped.
pub open spec fn unix_micros(secs: i64, nanos: u32) -> int {
    secs * 1_000_000 + nanos as int / 1000
}

/// A date and time in UTC.
#[derive(Clone, Copy, PartialEq, Eq, Debug)]
pub struct Timestamp {
    secs: i64,
    nanos: u32,
}

/// `chrono::DateTime::timestamp_micros` of the date and time that
/// `chrono::DateTime::from_timestamp` gives for `secs` and `nanos`. The pair must be one for
/// which `from_timestamp` succeeds; the result is then the number of microseconds since the
/// Unix epoch.
#[verifier::external_body]
fn utc_micros(secs: i64, nanos: u32) -> (micros: i64)
    requires
        representable(secs, nanos),
    ensures
        micros == unix_micros(secs, nanos),
{
    DateTime::from_timestamp(secs, nanos).unwrap().naive_utc().and_utc().timestamp_micros()
}

impl Timestamp {
    #[verifier::type_invariant]
    spec fn is_representable(self) -> bool {
        representable(self.secs, self.nanos)
    }

    /// Whole seconds since the Unix epoch.
    pub closed spec fn secs(self) -> i64 {
        self.secs
    }

    /// Nanoseconds on top of the whole seconds.
    pub closed spec fn nanos(self) -> u32 {
        self.nanos
    }

    /// Microseconds since the Unix epoch.
    pub open spec fn micros(self) -> int {
        unix_micros(self.secs(), self.nanos())
    }

    /// `self` is at or before `other`.
    pub open spec fn at_or_before(self, other: Timestamp) -> bool {
        self.secs() < other.secs() || (self.secs() == other.secs() && self.nanos()
            <= other.nanos())
    }

    /// The later of two points in time.
    pub open spec fn later_of(self, other: Timestamp) -> Timestamp {
        if self.at_or_before(other) {
            other
        } else {
            self
        }
    }

    /// The point in time `secs` seconds and `nanos` nanoseconds after the Unix epoch, if it can
    /// be represented.
    pub fn from_timestamp(secs: i64, nanos: u32) -> (timestamp: Option<Timestamp>)
        ensures
            timestamp is Some <==> representable(secs, nanos),
            timestamp matches Some(t) ==> t.secs() == secs && t.nanos() == nanos,
    {
        if secs < MIN_SECS || secs > MAX_SECS || nanos >= 2_000_000_000 {
            return None;
        }
        // The range starts on a whole minute.
        let since_min: i64 = secs - MIN_SECS;
        if nanos >= 1_000_000_000 && since_min % 60 != 59 {
            return None;
        }
        Some(Timestamp { secs, nanos })
    }

    /// The Unix epoch.
    pub closed spec fn unix_epoch() -> Timestamp {
        Timestamp { secs: 0, nanos: 0 }
    }

    /// The Unix epoch.
    pub fn epoch() -> (timestamp: Timestamp)
        ensures
            timestamp == Timestamp::unix_epoch(),
            timestamp.secs() == 0,
            timestamp.nanos() == 0,
    {
        Timestamp { secs: 0, nanos: 0 }
    }

    /// Whole seconds since the Unix epoch.
    pub fn timestamp(&self) -> (secs: i64)
        ensures
            secs == self.secs(),
    {
        self.secs
    }

    /// Nanoseconds on top of the whole seconds.
    pub fn timestamp_subsec_nanos(&self) -> (nanos: u32)
        ensures
            nanos == self.nanos(),
    {
        self.nanos
    }

    /// Microseconds since the Unix epoch.
    pub fn timestamp_micros(&self) -> (micros: i64)
        ensures
            micros == self.micros(),
    {
        proof {
            use_type_invariant(self);
        }
        utc_micros(self.secs, self.nanos)
    }

    /// The later of two points in time.
    pub fn max(self, other: Timestamp) -> (later: Timestamp)
        ensures
            later == self.later_of(other),
    {
        if self.secs < other.secs || (self.secs == other.secs && self.nanos <= other.nanos) {
            other
        } else {
            self
        }
    }
}

/// Seconds and nanoseconds make up a point in time.
pub proof fn lemma_same_time(left: Timestamp, right: Timestamp)
    requires
        left.secs() == right.secs(),
        left.nanos() == right.nanos(),
    ensures
        left == right,
{
}

/// Microseconds are the time since the Unix epoch in whole microseconds, rounded down: of two
/// times a whole microsecond apart, the later one has more of them.
pub proof fn law_micros_are_whole_microseconds(time: Timestamp)
    ensures
        1000 * time.micros() <= time.secs() * 1_000_000_000 + time.nanos() < 1000 * time.micros()
            + 1000,
{
}

/// Of two points in time, the later one is one of them, and neither of them lies after it.
pub proof fn law_later_of_two_times(left: Timestamp, right: Timestamp)
    ensures
        left.later_of(right) == left || left.later_of(right) == right,
        ({
            let later = left.later_of(right);
            &&& left.secs() < later.secs() || (left.secs() == later.secs() && left.nanos()
                <= later.nanos())
            &&& right.secs() < later.secs() || (right.secs() == later.secs() && right.nanos()
                <= later.nanos())
        }),
        left.at_or_before(right) <==> !(left.secs() > right.secs() || (left.secs() == right.secs()
            && left.nanos() > right.nanos())),
{
}

/// Every second of the years -262143 to 262142 is a point in time, with less than a second on
/// top; the last second of a minute can have a leap second on top.
pub proof fn law_representable_times(secs: i64, nanos: u32)
    ensures
        representable(secs, nanos) ==> -8_334_601_228_800 <= secs <= 8_210_266_876_799,
        -8_334_601_228_800 <= secs <= 8_210_266_876_799 && nanos < 1_000_000_000 ==> representable(
            secs,
            nanos,
        ),
        1_000_000_000 <= nanos && nanos < 2_000_000_000 && -8_334_601_228_800 <= secs
            <= 8_210_266_876_799 ==> (representable(secs, nanos) <==> (secs + 1) % 60 == 0),
        nanos >= 2_000_000_000 ==> !representable(secs, nanos),
{
}

} // verus!
