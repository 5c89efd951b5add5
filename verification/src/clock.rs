//! Points in time.

use vstd::prelude::*;
use chrono::Datelike;

verus! {

/// The first second that a point in time can lie in.
pub const FIRST_SECOND: i64 = -8_334_601_228_800;

/// The last second that a point in time can lie in.
pub const LAST_SECOND: i64 = 8_210_266_876_799;

/// Seconds of a day.
pub const DAY_SECONDS: i64 = 86_400;

/// A point in time: seconds since the start of 1970 (UTC), and nanoseconds
/// within the second.
#[derive(Clone, Copy, Debug, PartialEq, Eq)]
pub struct Timestamp {
    secs: i64,
    nanos: u32,
}

impl Timestamp {
    /// The seconds.
    pub closed spec fn seconds(self) -> int {
        self.secs as int
    }

    /// The nanoseconds within the second.
    pub closed spec fn subsecond(self) -> int {
        self.nanos as int
    }

    /// A point in time lies in the calendar's range.
    #[verifier::type_invariant]
    spec fn in_range(self) -> bool {
        FIRST_SECOND <= self.secs <= LAST_SECOND && self.nanos < 1_000_000_000
    }

    /// Whether seconds and nanoseconds make a point in time.
    pub open spec fn exists_at(secs: int, nanos: int) -> bool {
        FIRST_SECOND <= secs <= LAST_SECOND && 0 <= nanos < 1_000_000_000
    }

    /// The point in time at the given second and nanosecond.
    pub fn new(secs: i64, nanos: u32) -> (r: Option<Timestamp>)
        ensures
            match r {
                Some(t) => Self::exists_at(secs as int, nanos as int) && t.seconds() == secs
                    && t.subsecond() == nanos,
                None => !Self::exists_at(secs as int, nanos as int),
            },
    {
        if FIRST_SECOND <= secs && secs <= LAST_SECOND && nanos < 1_000_000_000 {
            Some(Timestamp { secs, nanos })
        } else {
            None
        }
    }

    /// The seconds since the start of 1970.
    pub fn secs(&self) -> (r: i64)
        ensures
            r == self.seconds(),
            Self::exists_at(self.seconds(), self.subsecond()),
    {
        proof {
            use_type_invariant(self);
        }
        self.secs
    }

    /// The nanoseconds within the second.
    pub fn nanos(&self) -> (r: u32)
        ensures
            r == self.subsecond(),
            Self::exists_at(self.seconds(), self.subsecond()),
    {
        proof {
            use_type_invariant(self);
        }
        self.nanos
    }
}

/// Whether `a` lies more than `seconds` seconds before `b`, or exactly so many.
pub open spec fn at_least_before(a: Timestamp, b: Timestamp, seconds: int) -> bool {
    let limit = b.seconds() - seconds;
    a.seconds() < limit || (a.seconds() == limit && a.subsecond() <= b.subsecond())
}

/// Whether `a` lies at least `seconds` seconds before `b`.
pub fn is_at_least_before(a: &Timestamp, b: &Timestamp, seconds: u32) -> (r: bool)
    ensures
        r == at_least_before(*a, *b, seconds as int),
{
    let limit: i64 = b.secs() - seconds as i64;
    a.secs() < limit || (a.secs() == limit && a.nanos() <= b.nanos())
}

/// The number of the UTC day of a second, the first of January of year one
/// being day one.
pub open spec fn day_number(secs: int) -> int {
    secs / (DAY_SECONDS as int) + 719_163
}

/// `chrono::Utc::now`. The outcome is the machine's clock; whatever it shows
/// is a point in time within the range of `Timestamp`.
#[verifier::external_body]
fn clock_reading() -> (r: (i64, u32))
    ensures
        Timestamp::exists_at(r.0 as int, r.1 as int),
{
    let t = chrono::Utc::now();
    (t.timestamp(), t.timestamp_subsec_nanos())
}

/// The current time.
pub fn now() -> (r: Timestamp)
    ensures
        Timestamp::exists_at(r.seconds(), r.subsecond()),
{
    let (secs, nanos): (i64, u32) = clock_reading();
    Timestamp { secs, nanos }
}

/// `chrono::DateTime::date_naive`, as a day number. It is the day on which the
/// second falls.
#[verifier::external_body]
fn date_of(secs: i64, nanos: u32) -> (r: i32)
    requires
        Timestamp::exists_at(secs as int, nanos as int),
    ensures
        r == day_number(secs as int),
{
    let t = chrono::DateTime::from_timestamp(secs, nanos).unwrap();
    t.date_naive().num_days_from_ce()
}

/// The UTC day of a point in time.
pub fn day_of(t: &Timestamp) -> (r: i32)
    ensures
        r == day_number(t.seconds()),
{
    date_of(t.secs(), t.nanos())
}

/// The RFC 3339 form of a second and nanosecond in UTC.
pub uninterp spec fn rfc3339_text(secs: int, nanos: int) -> Seq<char>;

/// `chrono::DateTime::to_rfc3339`, for a time in UTC.
#[verifier::external_body]
fn rfc3339_of(secs: i64, nanos: u32) -> (r: String)
    requires
        Timestamp::exists_at(secs as int, nanos as int),
    ensures
        r@ == rfc3339_text(secs as int, nanos as int),
{
    let t = chrono::DateTime::from_timestamp(secs, nanos).unwrap();
    t.to_rfc3339()
}

/// The RFC 3339 form of a point in time.
pub fn to_rfc3339(t: &Timestamp) -> (r: String)
    ensures
        r@ == rfc3339_text(t.seconds(), t.subsecond()),
{
    rfc3339_of(t.secs(), t.nanos())
}

/// Whether one point in time lies at least so many seconds before another, to the
/// nanosecond.
pub proof fn law_at_least_before(a: Timestamp, b: Timestamp, seconds: int)
    requires
        0 <= a.subsecond() < 1_000_000_000,
        0 <= b.subsecond() < 1_000_000_000,
    ensures
        at_least_before(a, b, seconds) <==> (a.seconds() + seconds) * 1_000_000_000 + a.subsecond()
            <= b.seconds() * 1_000_000_000 + b.subsecond(),
{
}

/// A day has 86 400 seconds, and so many seconds later it is the next day; the first of
/// January of 1970 is day 719 163.
pub proof fn law_day_number(secs: int)
    ensures
        (day_number(secs) - 719_163) * 86_400 <= secs < (day_number(secs) - 719_162) * 86_400,
        day_number(secs + 86_400) == day_number(secs) + 1,
{
}

} // verus!
