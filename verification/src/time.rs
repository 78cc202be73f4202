//! Points in time and signed spans between them, with nanosecond precision.
//!
//! A `Timestamp` is a naive (zone-less) date and time, counted as seconds and
//! nanoseconds since 1970-01-01 00:00. Its range is that of chrono's
//! `NaiveDateTime`, which computes calendar dates for it. A `Duration` is a
//! signed number of nanoseconds, bounded like chrono's `TimeDelta`.
use vstd::prelude::*;

use crate::text::decimal;

verus! {

/// Smallest number of seconds of a timestamp: -262143-01-01 00:00:00.
pub const MIN_TIMESTAMP_SECS: i64 = -8_334_601_228_800i64;

/// Largest number of seconds of a timestamp: 262142-12-31 23:59:59.
pub const MAX_TIMESTAMP_SECS: i64 = 8_210_266_876_799i64;

/// Nanoseconds per second.
pub const NANOS_PER_SEC: i128 = 1_000_000_000i128;

/// Largest magnitude of a duration in nanoseconds: `i64::MAX` milliseconds.
pub const MAX_DURATION_NANOS: i128 = 9_223_372_036_854_775_807_000_000i128;

/// A naive date and time.
#[derive(Clone, Copy, Debug, PartialEq, Eq, Structural)]
pub struct Timestamp {
    secs: i64,
    nanos: u32,
}

/// A signed time span.
#[derive(Clone, Copy, Debug, PartialEq, Eq, Structural)]
pub struct Duration {
    nanos: i128,
}

/// Whether seconds and sub-second nanoseconds name a valid timestamp.
pub open spec fn valid_parts(secs: int, nanos: int) -> bool {
    &&& MIN_TIMESTAMP_SECS <= secs <= MAX_TIMESTAMP_SECS
    &&& 0 <= nanos < NANOS_PER_SEC
}

/// Whether a number of nanoseconds is a valid duration.
pub open spec fn valid_duration(nanos: int) -> bool {
    -MAX_DURATION_NANOS <= nanos <= MAX_DURATION_NANOS
}

impl Timestamp {
    #[verifier::type_invariant]
    pub(crate) closed spec fn inv(self) -> bool {
        valid_parts(self.secs as int, self.nanos as int)
    }

    /// Whole seconds since 1970-01-01 00:00.
    pub closed spec fn seconds(self) -> int {
        self.secs as int
    }

    /// Nanoseconds past the whole second.
    pub closed spec fn subsec(self) -> int {
        self.nanos as int
    }

    /// The instant as nanoseconds since 1970-01-01 00:00.
    pub open spec fn instant(self) -> int {
        self.seconds() * NANOS_PER_SEC + self.subsec()
    }

    /// Whether the parts are in range (always so of a timestamp that exists at run time).
    pub open spec fn is_valid(self) -> bool {
        valid_parts(self.seconds(), self.subsec())
    }

    /// Builds a timestamp from parts that are known to be in range.
    pub(crate) fn from_valid_parts(secs: i64, nanos: u32) -> (t: Timestamp)
        requires
            valid_parts(secs as int, nanos as int),
        ensures
            t.seconds() == secs,
            t.subsec() == nanos,
    {
        Timestamp { secs, nanos }
    }

    /// Builds a timestamp from seconds since 1970-01-01 00:00 and nanoseconds
    /// past that second; `None` when they are out of range.
    pub fn from_parts(secs: i64, nanos: u32) -> (t: Option<Timestamp>)
        ensures
            t is Some <==> valid_parts(secs as int, nanos as int),
            t matches Some(t) ==> t.seconds() == secs && t.subsec() == nanos,
    {
        if MIN_TIMESTAMP_SECS <= secs && secs <= MAX_TIMESTAMP_SECS && (nanos as i128) < NANOS_PER_SEC {
            Some(Timestamp { secs, nanos })
        } else {
            None
        }
    }

    /// 1970-01-01 00:00.
    pub fn unix_epoch() -> (t: Timestamp)
        ensures
            t.seconds() == 0,
            t.subsec() == 0,
            t.is_valid(),
    {
        Timestamp { secs: 0, nanos: 0 }
    }

    /// Whole seconds since 1970-01-01 00:00.
    pub fn timestamp(&self) -> (s: i64)
        ensures
            s == self.seconds(),
    {
        self.secs
    }

    /// Nanoseconds past the whole second.
    pub fn subsec_nanos(&self) -> (n: u32)
        ensures
            n == self.subsec(),
    {
        self.nanos
    }

    /// The instant as nanoseconds since 1970-01-01 00:00.
    pub fn as_nanos(&self) -> (n: i128)
        ensures
            n == self.instant(),
            self.is_valid(),
    {
        proof {
            use_type_invariant(self);
        }
        (self.secs as i128) * NANOS_PER_SEC + (self.nanos as i128)
    }

    /// Whether `self` lies strictly before `other`.
    pub fn is_before(&self, other: &Timestamp) -> (b: bool)
        ensures
            b == (self.instant() < other.instant()),
    {
        self.as_nanos() < other.as_nanos()
    }

    /// The span from `earlier` to `self`, negative when `earlier` is later.
    pub fn signed_duration_since(&self, earlier: &Timestamp) -> (d: Duration)
        ensures
            d.nanos() == self.instant() - earlier.instant(),
    {
        let a = self.as_nanos();
        let b = earlier.as_nanos();
        Duration { nanos: a - b }
    }

    /// The timestamp `offset` seconds after `utc` (before it, for a negative
    /// offset): the local date and time at a UTC instant, for an offset of
    /// local time from UTC. `None` when it lies outside the range of a timestamp.
    pub fn shifted(utc: &Timestamp, offset: i32) -> (t: Option<Timestamp>)
        requires
            -86_400 < offset < 86_400,
        ensures
            t is Some <==> valid_parts(utc.seconds() + offset, utc.subsec()),
            t matches Some(x) ==> x.seconds() == utc.seconds() + offset && x.subsec() == utc.subsec(),
    {
        proof {
            use_type_invariant(utc);
        }
        Timestamp::from_parts(utc.secs + offset as i64, utc.nanos)
    }

    /// The current local date and time: the UTC instant the system clock
    /// reads, moved by the offset of local time from UTC that the time zone
    /// gives for it. `None` when the clock, or the local time it gives, lies
    /// outside the range of a timestamp.
    pub fn now() -> (t: Option<Timestamp>)
        ensures
            t matches Some(x) ==> x.is_valid() && exists|utc: Timestamp|
                utc.is_valid() && -86_400 < #[trigger] x.seconds() - utc.seconds() < 86_400 && x.subsec()
                    == utc.subsec(),
    {
        let reading = since_epoch(&clock_now());
        let (secs, nanos) = match utc_parts(reading) {
            Some(p) => p,
            None => return None,
        };
        let utc = match Timestamp::from_parts(secs, nanos) {
            Some(u) => u,
            None => return None,
        };
        let offset = local_offset(utc.secs, utc.nanos);
        let t = Timestamp::shifted(&utc, offset);
        proof {
            if let Some(x) = t {
                assert(utc.is_valid() && -86_400 < x.seconds() - utc.seconds() < 86_400 && x.subsec()
                    == utc.subsec());
            }
        }
        t
    }

    /// The calendar date as `YYYY-MM-DD`.
    pub fn date_string(&self) -> (s: String)
        ensures
            s@ == date_text(self.seconds(), self.subsec()),
    {
        proof {
            use_type_invariant(self);
        }
        calendar_date_text(self.secs, self.nanos)
    }
}

/// A timestamp is determined by its parts.
pub proof fn lemma_timestamp_parts(a: Timestamp, b: Timestamp)
    requires
        a.seconds() == b.seconds(),
        a.subsec() == b.subsec(),
    ensures
        a == b,
{
}

/// What the invariant of a timestamp says of its parts.
pub(crate) proof fn lemma_timestamp_inv(t: Timestamp)
    requires
        t.inv(),
    ensures
        t.is_valid(),
{
}

impl Duration {
    #[verifier::type_invariant]
    pub(crate) closed spec fn inv(self) -> bool {
        valid_duration(self.nanos as int)
    }

    /// The span in nanoseconds.
    pub closed spec fn nanos(self) -> int {
        self.nanos as int
    }

    /// The empty span.
    pub fn zero() -> (d: Duration)
        ensures
            d.nanos() == 0,
    {
        Duration { nanos: 0 }
    }

    /// A span of whole seconds.
    pub fn seconds(secs: i64) -> (d: Duration)
        requires
            valid_duration(secs * NANOS_PER_SEC),
        ensures
            d.nanos() == secs * NANOS_PER_SEC,
    {
        Duration { nanos: (secs as i128) * NANOS_PER_SEC }
    }

    /// A span of nanoseconds; `None` when out of range.
    pub fn from_nanos(nanos: i128) -> (d: Option<Duration>)
        ensures
            d is Some <==> valid_duration(nanos as int),
            d matches Some(d) ==> d.nanos() == nanos,
    {
        if -MAX_DURATION_NANOS <= nanos && nanos <= MAX_DURATION_NANOS {
            Some(Duration { nanos })
        } else {
            None
        }
    }

    /// The span in nanoseconds.
    pub fn num_nanoseconds(&self) -> (n: i128)
        ensures
            n == self.nanos(),
            valid_duration(n as int),
    {
        proof {
            use_type_invariant(self);
        }
        self.nanos
    }

    /// The sum of two spans; the sum must stay in range.
    pub fn add(self, other: Duration) -> (d: Duration)
        requires
            valid_duration(self.nanos() + other.nanos()),
        ensures
            d.nanos() == self.nanos() + other.nanos(),
    {
        proof {
            use_type_invariant(&self);
            use_type_invariant(&other);
        }
        Duration { nanos: self.nanos + other.nanos }
    }

    /// The sum of two spans; `None` when the sum is out of range.
    pub fn checked_add(self, other: Duration) -> (d: Option<Duration>)
        ensures
            d is Some <==> valid_duration(self.nanos() + other.nanos()),
            d matches Some(d) ==> d.nanos() == self.nanos() + other.nanos(),
    {
        proof {
            use_type_invariant(&self);
            use_type_invariant(&other);
        }
        let n = self.nanos + other.nanos;
        if -MAX_DURATION_NANOS <= n && n <= MAX_DURATION_NANOS {
            Some(Duration { nanos: n })
        } else {
            None
        }
    }

    /// Whole seconds, rounded toward zero.
    pub fn num_seconds(&self) -> (s: i64)
        ensures
            s == trunc_div(self.nanos(), NANOS_PER_SEC as int),
            -10_000_000_000_000_000 < s < 10_000_000_000_000_000,
    {
        let n = self.num_nanoseconds();
        let q: i128 = if n >= 0 {
            n / NANOS_PER_SEC
        } else {
            -((-n) / NANOS_PER_SEC)
        };
        q as i64
    }

    /// Whole minutes, rounded toward zero.
    pub fn num_minutes(&self) -> (m: i64)
        ensures
            m == trunc_div(trunc_div(self.nanos(), NANOS_PER_SEC as int), 60),
    {
        let s = self.num_seconds();
        if s >= 0 {
            s / 60
        } else {
            -((-s) / 60)
        }
    }

    /// Whole hours, rounded toward zero.
    pub fn num_hours(&self) -> (h: i64)
        ensures
            h == trunc_div(trunc_div(self.nanos(), NANOS_PER_SEC as int), 3600),
    {
        let s = self.num_seconds();
        if s >= 0 {
            s / 3600
        } else {
            -((-s) / 3600)
        }
    }
}

/// Integer division rounded toward zero, for a positive divisor.
pub open spec fn trunc_div(a: int, b: int) -> int
    recommends
        b > 0,
{
    if a >= 0 {
        a / b
    } else {
        -((-a) / b)
    }
}

/// The date in the proleptic Gregorian calendar, as (year, month, day), of
/// the day that lies `days` days after 1970-01-01 (before it, when negative).
pub open spec fn civil_date(days: int) -> (int, int, int) {
    let z = days + 719_468;
    let era = z / 146_097;
    let doe = z - era * 146_097;
    let yoe = (doe - doe / 1_460 + doe / 36_524 - doe / 146_096) / 365;
    let doy = doe - (365 * yoe + yoe / 4 - yoe / 100);
    let mp = (5 * doy + 2) / 153;
    let d = doy - (153 * mp + 2) / 5 + 1;
    let m = if mp < 10 {
        mp + 3
    } else {
        mp - 9
    };
    (if m <= 2 {
        yoe + era * 400 + 1
    } else {
        yoe + era * 400
    }, m, d)
}

/// Decimal digits, with leading zeros up to `width` digits.
pub open spec fn zero_padded(digits: Seq<char>, width: nat) -> Seq<char> {
    if digits.len() >= width {
        digits
    } else {
        Seq::new((width - digits.len()) as nat, |i: int| '0') + digits
    }
}

/// A year as chrono writes it: four digits for the years 0 to 9999, else a
/// sign and at least four digits.
pub open spec fn year_text(y: int) -> Seq<char> {
    if 0 <= y <= 9999 {
        zero_padded(decimal(y as nat), 4)
    } else if y > 9999 {
        seq!['+'] + decimal(y as nat)
    } else {
        seq!['-'] + zero_padded(decimal((-y) as nat), 4)
    }
}

/// A number below 100 with two digits.
pub open spec fn two_digit_text(n: int) -> Seq<char> {
    zero_padded(decimal(n as nat), 2)
}

/// The calendar date (`YYYY-MM-DD`) of the instant with the given parts, as
/// chrono prints a `NaiveDate`. The nanoseconds play no part.
#[verifier::opaque]
pub open spec fn date_text(secs: int, nanos: int) -> Seq<char> {
    let (y, m, d) = civil_date(secs / 86_400);
    year_text(y) + seq!['-'] + two_digit_text(m) + seq!['-'] + two_digit_text(d)
}

/// A reading of the system clock, `std::time::SystemTime`.
#[verifier::external_type_specification]
#[verifier::external_body]
pub struct ExSystemTime(std::time::SystemTime);

/// Reads the system clock with `std::time::SystemTime::now`. Nothing is
/// claimed of the reading: it is whatever the clock says.
#[verifier::external_body]
fn clock_now() -> (t: std::time::SystemTime) {
    std::time::SystemTime::now()
}

/// The span between 1970-01-01 00:00 UTC and a clock reading, with
/// `SystemTime::duration_since(UNIX_EPOCH)`, as whole seconds and nanoseconds
/// past them: `Ok` when the reading is not earlier, else `Err` with the span
/// by which it is earlier. Claims that the nanoseconds are below one second,
/// as `Duration::subsec_nanos` documents.
#[verifier::external_body]
fn since_epoch(t: &std::time::SystemTime) -> (r: Result<(u64, u32), (u64, u32)>)
    ensures
        r matches Ok(p) ==> p.1 < NANOS_PER_SEC,
        r matches Err(p) ==> p.1 < NANOS_PER_SEC,
{
    match t.duration_since(std::time::UNIX_EPOCH) {
        Ok(d) => Ok((d.as_secs(), d.subsec_nanos())),
        Err(e) => Err((e.duration().as_secs(), e.duration().subsec_nanos())),
    }
}

/// The seconds (possibly negative) and nanoseconds past them of a span from
/// 1970-01-01 00:00, read as `since_epoch` gives it.
pub open spec fn signed_parts(r: Result<(u64, u32), (u64, u32)>) -> (int, int) {
    match r {
        Ok(p) => (p.0 as int, p.1 as int),
        Err(p) => if p.1 == 0 {
            (-(p.0 as int), 0)
        } else {
            (-(p.0 as int) - 1, NANOS_PER_SEC - p.1)
        },
    }
}

/// The parts of a span from 1970-01-01 00:00, read as `since_epoch` gives
/// it; `None` when the seconds do not fit a timestamp.
fn utc_parts(r: Result<(u64, u32), (u64, u32)>) -> (p: Option<(i64, u32)>)
    requires
        r matches Ok(q) ==> q.1 < NANOS_PER_SEC,
        r matches Err(q) ==> q.1 < NANOS_PER_SEC,
    ensures
        p is Some <==> valid_parts(signed_parts(r).0, signed_parts(r).1),
        p matches Some(q) ==> q.0 == signed_parts(r).0 && q.1 == signed_parts(r).1,
{
    match r {
        Ok((s, n)) => if s <= MAX_TIMESTAMP_SECS as u64 {
            Some((s as i64, n))
        } else {
            None
        },
        Err((s, n)) => if s > 8_334_601_228_800u64 {
            None
        } else if n == 0 {
            Some((-(s as i64), 0))
        } else if s == 8_334_601_228_800u64 {
            None
        } else {
            Some((-(s as i64) - 1, 1_000_000_000u32 - n))
        },
    }
}

/// The offset of local time from UTC, in seconds, at the instant with the
/// given parts, as chrono's `Local` time zone gives it
/// (`TimeZone::offset_from_utc_datetime`, then `local_minus_utc`). Claims that
/// the offset is less than a day either way, as `FixedOffset` guarantees. The
/// offset depends on the machine's time zone data, so nothing more is claimed.
/// For instants in this range chrono's lookup does not fail on its arithmetic;
/// it panics only when the time zone data give an offset of a day or more,
/// which no argument here can rule out.
#[verifier::external_body]
fn local_offset(secs: i64, nanos: u32) -> (off: i32)
    requires
        valid_parts(secs as int, nanos as int),
    ensures
        -86_400 < off < 86_400,
{
    let utc = chrono::DateTime::from_timestamp(secs, nanos).expect("timestamp in range").naive_utc();
    chrono::TimeZone::offset_from_utc_datetime(&chrono::Local, &utc).local_minus_utc()
}

/// Calls `chrono::DateTime::from_timestamp` and prints the date of the result
/// (`chrono::NaiveDate`'s `Display`). Claims that the text is `date_text`:
/// the proleptic Gregorian date of the day the instant falls on, with the year
/// written by four digits, or by a sign and at least four digits outside
/// 0..=9999, and month and day by two digits; in range, `from_timestamp`
/// gives `Some`.
#[verifier::external_body]
fn calendar_date_text(secs: i64, nanos: u32) -> (s: String)
    requires
        valid_parts(secs as int, nanos as int),
    ensures
        s@ == date_text(secs as int, nanos as int),
{
    chrono::DateTime::from_timestamp(secs, nanos).expect("timestamp in range").date_naive().to_string()
}

} // verus!
