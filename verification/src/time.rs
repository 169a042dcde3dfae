//! Spans of time, points in time and the system clock.

use chrono::{DateTime, Utc};
use vstd::prelude::*;

verus! {

/// A span of time: whole seconds and nanoseconds below one second.
#[derive(Clone, Copy, Debug, PartialEq, Eq, Structural)]
pub struct Duration {
    pub secs: u64,
    pub nanos: u32,
}

impl Duration {
    /// A span of whole seconds.
    pub fn from_secs(secs: u64) -> (d: Duration)
        ensures
            d == (Duration { secs, nanos: 0 }),
    {
        Duration { secs, nanos: 0 }
    }

    /// A span of milliseconds.
    pub fn from_millis(millis: u64) -> (d: Duration)
        ensures
            d == (Duration {
                secs: (millis / 1000) as u64,
                nanos: ((millis % 1000) * 1_000_000) as u32,
            }),
    {
        Duration { secs: millis / 1000, nanos: (millis % 1000) as u32 * 1_000_000 }
    }

    /// The whole seconds of the span.
    pub fn as_secs(&self) -> (secs: u64)
        ensures
            secs == self.secs,
    {
        self.secs
    }

    /// The span in nanoseconds.
    pub open spec fn total(&self) -> int {
        self.secs * 1_000_000_000 + self.nanos
    }

    /// Whether the span is at least as long as `other`.
    pub fn at_least(&self, other: &Duration) -> (yes: bool)
        ensures
            yes == (self.total() >= other.total()),
    {
        self.secs as u128 * 1_000_000_000 + self.nanos as u128 >= other.secs as u128 * 1_000_000_000
            + other.nanos as u128
    }

    /// No time at all.
    pub open spec fn spec_is_zero(&self) -> bool {
        self.secs == 0 && self.nanos == 0
    }

    /// Whether the span is empty.
    pub fn is_zero(&self) -> (zero: bool)
        ensures
            zero == self.spec_is_zero(),
    {
        self.secs == 0 && self.nanos == 0
    }
}

/// `SystemTime::elapsed` on the Unix epoch: whole seconds since then, none for a
/// clock before it. Nothing is promised of the value.
#[verifier::external_body]
pub(crate) fn system_seconds() -> (secs: Option<u64>) {
    std::time::UNIX_EPOCH.elapsed().ok().map(|d| d.as_secs())
}

/// A point in time: seconds since the Unix epoch, and nanoseconds since the last
/// whole second. In a leap second, which follows second 59, the nanoseconds go on
/// beyond one second.
pub type Instant = (i64, u32);

/// The points in time that there are dates for: the years -262143 to 262142.
pub open spec fn valid_instant(t: Instant) -> bool {
    &&& -8_334_601_228_800 <= t.0 <= 8_210_266_876_799
    &&& t.1 < 2_000_000_000
    &&& t.1 >= 1_000_000_000 ==> t.0 % 60 == 59
}

/// Whether a point in time lies in a year of four digits, and not in a leap
/// second.
pub open spec fn ordinary(t: Instant) -> bool {
    -62_167_219_200 <= t.0 <= 253_402_300_799 && t.1 < 1_000_000_000
}

/// Tests `valid_instant`.
pub fn is_valid_instant(t: Instant) -> (valid: bool)
    ensures
        valid == valid_instant(t),
{
    let leap_ok: bool = t.1 < 1_000_000_000 || (t.1 < 2_000_000_000 && t.0 >= 0 && t.0 % 60 == 59)
        || (t.1 < 2_000_000_000 && t.0 < 0 && t.0 > -9_000_000_000_000 && -t.0 % 60 == 1);
    leap_ok && -8_334_601_228_800 <= t.0 && t.0 <= 8_210_266_876_799
}

/// `DateTime::from` on `SystemTime::now`: the current time, which may lie before the
/// Unix epoch. Nothing is promised of it but that there is a date for it.
#[verifier::external_body]
pub(crate) fn utc_now() -> (now: Instant)
    ensures
        valid_instant(now),
{
    let now: DateTime<Utc> = DateTime::from(std::time::SystemTime::now());
    (now.timestamp(), now.timestamp_subsec_nanos())
}

/// The text that `DateTime::to_rfc3339` writes for a point in time.
pub uninterp spec fn rfc3339_of(secs: i64, nanos: u32) -> Seq<char>;

/// The point in time that a text stands for, as `DateTime::from_str` reads it.
pub uninterp spec fn instant_of(text: Seq<char>) -> Option<Instant>;

/// `DateTime::to_rfc3339`: a text for the point in time. `DateTime::from_str`
/// reads it back exactly, for ordinary points in time.
#[verifier::external_body]
pub(crate) fn to_rfc3339(t: Instant) -> (text: String)
    requires
        valid_instant(t),
    ensures
        text@ == rfc3339_of(t.0, t.1),
        ordinary(t) ==> instant_of(text@) == Some(t),
{
    DateTime::<Utc>::from_timestamp(t.0, t.1).unwrap_or_default().to_rfc3339()
}

/// `DateTime::from_str`: the point in time that a text stands for, if it is a
/// date in a relaxed form of RFC 3339.
#[verifier::external_body]
pub(crate) fn parse_instant(text: &str) -> (t: Option<Instant>)
    ensures
        t == instant_of(text@),
        t matches Some(t) ==> valid_instant(t),
{
    text.parse::<DateTime<Utc>>().ok().map(|t| (t.timestamp(), t.timestamp_subsec_nanos()))
}

/// The second of the day that a point in time lies in.
pub open spec fn second_of_day(t: Instant) -> int {
    t.0 as int % 86_400
}

/// Nanoseconds from `then` to `now`. A leap second counts if one of the two lies
/// in it and the other at a later second of the day.
pub open spec fn nanos_between(now: Instant, then: Instant) -> int {
    let leap: int = if second_of_day(now) > second_of_day(then) && then.1 >= 1_000_000_000 {
        1
    } else if second_of_day(now) < second_of_day(then) && now.1 >= 1_000_000_000 {
        -1
    } else {
        0
    };
    (now.0 - then.0 + leap) * 1_000_000_000 + now.1 - then.1
}

/// `DateTime::signed_duration_since` and `TimeDelta::to_std`: the span from `then`
/// to `now`, if it is not negative.
#[verifier::external_body]
pub(crate) fn duration_since(now: Instant, then: Instant) -> (span: Option<Duration>)
    requires
        valid_instant(now),
        valid_instant(then),
    ensures
        span is Some <==> nanos_between(now, then) >= 0,
        span matches Some(span) ==> span.total() == nanos_between(now, then) && span.nanos
            < 1_000_000_000,
{
    let now = DateTime::<Utc>::from_timestamp(now.0, now.1).unwrap_or_default();
    let then = DateTime::<Utc>::from_timestamp(then.0, then.1).unwrap_or_default();
    let span = now.signed_duration_since(then).to_std().ok();
    span.map(|d| Duration { secs: d.as_secs(), nanos: d.subsec_nanos() })
}

/// Of two spans with less than a second of nanoseconds, the one with more seconds is
/// longer, and of those with as many, the one with more nanoseconds.
pub proof fn law_spans_are_ordered(a: Duration, b: Duration, yes: bool)
    requires
        call_ensures(Duration::at_least, (&a, &b), yes),
        a.nanos < 1_000_000_000,
        b.nanos < 1_000_000_000,
    ensures
        yes == (a.secs > b.secs || (a.secs == b.secs && a.nanos >= b.nanos)),
{
}

/// A span of milliseconds is as long as so many milliseconds.
pub proof fn law_millis(millis: u64, d: Duration)
    requires
        call_ensures(Duration::from_millis, (millis,), d),
    ensures
        d.secs * 1_000_000_000 + d.nanos == millis * 1_000_000,
        d.nanos < 1_000_000_000,
{
}

/// A span is empty exactly if it has neither seconds nor nanoseconds; a span of seconds has
/// just these.
pub proof fn law_seconds(d: Duration, zero: bool, secs: u64, made: Duration, back: u64)
    requires
        call_ensures(Duration::is_zero, (&d,), zero),
        call_ensures(Duration::from_secs, (secs,), made),
        call_ensures(Duration::as_secs, (&made,), back),
    ensures
        zero <==> d.secs == 0 && d.nanos == 0,
        made.secs == secs && made.nanos == 0,
        back == secs,
{
}

/// There is a date for a point in time exactly if it lies in the years -262143 to 262142, and
/// its nanoseconds go beyond a second only in a second 59.
pub proof fn law_dates(t: Instant, valid: bool)
    requires
        call_ensures(is_valid_instant, (t,), valid),
    ensures
        valid <==> -8_334_601_228_800 <= t.0 <= 8_210_266_876_799 && (t.1 < 1_000_000_000 || (t.1
            < 2_000_000_000 && t.0 as int % 60 == 59)),
{
}

} // verus!
