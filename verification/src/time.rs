//! Points in time.
use vstd::arithmetic::div_mod::lemma_fundamental_div_mod;
use vstd::arithmetic::div_mod::lemma_mod_multiples_vanish;
use vstd::prelude::*;

use crate::types::DateHistogramInterval;

verus! {

/// A point in time in UTC: whole seconds since the Unix epoch and nanoseconds past them.
/// A second in which a leap second is inserted has up to two thousand million of these.
#[derive(Clone, Copy, Debug, PartialEq, Eq, Structural)]
pub struct Timestamp {
    pub secs: i64,
    pub nanos: u32,
}

/// The first second of the years that a calendar date can have.
pub const FIRST_SECOND: i64 = -8_334_601_228_800;

/// The last second of the years that a calendar date can have.
pub const LAST_SECOND: i64 = 8_210_266_876_799;

/// Whether the second falls into a year that a calendar date can have.
pub open spec fn has_date(secs: int) -> bool {
    FIRST_SECOND <= secs <= LAST_SECOND
}

impl Timestamp {
    /// Whether this is a point in time that a calendar date can name.
    pub open spec fn valid(self) -> bool {
        has_date(self.secs as int) && self.nanos < 2_000_000_000
    }

    /// Whether this point in time is not after the other.
    pub open spec fn le(self, other: Timestamp) -> bool {
        self.secs < other.secs || (self.secs == other.secs && self.nanos <= other.nanos)
    }

    /// Whether this point in time is not after the other.
    pub fn not_after(&self, other: &Timestamp) -> (r: bool)
        ensures
            r == self.le(*other),
    {
        self.secs < other.secs || (self.secs == other.secs && self.nanos <= other.nanos)
    }
}

/// The point in time `seconds` after `t`, or before it where they are negative. A leap second
/// counts as part of the second before it, except from its own point of view. There is none
/// where no calendar date can name it, nor where the seconds, in milliseconds, do not fit.
pub open spec fn shifted(t: Timestamp, seconds: i64) -> Option<Timestamp> {
    let leap = t.nanos >= 1_000_000_000;
    let base = if leap && seconds < 0 {
        t.secs + 1
    } else {
        t.secs as int
    };
    let nanos = if leap && seconds != 0 {
        (t.nanos - 1_000_000_000) as u32
    } else {
        t.nanos
    };
    if -(i64::MAX / 1000) <= seconds <= i64::MAX / 1000 && has_date(base + seconds) {
        Some(Timestamp { secs: (base + seconds) as i64, nanos })
    } else {
        None
    }
}

/// The point in time `seconds` after `t`.
pub fn shift(t: Timestamp, seconds: i64) -> (r: Option<Timestamp>)
    requires
        t.valid(),
    ensures
        r == shifted(t, seconds),
        r matches Some(u) ==> u.valid(),
{
    if seconds < -9_223_372_036_854_775 || seconds > 9_223_372_036_854_775 {
        return None;
    }
    let leap: bool = t.nanos >= 1_000_000_000;
    let base: i64 = if leap && seconds < 0 {
        t.secs + 1
    } else {
        t.secs
    };
    let nanos: u32 = if leap && seconds != 0 {
        t.nanos - 1_000_000_000
    } else {
        t.nanos
    };
    let secs: i64 = base + seconds;
    if secs < FIRST_SECOND || secs > LAST_SECOND {
        return None;
    }
    Some(Timestamp { secs, nanos })
}

/// The width of an interval in seconds.
pub open spec fn interval_secs(interval: DateHistogramInterval) -> int {
    match interval {
        DateHistogramInterval::Minute => 60,
        DateHistogramInterval::Hour => 3600,
        DateHistogramInterval::Day => 86_400,
    }
}

/// The first second of the interval that `secs` falls into.
pub open spec fn interval_start(secs: int, interval: DateHistogramInterval) -> int {
    secs - secs % interval_secs(interval)
}

/// The first second of the minute, hour or day of a point in time.
pub fn truncate_timestamp(t: Timestamp, interval: DateHistogramInterval) -> (r: i64)
    requires
        t.valid(),
    ensures
        r == interval_start(t.secs as int, interval),
        has_date(r as int),
{
    // A whole number of days that makes every second positive.
    let shifted_secs: i64 = t.secs + 86_400_000_000_000;
    let past: i64 = match interval {
        DateHistogramInterval::Minute => {
            proof {
                lemma_mod_multiples_vanish(1_440_000_000_000, t.secs as int, 60);
            }
            shifted_secs % 60
        },
        DateHistogramInterval::Hour => {
            proof {
                lemma_mod_multiples_vanish(24_000_000_000, t.secs as int, 3600);
            }
            shifted_secs % 3600
        },
        DateHistogramInterval::Day => {
            proof {
                lemma_mod_multiples_vanish(1_000_000_000, t.secs as int, 86_400);
            }
            shifted_secs % 86_400
        },
    };
    proof {
        lemma_first_second_starts_a_day(t.secs as int, interval);
    }
    t.secs - past
}

/// Dates begin with a day, so that the interval of a second that has a date begins with one too.
proof fn lemma_first_second_starts_a_day(secs: int, interval: DateHistogramInterval)
    requires
        has_date(secs),
    ensures
        has_date(interval_start(secs, interval)),
{
    let width = interval_secs(interval);
    let first = FIRST_SECOND as int;
    let since = secs - first;
    let widths: int = match interval {
        DateHistogramInterval::Minute => -138_910_020_480,
        DateHistogramInterval::Hour => -2_315_167_008,
        DateHistogramInterval::Day => -96_465_292,
    };
    assert(first == width * widths);
    lemma_mod_multiples_vanish(widths, since, width);
    lemma_small_remainder(since, width);
}

proof fn lemma_small_remainder(x: int, width: int)
    by (nonlinear_arith)
    requires
        x >= 0,
        width > 0,
    ensures
        0 <= x % width <= x,
{
}

/// The point in time that an RFC 3339 text names, in seconds and nanoseconds.
pub uninterp spec fn rfc3339_instant(text: Seq<char>) -> Option<(i64, u32)>;

/// The point in time that a text names in the form of RFC 3339, if it does.
pub open spec fn instant_of(text: Seq<char>) -> Option<Timestamp> {
    match rfc3339_instant(text) {
        Some((secs, nanos)) => Some(Timestamp { secs, nanos }),
        None => None,
    }
}

/// `chrono::DateTime::parse_from_rfc3339` reads a date and time with its offset. The claim is
/// that the outcome depends on the text alone, and that the point in time is one that a date
/// can name: the text has no room for other years.
#[verifier::external_body]
pub(crate) fn parse_rfc3339(text: &str) -> (r: Option<Timestamp>)
    ensures
        match r {
            Some(t) => rfc3339_instant(text@) == Some((t.secs, t.nanos)) && t.valid(),
            None => rfc3339_instant(text@) is None,
        },
{
    chrono::DateTime::parse_from_rfc3339(text).ok().map(|t| Timestamp {
        secs: t.timestamp(),
        nanos: t.timestamp_subsec_nanos(),
    })
}

/// `chrono::DateTime::from_timestamp`, without nanoseconds: the point in time that many seconds
/// after the Unix epoch, if a date can name it.
#[verifier::external_body]
pub(crate) fn timestamp_from_secs(secs: i64) -> (r: Option<Timestamp>)
    ensures
        r is Some <==> has_date(secs as int),
        r matches Some(t) ==> t.secs == secs && t.nanos == 0,
{
    chrono::DateTime::from_timestamp(secs, 0).map(|t| Timestamp {
        secs: t.timestamp(),
        nanos: t.timestamp_subsec_nanos(),
    })
}

/// The RFC 3339 text of a second in UTC.
pub uninterp spec fn rfc3339_text_of(secs: i64) -> Seq<char>;

/// `chrono::DateTime::to_rfc3339_opts`, with whole seconds and `Z` for the offset. The claim is
/// that the text depends on the second alone.
#[verifier::external_body]
pub(crate) fn rfc3339_text(secs: i64) -> (r: String)
    requires
        has_date(secs as int),
    ensures
        r@ == rfc3339_text_of(secs),
{
    chrono::DateTime::from_timestamp(secs, 0).map_or(String::new(), |t| {
        t.to_rfc3339_opts(chrono::SecondsFormat::Secs, true)
    })
}

/// `chrono::Utc::now` reads the clock. All that is claimed is that a date can name what it
/// reads.
#[verifier::external_body]
pub(crate) fn now() -> (r: Timestamp)
    ensures
        r.valid(),
{
    let t = chrono::Utc::now();
    Timestamp { secs: t.timestamp(), nanos: t.timestamp_subsec_nanos() }
}

/// A second lies in its interval, and the interval begins where its first second's does.
pub proof fn interval_holds_its_seconds(secs: int, interval: DateHistogramInterval)
    ensures
        interval_start(secs, interval) <= secs < interval_start(secs, interval) + interval_secs(
            interval,
        ),
        interval_start(interval_start(secs, interval), interval) == interval_start(
            secs,
            interval,
        ),
{
    let width = interval_secs(interval);
    let start = interval_start(secs, interval);
    lemma_fundamental_div_mod(secs, width);
    assert(start == width * (secs / width));
    lemma_mod_multiples_vanish(secs / width, 0, width);
}

} // verus!
