//! Timestamps, time periods and temporal values.

use vstd::prelude::*;

verus! {

/// Number of nanoseconds in a microsecond.
pub const NANOS_PER_MICRO: i64 = 1_000;

/// Number of nanoseconds in a millisecond.
pub const NANOS_PER_MILLI: i64 = 1_000_000;

/// Number of nanoseconds in a second.
pub const NANOS_PER_SEC: i64 = 1_000_000_000;

/// A point in time with nanosecond precision: a signed count of
/// nanoseconds since the Unix epoch. The whole range of `i64` is valid.
#[derive(Debug, Clone, Copy, PartialEq, Eq, Structural, PartialOrd, Ord, Hash)]
pub struct Timestamp {
    /// Nanoseconds since the Unix epoch.
    pub nanos: i64,
}

impl Timestamp {
    /// Create a timestamp from nanoseconds since the Unix epoch.
    pub fn from_nanos(nanos: i64) -> (r: Self)
        ensures
            r.nanos == nanos,
    {
        Timestamp { nanos }
    }

    /// Create a timestamp from microseconds since the Unix epoch.
    pub fn from_micros(micros: i64) -> (r: Self)
        requires
            i64::MIN <= micros * NANOS_PER_MICRO <= i64::MAX,
        ensures
            r.nanos == micros * NANOS_PER_MICRO,
    {
        Timestamp { nanos: micros * NANOS_PER_MICRO }
    }

    /// Create a timestamp from milliseconds since the Unix epoch.
    pub fn from_millis(millis: i64) -> (r: Self)
        requires
            i64::MIN <= millis * NANOS_PER_MILLI <= i64::MAX,
        ensures
            r.nanos == millis * NANOS_PER_MILLI,
    {
        Timestamp { nanos: millis * NANOS_PER_MILLI }
    }

    /// Create a timestamp from seconds since the Unix epoch.
    pub fn from_secs(secs: i64) -> (r: Self)
        requires
            i64::MIN <= secs * NANOS_PER_SEC <= i64::MAX,
        ensures
            r.nanos == secs * NANOS_PER_SEC,
    {
        Timestamp { nanos: secs * NANOS_PER_SEC }
    }

    /// The current wall-clock time. Nothing is known of the result
    /// beyond its type: the clock decides.
    pub fn now() -> (r: Self) {
        Timestamp { nanos: now_nanos() }
    }

    /// Nanoseconds since the Unix epoch.
    pub fn as_nanos(&self) -> (r: i64)
        ensures
            r == self.nanos,
    {
        self.nanos
    }

    /// Microseconds since the Unix epoch, truncated toward zero.
    pub fn as_micros(&self) -> (r: i64)
        ensures
            r == div_trunc(self.nanos as int, NANOS_PER_MICRO as int),
    {
        div_i64(self.nanos, NANOS_PER_MICRO)
    }

    /// Milliseconds since the Unix epoch, truncated toward zero.
    pub fn as_millis(&self) -> (r: i64)
        ensures
            r == div_trunc(self.nanos as int, NANOS_PER_MILLI as int),
    {
        div_i64(self.nanos, NANOS_PER_MILLI)
    }

    /// Seconds since the Unix epoch, truncated toward zero.
    pub fn as_secs(&self) -> (r: i64)
        ensures
            r == div_trunc(self.nanos as int, NANOS_PER_SEC as int),
    {
        div_i64(self.nanos, NANOS_PER_SEC)
    }

    /// Move the timestamp forward by a nanosecond count.
    pub fn add_nanos(&self, nanos: i64) -> (r: Self)
        requires
            i64::MIN <= self.nanos + nanos <= i64::MAX,
        ensures
            r.nanos == self.nanos + nanos,
    {
        Timestamp { nanos: self.nanos + nanos }
    }

    /// Move the timestamp backward by a nanosecond count.
    pub fn sub_nanos(&self, nanos: i64) -> (r: Self)
        requires
            i64::MIN <= self.nanos - nanos <= i64::MAX,
        ensures
            r.nanos == self.nanos - nanos,
    {
        Timestamp { nanos: self.nanos - nanos }
    }
}

/// Division truncated toward zero, the way hardware division of signed
/// integers behaves.
pub open spec fn div_trunc(a: int, b: int) -> int {
    if a >= 0 {
        a / b
    } else {
        -((-a) / b)
    }
}

/// Divide a signed 64-bit value by a positive divisor, truncating toward
/// zero.
fn div_i64(a: i64, b: i64) -> (r: i64)
    requires
        b > 0,
    ensures
        r == div_trunc(a as int, b as int),
{
    if a >= 0 {
        a / b
    } else if a == i64::MIN {
        // `-a` would overflow, so split one divisor off first.
        let rest = a + b;
        let neg = -rest;
        let part = neg / b;
        proof {
            assert(0 <= (neg as int) / (b as int) <= neg as int) by (nonlinear_arith)
                requires
                    b as int >= 1,
                    neg as int >= 0,
            ;
            lemma_div_shift(-(a as int), b as int);
        }
        -part - 1
    } else {
        let neg = -a;
        proof {
            assert(0 <= (neg as int) / (b as int) <= neg as int) by (nonlinear_arith)
                requires
                    b as int >= 1,
                    neg as int >= 0,
            ;
        }
        -(neg / b)
    }
}

proof fn lemma_div_shift(a: int, b: int)
    requires
        b > 0,
        a >= b,
    ensures
        a / b == (a - b) / b + 1,
{
    assert(a / b == (a - b) / b + 1) by (nonlinear_arith)
        requires
            b > 0,
            a >= b,
    ;
}

/// Relies on chrono's `Utc::now` for the wall-clock reading. The result
/// depends on the clock alone, so nothing is promised of it; `0` stands in
/// where the clock does not fit the nanosecond range.
#[verifier::external_body]
fn now_nanos() -> i64 {
    chrono::Utc::now().timestamp_nanos_opt().unwrap_or(0)
}

/// A period of time: a single instant, or a half-open range `[start, end)`
/// where a missing end means "forever".
#[derive(Debug, Clone, Copy, PartialEq, Eq, Structural)]
pub enum TimePeriod {
    /// An instantaneous point in time.
    Instant(Timestamp),
    /// A half-open time range `[start, end)`; `None` for `end` means the
    /// range never closes.
    Range { start: Timestamp, end: Option<Timestamp> },
}

impl TimePeriod {
    /// The period containing exactly one instant.
    pub fn instant(ts: Timestamp) -> (r: Self)
        ensures
            r == TimePeriod::Instant(ts),
    {
        TimePeriod::Instant(ts)
    }

    /// A half-open range, possibly without an end.
    pub fn range(start: Timestamp, end: Option<Timestamp>) -> (r: Self)
        ensures
            r == (TimePeriod::Range { start, end }),
    {
        TimePeriod::Range { start, end }
    }

    /// An open-ended range starting at `start`.
    pub fn forever(start: Timestamp) -> (r: Self)
        ensures
            r == (TimePeriod::Range { start, end: None }),
    {
        TimePeriod::Range { start, end: None }
    }

    /// Whether a timestamp falls inside the period.
    pub open spec fn spec_contains(self, ts: Timestamp) -> bool {
        match self {
            TimePeriod::Instant(t) => t == ts,
            TimePeriod::Range { start, end } => ts.nanos >= start.nanos && match end {
                Some(e) => ts.nanos < e.nanos,
                None => true,
            },
        }
    }

    /// Whether a timestamp falls inside the period.
    pub fn contains(&self, ts: Timestamp) -> (r: bool)
        ensures
            r == self.spec_contains(ts),
    {
        match self {
            TimePeriod::Instant(t) => t.nanos == ts.nanos,
            TimePeriod::Range { start, end } => {
                ts.nanos >= start.nanos && match end {
                    Some(e) => ts.nanos < e.nanos,
                    None => true,
                }
            },
        }
    }

    /// The first instant of the period.
    pub fn start(&self) -> (r: Timestamp)
        ensures
            r == match *self {
                TimePeriod::Instant(t) => t,
                TimePeriod::Range { start, .. } => start,
            },
    {
        match self {
            TimePeriod::Instant(t) => *t,
            TimePeriod::Range { start, .. } => *start,
        }
    }

    /// The end of the period, if it has one. An instant has no end.
    pub fn end(&self) -> (r: Option<Timestamp>)
        ensures
            r == match *self {
                TimePeriod::Instant(_) => None::<Timestamp>,
                TimePeriod::Range { end, .. } => end,
            },
    {
        match self {
            TimePeriod::Instant(_) => None,
            TimePeriod::Range { end, .. } => *end,
        }
    }
}

/// A value together with the period during which it is valid in the
/// modeled domain and the time at which it was recorded.
#[derive(Debug, Clone)]
pub struct TemporalValue<T> {
    /// The value itself.
    pub value: T,
    /// When the value holds in the modeled domain.
    pub valid_time: TimePeriod,
    /// When the value was recorded.
    pub transaction_time: Timestamp,
}

impl<T> TemporalValue<T> {
    /// Pack a value with its valid-time period and transaction time.
    pub fn new(value: T, valid_time: TimePeriod, transaction_time: Timestamp) -> (r: Self)
        ensures
            r.value == value,
            r.valid_time == valid_time,
            r.transaction_time == transaction_time,
    {
        TemporalValue { value, valid_time, transaction_time }
    }

    /// A value valid at exactly one instant, recorded now.
    pub fn at_instant(value: T, ts: Timestamp) -> (r: Self)
        ensures
            r.value == value,
            r.valid_time == TimePeriod::Instant(ts),
    {
        TemporalValue {
            value,
            valid_time: TimePeriod::instant(ts),
            transaction_time: Timestamp::now(),
        }
    }

    /// A value valid from `start` on, recorded now.
    pub fn from_time(value: T, start: Timestamp) -> (r: Self)
        ensures
            r.value == value,
            r.valid_time == (TimePeriod::Range { start, end: None::<Timestamp> }),
    {
        TemporalValue {
            value,
            valid_time: TimePeriod::forever(start),
            transaction_time: Timestamp::now(),
        }
    }

    /// A value valid in a half-open range, recorded now.
    pub fn in_range(value: T, start: Timestamp, end: Option<Timestamp>) -> (r: Self)
        ensures
            r.value == value,
            r.valid_time == (TimePeriod::Range { start, end }),
    {
        TemporalValue {
            value,
            valid_time: TimePeriod::range(start, end),
            transaction_time: Timestamp::now(),
        }
    }

    /// Whether the value is valid at the given timestamp.
    pub fn is_valid_at(&self, ts: Timestamp) -> (r: bool)
        ensures
            r == self.valid_time.spec_contains(ts),
    {
        self.valid_time.contains(ts)
    }

    /// The value itself.
    pub fn value(&self) -> (r: &T)
        ensures
            r == &self.value,
    {
        &self.value
    }

    /// The valid-time period.
    pub fn valid_time(&self) -> (r: &TimePeriod)
        ensures
            r == &self.valid_time,
    {
        &self.valid_time
    }

    /// The transaction time.
    pub fn transaction_time(&self) -> (r: Timestamp)
        ensures
            r == self.transaction_time,
    {
        self.transaction_time
    }
}

} // verus!
