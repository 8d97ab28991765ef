//! The interval hierarchy and the calendar arithmetic that finds the bucket of
//! an instant.

use crate::types::Timeframe;
use chrono::{TimeZone, Timelike, Utc};
use vstd::arithmetic::div_mod::lemma_fundamental_div_mod_converse;
use vstd::prelude::*;

verus! {

/// Earliest supported instant: ninety million days before the epoch.
pub const MIN_TIMESTAMP: i64 = -7_776_000_000_000_000;

/// Latest supported instant: ninety million days after the epoch.
pub const MAX_TIMESTAMP: i64 = 7_776_000_000_000_000;

/// The instants this library handles. Bucket starts are found with chrono,
/// whose dates run from the year -262143 to the year 262142, a little over
/// ninety-five million days either side of the epoch; outside them it has no
/// date to give. Ninety million days is a round bound within that range.
/// The bounds are whole days, so the start of every bucket of a supported
/// instant is supported too.
pub open spec fn valid_timestamp(ts: int) -> bool {
    MIN_TIMESTAMP <= ts <= MAX_TIMESTAMP
}

/// Hour of the UTC day, `0..24`, of an instant.
pub open spec fn hour_of_day(ts: int) -> int {
    (ts / 3_600_000) % 24
}

/// Minute of the UTC hour, `0..60`, of an instant.
pub open spec fn minute_of_hour(ts: int) -> int {
    (ts / 60_000) % 60
}

/// Midnight (UTC) of the day an instant falls on.
pub open spec fn day_start(ts: int) -> int {
    ts - ts % 86_400_000
}

/// Start of the bucket `[start, start + length)` of `tf` that holds `ts`.
pub open spec fn bucket_start(ts: int, tf: Timeframe) -> int {
    ts - ts % tf.millis()
}

impl Timeframe {
    /// Length of one bucket in milliseconds.
    pub open spec fn millis(self) -> int {
        match self {
            Timeframe::m1 => 60_000,
            Timeframe::m5 => 300_000,
            Timeframe::m15 => 900_000,
            Timeframe::m30 => 1_800_000,
            Timeframe::h1 => 3_600_000,
            Timeframe::h4 => 14_400_000,
            Timeframe::d1 => 86_400_000,
        }
    }

    /// The next interval up the hierarchy; `d1` is the top.
    pub open spec fn parent(self) -> Option<Timeframe> {
        match self {
            Timeframe::m1 => Some(Timeframe::m5),
            Timeframe::m5 => Some(Timeframe::m15),
            Timeframe::m15 => Some(Timeframe::m30),
            Timeframe::m30 => Some(Timeframe::h1),
            Timeframe::h1 => Some(Timeframe::h4),
            Timeframe::h4 => Some(Timeframe::d1),
            Timeframe::d1 => None,
        }
    }

    /// How many buckets of the interval below make one bucket of this
    /// interval; `m1` is the base and has none.
    pub open spec fn children(self) -> Option<nat> {
        match self {
            Timeframe::m1 => None,
            Timeframe::m5 => Some(5),
            Timeframe::m15 => Some(3),
            Timeframe::m30 => Some(2),
            Timeframe::h1 => Some(2),
            Timeframe::h4 => Some(4),
            Timeframe::d1 => Some(6),
        }
    }

    /// Position in the hierarchy, `m1` being 0.
    pub open spec fn rank(self) -> nat {
        match self {
            Timeframe::m1 => 0,
            Timeframe::m5 => 1,
            Timeframe::m15 => 2,
            Timeframe::m30 => 3,
            Timeframe::h1 => 4,
            Timeframe::h4 => 5,
            Timeframe::d1 => 6,
        }
    }

    pub fn duration_ms(&self) -> (ms: i64)
        ensures
            ms == self.millis(),
    {
        match self {
            Timeframe::m1 => 60_000,
            Timeframe::m5 => 300_000,
            Timeframe::m15 => 900_000,
            Timeframe::m30 => 1_800_000,
            Timeframe::h1 => 3_600_000,
            Timeframe::h4 => 14_400_000,
            Timeframe::d1 => 86_400_000,
        }
    }

    pub fn parent_of(&self) -> (up: Option<Timeframe>)
        ensures
            up == self.parent(),
    {
        match self {
            Timeframe::m1 => Some(Timeframe::m5),
            Timeframe::m5 => Some(Timeframe::m15),
            Timeframe::m15 => Some(Timeframe::m30),
            Timeframe::m30 => Some(Timeframe::h1),
            Timeframe::h1 => Some(Timeframe::h4),
            Timeframe::h4 => Some(Timeframe::d1),
            Timeframe::d1 => None,
        }
    }

    pub fn ratio(&self) -> (n: Option<usize>)
        ensures
            n is Some <==> self.children() is Some,
            n is Some ==> n->0 == self.children()->0,
    {
        match self {
            Timeframe::m1 => None,
            Timeframe::m5 => Some(5),
            Timeframe::m15 => Some(3),
            Timeframe::m30 => Some(2),
            Timeframe::h1 => Some(2),
            Timeframe::h4 => Some(4),
            Timeframe::d1 => Some(6),
        }
    }

    pub fn index(&self) -> (i: usize)
        ensures
            i == self.rank(),
    {
        match self {
            Timeframe::m1 => 0,
            Timeframe::m5 => 1,
            Timeframe::m15 => 2,
            Timeframe::m30 => 3,
            Timeframe::h1 => 4,
            Timeframe::h4 => 5,
            Timeframe::d1 => 6,
        }
    }
}

/// The hour that `truncate_to_tf` keeps for `tf`, given the hour of the day.
pub open spec fn cut_hour(hour: int, tf: Timeframe) -> int {
    match tf {
        Timeframe::h4 => hour / 4 * 4,
        Timeframe::d1 => 0,
        _ => hour,
    }
}

/// The minute that `truncate_to_tf` keeps for `tf`, given the minute of the
/// hour.
pub open spec fn cut_minute(minute: int, tf: Timeframe) -> int {
    match tf {
        Timeframe::m1 => minute,
        Timeframe::m5 => minute / 5 * 5,
        Timeframe::m15 => minute / 15 * 15,
        Timeframe::m30 => minute / 30 * 30,
        _ => 0,
    }
}

/// An instant splits into whole days, hours of the day, minutes of the hour
/// and a remainder below one minute.
proof fn lemma_calendar_fields(ts: int)
    ensures
        0 <= hour_of_day(ts) < 24,
        0 <= minute_of_hour(ts) < 60,
        0 <= ts % 60_000 < 60_000,
        ts == (ts / 86_400_000) * 86_400_000 + hour_of_day(ts) * 3_600_000 + minute_of_hour(ts)
            * 60_000 + ts % 60_000,
        day_start(ts) == (ts / 86_400_000) * 86_400_000,
{
    let a = ts / 60_000;
    let r = ts % 60_000;
    assert(ts == a * 60_000 + r);
    let b = a / 60;
    let m = a % 60;
    assert(a == b * 60 + m);
    let c = b / 24;
    let h = b % 24;
    assert(b == c * 24 + h);
    assert(ts == b * 3_600_000 + (m * 60_000 + r));
    assert(ts / 3_600_000 == b);
    assert(ts == c * 86_400_000 + (h * 3_600_000 + m * 60_000 + r));
    assert(ts / 86_400_000 == c);
    assert(ts % 86_400_000 == h * 3_600_000 + m * 60_000 + r);
}

/// For an instant given by its calendar fields, cutting the fields as
/// `truncate_to_tf` does lands on the start of its bucket.
proof fn lemma_cut_fields(ts: int, day: int, hour: int, minute: int, rest: int, tf: Timeframe)
    requires
        ts == day * 86_400_000 + hour * 3_600_000 + minute * 60_000 + rest,
        0 <= hour < 24,
        0 <= minute < 60,
        0 <= rest < 60_000,
    ensures
        bucket_start(ts, tf) == day * 86_400_000 + cut_hour(hour, tf) * 3_600_000 + cut_minute(
            minute,
            tf,
        ) * 60_000,
        0 <= cut_hour(hour, tf) < 24,
        0 <= cut_minute(minute, tf) < 60,
{
    match tf {
        Timeframe::m1 => {
            lemma_fundamental_div_mod_converse(
                ts,
                60_000,
                day * 1440 + hour * 60 + minute,
                rest,
            );
        },
        Timeframe::m5 => {
            lemma_fundamental_div_mod_converse(
                ts,
                300_000,
                day * 288 + hour * 12 + minute / 5,
                (minute % 5) * 60_000 + rest,
            );
        },
        Timeframe::m15 => {
            lemma_fundamental_div_mod_converse(
                ts,
                900_000,
                day * 96 + hour * 4 + minute / 15,
                (minute % 15) * 60_000 + rest,
            );
        },
        Timeframe::m30 => {
            lemma_fundamental_div_mod_converse(
                ts,
                1_800_000,
                day * 48 + hour * 2 + minute / 30,
                (minute % 30) * 60_000 + rest,
            );
        },
        Timeframe::h1 => {
            lemma_fundamental_div_mod_converse(
                ts,
                3_600_000,
                day * 24 + hour,
                minute * 60_000 + rest,
            );
        },
        Timeframe::h4 => {
            lemma_fundamental_div_mod_converse(
                ts,
                14_400_000,
                day * 6 + hour / 4,
                (hour % 4) * 3_600_000 + minute * 60_000 + rest,
            );
        },
        Timeframe::d1 => {
            lemma_fundamental_div_mod_converse(
                ts,
                86_400_000,
                day,
                hour * 3_600_000 + minute * 60_000 + rest,
            );
        },
    }
}

/// A bucket start is a multiple of the bucket length and at most one length
/// below the instant.
pub proof fn lemma_bucket_start_bounds(ts: int, tf: Timeframe)
    ensures
        bucket_start(ts, tf) % tf.millis() == 0,
        bucket_start(ts, tf) <= ts < bucket_start(ts, tf) + tf.millis(),
        valid_timestamp(ts) ==> valid_timestamp(bucket_start(ts, tf)),
{
    lemma_bucket_aligned(ts, tf.millis());
}

/// `ts - ts % len` is the largest multiple of `len` not above `ts`; the
/// supported range starts on a multiple of every bucket length.
proof fn lemma_bucket_aligned(ts: int, len: int)
    requires
        len == 60_000 || len == 300_000 || len == 900_000 || len == 1_800_000 || len == 3_600_000
            || len == 14_400_000 || len == 86_400_000,
    ensures
        (ts - ts % len) % len == 0,
        ts - ts % len <= ts < ts - ts % len + len,
        valid_timestamp(ts) ==> valid_timestamp(ts - ts % len),
{
    if len == 60_000 {
        assert((ts - ts % 60_000) % 60_000 == 0);
    } else if len == 300_000 {
        assert((ts - ts % 300_000) % 300_000 == 0);
    } else if len == 900_000 {
        assert((ts - ts % 900_000) % 900_000 == 0);
    } else if len == 1_800_000 {
        assert((ts - ts % 1_800_000) % 1_800_000 == 0);
    } else if len == 3_600_000 {
        assert((ts - ts % 3_600_000) % 3_600_000 == 0);
    } else if len == 14_400_000 {
        assert((ts - ts % 14_400_000) % 14_400_000 == 0);
    } else {
        assert((ts - ts % 86_400_000) % 86_400_000 == 0);
    }
}

/// `chrono::Timelike::hour` of the UTC date-time that
/// `TimeZone::timestamp_millis_opt` builds from `millis`: the hour of the day,
/// counted with floor division so that instants before the epoch fall in the
/// same 24-hour grid.
#[verifier::external_body]
fn utc_hour(millis: i64) -> (hour: u32)
    requires
        valid_timestamp(millis as int),
    ensures
        hour == hour_of_day(millis as int),
{
    Utc.timestamp_millis_opt(millis).unwrap().hour()
}

/// `chrono::Timelike::minute` of the UTC date-time built from `millis`: the
/// minute within the hour.
#[verifier::external_body]
fn utc_minute(millis: i64) -> (minute: u32)
    requires
        valid_timestamp(millis as int),
    ensures
        minute == minute_of_hour(millis as int),
{
    Utc.timestamp_millis_opt(millis).unwrap().minute()
}

/// `chrono::NaiveDate::and_hms_opt` on the UTC date of `millis`
/// (`DateTime::date_naive`), read back with `DateTime::timestamp_millis`: the
/// instant `hour:minute:00.000` of the same UTC day.
#[verifier::external_body]
fn utc_same_day_at(millis: i64, hour: u32, minute: u32) -> (at: i64)
    requires
        valid_timestamp(millis as int),
        hour < 24,
        minute < 60,
    ensures
        at == day_start(millis as int) + hour * 3_600_000 + minute * 60_000,
{
    let day = Utc.timestamp_millis_opt(millis).unwrap().date_naive();
    day.and_hms_opt(hour, minute, 0).unwrap().and_utc().timestamp_millis()
}

/// Start of the bucket of `tf` that holds `ts`, by calendar fields: minutes
/// are cut to a multiple of 5, 15 or 30, hours to a multiple of 4, days to
/// midnight.
pub fn truncate_to_tf(ts: i64, tf: &Timeframe) -> (start: i64)
    requires
        valid_timestamp(ts as int),
    ensures
        start == bucket_start(ts as int, *tf),
        valid_timestamp(start as int),
        start <= ts < start + tf.millis(),
        (start as int) % tf.millis() == 0,
{
    proof {
        lemma_calendar_fields(ts as int);
        lemma_cut_fields(
            ts as int,
            ts as int / 86_400_000,
            hour_of_day(ts as int),
            minute_of_hour(ts as int),
            ts as int % 60_000,
            *tf,
        );
        lemma_bucket_start_bounds(ts as int, *tf);
    }
    let hour: u32 = utc_hour(ts);
    let minute: u32 = utc_minute(ts);
    match tf {
        Timeframe::m1 => utc_same_day_at(ts, hour, minute),
        Timeframe::m5 => utc_same_day_at(ts, hour, minute / 5 * 5),
        Timeframe::m15 => utc_same_day_at(ts, hour, minute / 15 * 15),
        Timeframe::m30 => utc_same_day_at(ts, hour, minute / 30 * 30),
        Timeframe::h1 => utc_same_day_at(ts, hour, 0),
        Timeframe::h4 => utc_same_day_at(ts, hour / 4 * 4, 0),
        Timeframe::d1 => utc_same_day_at(ts, 0, 0),
    }
}

} // verus!
