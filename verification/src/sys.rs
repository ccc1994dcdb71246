//! Raw calendar records in the host convention, the self-contained epoch
//! decoder, and the host clock.

#![allow(non_camel_case_types)]

use vstd::prelude::*;

use crate::Time;
use crate::calendar::{
    days_before_year, days_in_month_of, epoch_days_of, leap_of, march_days,
    lemma_days_before_month_values, lemma_days_before_year_monotone, lemma_div_mod_witness,
    lemma_epoch_days_bounds, lemma_feb29, lemma_march_anchor, lemma_year_bridge, lemma_year_split,
};
use vstd::arithmetic::div_mod::lemma_fundamental_div_mod;

verus! {

/// Seconds from the Unix epoch to 2000-03-01T00:00:00Z, the anchor of the
/// decoder's 400-year cycle arithmetic.
const LEAPOCH: i64 = 946684800 + 86400 * (31 + 29);

const DAYS_PER_400Y: i64 = 365 * 400 + 97;

const DAYS_PER_100Y: i64 = 365 * 100 + 24;

const DAYS_PER_4Y: i64 = 365 * 4 + 1;

/// Alias to time_t.
///
/// This crate supports 64bit time only.
pub type time_t = i64;

/// C-convention decoded time: zero-based month, year counted from 1900.
#[derive(Copy, Clone, Debug)]
pub struct tm {
    /// Seconds after the minute. Range 0-60
    pub tm_sec: i32,
    /// Minutes after the hour. Range 0-59
    pub tm_min: i32,
    /// Hours since midnight. Range 0-23
    pub tm_hour: i32,
    /// Day of the month. Range 1-31
    pub tm_mday: i32,
    /// Months since January. Range 0-11
    pub tm_mon: i32,
    /// Years since 1900
    pub tm_year: i32,
    /// Days since Sunday. Range 0-6
    pub tm_wday: i32,
    /// Days since January 1. Range 0-365
    pub tm_yday: i32,
    /// Daylight Saving Time flag. A positive value indicates DST is present.
    pub tm_isdst: i32,
}

impl PartialEq for tm {
    /// Compares the nine documented calendar fields, the DST flag included.
    fn eq(&self, other: &Self) -> (r: bool) {
        self.tm_sec == other.tm_sec && self.tm_min == other.tm_min && self.tm_hour
            == other.tm_hour && self.tm_mday == other.tm_mday && self.tm_mon == other.tm_mon
            && self.tm_year == other.tm_year && self.tm_wday == other.tm_wday && self.tm_yday
            == other.tm_yday && self.tm_isdst == other.tm_isdst
    }
}

impl vstd::std_specs::cmp::PartialEqSpecImpl for tm {
    open spec fn obeys_eq_spec() -> bool {
        true
    }

    open spec fn eq_spec(&self, other: &Self) -> bool {
        self.tm_sec == other.tm_sec && self.tm_min == other.tm_min && self.tm_hour
            == other.tm_hour && self.tm_mday == other.tm_mday && self.tm_mon == other.tm_mon
            && self.tm_year == other.tm_year && self.tm_wday == other.tm_wday && self.tm_yday
            == other.tm_yday && self.tm_isdst == other.tm_isdst
    }
}

/// An integer pushed into the `u8` range: values outside it are clamped to
/// the nearest bound rather than wrapped.
pub open spec fn clamp_u8(x: int) -> int {
    if x < 0 {
        0
    } else if x > 255 {
        255
    } else {
        x
    }
}

/// An integer pushed into the `u16` range, clamping as [`clamp_u8`] does.
pub open spec fn clamp_u16(x: int) -> int {
    if x < 0 {
        0
    } else if x > 65535 {
        65535
    } else {
        x
    }
}

/// What [`tm::normalize`] returns: the month becomes 1-based, the year
/// absolute, the tri-state DST flag a boolean, and every narrowed field is
/// clamped, never wrapped.
pub open spec fn tm_normalize_spec(m: tm) -> Time {
    Time {
        sec: clamp_u8(m.tm_sec as int) as u8,
        min: clamp_u8(m.tm_min as int) as u8,
        hour: clamp_u8(m.tm_hour as int) as u8,
        month_day: clamp_u8(m.tm_mday as int) as u8,
        month: clamp_u8(m.tm_mon + 1) as u8,
        year: clamp_u16(m.tm_year + 1900) as u16,
        week_day: clamp_u8(m.tm_wday as int) as u8,
        day: clamp_u16(m.tm_yday as int) as u16,
        is_dst: m.tm_isdst > 0,
    }
}

fn sat_u8(x: i64) -> (r: u8)
    ensures
        r == clamp_u8(x as int),
{
    if x < 0 {
        0
    } else if x > 255 {
        255
    } else {
        x as u8
    }
}

fn sat_u16(x: i64) -> (r: u16)
    ensures
        r == clamp_u16(x as int),
{
    if x < 0 {
        0
    } else if x > 65535 {
        65535
    } else {
        x as u16
    }
}

impl tm {
    /// Normalizes time to a more convenient struct for interpreting time
    /// components. Total for any field values: out-of-range fields are
    /// clamped into the target range, never wrapped, and never a panic.
    pub fn normalize(&self) -> (r: Time)
        ensures
            r == tm_normalize_spec(*self),
    {
        Time {
            sec: sat_u8(self.tm_sec as i64),
            min: sat_u8(self.tm_min as i64),
            hour: sat_u8(self.tm_hour as i64),
            month_day: sat_u8(self.tm_mday as i64),
            month: sat_u8(self.tm_mon as i64 + 1),
            year: sat_u16(self.tm_year as i64 + 1900),
            week_day: sat_u8(self.tm_wday as i64),
            day: sat_u16(self.tm_yday as i64),
            is_dst: self.tm_isdst > 0,
        }
    }
}

/// Normalizing a record that already went through normalization changes
/// nothing: mapping a normalized record back to the raw conventions and
/// normalizing again returns the same record bit for bit.
pub proof fn lemma_normalize_idempotent(m: tm)
    ensures
        tm_normalize_spec(raw_of(tm_normalize_spec(m))) == tm_normalize_spec(m),
{
}

/// The raw-convention record holding the same instant as a normalized one:
/// the convention shift of [`tm::normalize`], undone.
pub open spec fn raw_of(t: Time) -> tm {
    tm {
        tm_sec: t.sec as i32,
        tm_min: t.min as i32,
        tm_hour: t.hour as i32,
        tm_mday: t.month_day as i32,
        tm_mon: (t.month - 1) as i32,
        tm_year: (t.year - 1900) as i32,
        tm_wday: t.week_day as i32,
        tm_yday: t.day as i32,
        tm_isdst: if t.is_dst {
            1
        } else {
            0
        },
    }
}

/// What [`parse_unix`] returns for an in-range seconds value `t`: the unique
/// calendar record whose civil date, clock fields, weekday and year-day
/// reconstruct `t`.
pub open spec fn decodes_to(t: int, m: tm) -> bool {
    let days = t / 86400;
    let rem = t % 86400;
    let y = m.tm_year + 1900;
    let mon = m.tm_mon + 1;
    &&& m.tm_sec == rem % 60
    &&& m.tm_min == rem / 60 % 60
    &&& m.tm_hour == rem / 3600
    &&& m.tm_wday == (days + 4) % 7
    &&& m.tm_isdst == 0
    &&& 1 <= mon <= 12
    &&& 1 <= m.tm_mday <= days_in_month_of(y, mon)
    &&& epoch_days_of(y, mon, m.tm_mday as int) == days
    &&& m.tm_yday == days - days_before_year(y)
}

/// First second whose year still fits the record's year-since-1900 field:
/// midnight of January 1 of the year `i32::MIN + 1900`.
pub open spec fn min_decodable_secs() -> int {
    86400 * days_before_year(-2147481748)
}

/// Last second whose year still fits the record's year-since-1900 field: the
/// end of the year `i32::MAX + 1900`.
pub open spec fn max_decodable_secs() -> int {
    86400 * days_before_year(2147485548) - 1
}

/// The seconds values that [`parse_unix`] decodes rather than rejects.
pub open spec fn in_decode_range(t: int) -> bool {
    min_decodable_secs() <= t <= max_decodable_secs()
}

/// Ground bounds of the decodable window: it sits strictly inside the `i64`
/// range and contains the epoch.
proof fn lemma_decode_range_fits()
    ensures
        i64::MIN + LEAPOCH < min_decodable_secs() < 0,
        0 < max_decodable_secs() < i64::MAX,
{
    lemma_div_mod_witness(-2147481749, 4, -536870438, 3);
    lemma_div_mod_witness(-2147481749, 100, -21474818, 51);
    lemma_div_mod_witness(-2147481749, 400, -5368705, 251);
    lemma_div_mod_witness(2147485547, 4, 536871386, 3);
    lemma_div_mod_witness(2147485547, 100, 21474855, 47);
    lemma_div_mod_witness(2147485547, 400, 5368713, 347);
    lemma_div_mod_witness(1969, 4, 492, 1);
    lemma_div_mod_witness(1969, 100, 19, 69);
    lemma_div_mod_witness(1969, 400, 4, 369);
}

/// Length of the month at index `i` of a March-based year (index 0 is
/// March, index 11 the following February, reached with 29 days only when
/// the surrounding decomposition leaves a 366th day).
pub open spec fn march_month_len(i: int) -> int {
    if i == 0 {
        31
    } else if i == 1 {
        30
    } else if i == 2 {
        31
    } else if i == 3 {
        30
    } else if i == 4 {
        31
    } else if i == 5 {
        31
    } else if i == 6 {
        30
    } else if i == 7 {
        31
    } else if i == 8 {
        30
    } else if i == 9 {
        31
    } else if i == 10 {
        31
    } else {
        29
    }
}

/// Days before the month at index `i` of a March-based year.
pub open spec fn march_prefix(i: int) -> int
    decreases i,
{
    if i <= 0 {
        0
    } else {
        march_prefix(i - 1) + march_month_len(i - 1)
    }
}

proof fn lemma_march_prefix_values()
    ensures
        march_prefix(0) == 0,
        march_prefix(1) == 31,
        march_prefix(2) == 61,
        march_prefix(3) == 92,
        march_prefix(4) == 122,
        march_prefix(5) == 153,
        march_prefix(6) == 184,
        march_prefix(7) == 214,
        march_prefix(8) == 245,
        march_prefix(9) == 275,
        march_prefix(10) == 306,
        march_prefix(11) == 337,
        march_prefix(12) == 366,
{
    reveal_with_fuel(march_prefix, 14);
}

fn month_len_at(i: usize) -> (r: i64)
    requires
        i < 12,
    ensures
        r == march_month_len(i as int),
{
    if i == 0 {
        31
    } else if i == 1 {
        30
    } else if i == 2 {
        31
    } else if i == 3 {
        30
    } else if i == 4 {
        31
    } else if i == 5 {
        31
    } else if i == 6 {
        30
    } else if i == 7 {
        31
    } else if i == 8 {
        30
    } else if i == 9 {
        31
    } else if i == 10 {
        31
    } else {
        29
    }
}

/// The cycle decomposition of a day count names a civil date: with the
/// capped 100-, 4- and 1-year counts and the March-based month index in
/// hand, the corresponding civil year, month and day reconstruct the day
/// count, and the year-day falls out of the same arithmetic.
proof fn lemma_civil_mapping(qc: int, c: int, q: int, ry: int, rd0: int, mi: int, dleft: int, leap: int, days: int)
    requires
        0 <= c <= 3,
        0 <= q <= 24,
        0 <= ry <= 3,
        days == 146097 * qc + 36524 * c + 1461 * q + 365 * ry + rd0,
        0 <= rd0 <= 365,
        rd0 == 365 ==> ry == 3 && (q == 24 ==> c == 3),
        leap == (if ry == 0 && (q != 0 || c == 0) {
            1int
        } else {
            0int
        }),
        0 <= mi <= 11,
        rd0 == march_prefix(mi) + dleft,
        0 <= dleft < march_month_len(mi),
    ensures
        ({
            let yy = 400 * qc + 100 * c + 4 * q + ry;
            let yv = if mi >= 10 {
                2001 + yy
            } else {
                2000 + yy
            };
            let mon1 = if mi >= 10 {
                mi - 9
            } else {
                mi + 3
            };
            let d = dleft + 1;
            &&& 1 <= mon1 <= 12
            &&& 1 <= d <= days_in_month_of(yv, mon1)
            &&& epoch_days_of(yv, mon1, d) == 11017 + days
            &&& leap == leap_of(2000 + yy)
            &&& (mi >= 10 <==> rd0 >= 306)
            &&& (if rd0 + 59 + leap >= 365 + leap {
                rd0 + 59 + leap - (365 + leap)
            } else {
                rd0 + 59 + leap
            }) == 11017 + days - days_before_year(yv)
        }),
{
    let yy = 400 * qc + 100 * c + 4 * q + ry;
    lemma_year_split(qc, c, q, ry);
    lemma_march_anchor(yy);
    assert(days == march_days(yy) + rd0);
    lemma_div_mod_witness(2000 + yy, 4, 500 + 100 * qc + 25 * c + q, ry);
    if ry == 0 {
        lemma_div_mod_witness(2000 + yy, 100, 20 + 4 * qc + c, 4 * q);
        if q == 0 {
            lemma_div_mod_witness(2000 + yy, 400, 5 + qc, 100 * c);
        }
    }
    assert(leap == leap_of(2000 + yy));
    lemma_march_prefix_values();
    if rd0 == 365 {
        lemma_feb29(qc, c, q);
    }
    lemma_days_before_month_values(2000 + yy);
    lemma_days_before_month_values(2001 + yy);
    lemma_year_bridge(2000 + yy);
}

/// Floor-splits a count of seconds into whole days and the seconds left in
/// the day, so that instants before the anchor land in the previous day
/// rather than truncating toward it.
fn split_day(secs: i64) -> (r: (i64, i64))
    ensures
        86400 * r.0 + r.1 == secs,
        0 <= r.1 < 86400,
{
    let mut days: i64 = secs / 86400;
    let mut rem: i64 = secs % 86400;
    if rem < 0 {
        rem = rem + 86400;
        days = days - 1;
    }
    (days, rem)
}

/// The weekday of a day count relative to the anchor, which fell on a
/// Wednesday (3 days past Sunday).
fn weekday_from(days: i64) -> (r: i64)
    requires
        i64::MIN + 3 < days < i64::MAX - 3,
    ensures
        r == (days + 3) % 7,
        0 <= r < 7,
{
    let q7: i64 = (3 + days) / 7;
    let mut wday: i64 = (3 + days) % 7;
    if wday < 0 {
        wday = wday + 7;
        proof {
            lemma_div_mod_witness(3 + days as int, 7, q7 as int - 1, wday as int);
        }
    } else {
        proof {
            lemma_div_mod_witness(3 + days as int, 7, q7 as int, wday as int);
        }
    }
    wday
}

/// Decomposes a day count (relative to the anchor) into 400-year cycles,
/// then at most 3 centuries, 24 four-year cycles and 3 single years. The
/// caps keep the skipped leap days of the centuries 2100, 2200 and 2300 from
/// being counted twice, and leave a 366th remainder day exactly where the
/// cycle ends on a leap day.
fn split_cycles(days: i64) -> (r: (i64, i64, i64, i64, i64))
    ensures
        ({
            let (qc, c, q, ry, rd) = r;
            &&& days == 146097 * qc + 36524 * c + 1461 * q + 365 * ry + rd
            &&& 0 <= c <= 3
            &&& 0 <= q <= 24
            &&& 0 <= ry <= 3
            &&& 0 <= rd <= 365
            &&& (rd == 365 ==> ry == 3 && (q == 24 ==> c == 3))
        }),
{
    let mut qc_cycles: i64 = days / DAYS_PER_400Y;
    let mut rem_days: i64 = days % DAYS_PER_400Y;
    if rem_days < 0 {
        rem_days = rem_days + DAYS_PER_400Y;
        qc_cycles = qc_cycles - 1;
    }

    let mut c_cycles: i64 = rem_days / DAYS_PER_100Y;
    if c_cycles == 4 {
        c_cycles = c_cycles - 1;
    }
    rem_days = rem_days - c_cycles * DAYS_PER_100Y;

    let mut q_cycles: i64 = rem_days / DAYS_PER_4Y;
    if q_cycles == 25 {
        q_cycles = q_cycles - 1;
    }
    rem_days = rem_days - q_cycles * DAYS_PER_4Y;

    let mut rem_years: i64 = rem_days / 365;
    if rem_years == 4 {
        rem_years = rem_years - 1;
    }
    rem_days = rem_days - rem_years * 365;

    (qc_cycles, c_cycles, q_cycles, rem_years, rem_days)
}

/// Splits the seconds of one day into hours, minutes and seconds.
fn split_hms(rem: i64) -> (r: (i64, i64, i64))
    requires
        0 <= rem < 86400,
    ensures
        r.0 == rem as int / 3600,
        r.1 == rem as int / 60 % 60,
        r.2 == rem as int % 60,
        0 <= r.0 < 24,
        0 <= r.1 < 60,
        0 <= r.2 < 60,
{
    (rem / 3600, rem / 60 % 60, rem % 60)
}

/// A seconds value whose civil year fits the window lies in the decodable
/// range.
proof fn lemma_secs_in_window(t: int, dt: int, yv: int, mon1: int, d: int)
    requires
        86400 * dt <= t < 86400 * (dt + 1),
        1 <= mon1 <= 12,
        1 <= d <= days_in_month_of(yv, mon1),
        epoch_days_of(yv, mon1, d) == dt,
        -2147481748 <= yv <= 2147485547,
    ensures
        in_decode_range(t),
{
    lemma_epoch_days_bounds(yv, mon1, d);
    lemma_days_before_year_monotone(-2147481748, yv);
    lemma_days_before_year_monotone(yv + 1, 2147485548);
}

/// A seconds value whose civil year overflows the window lies outside the
/// decodable range.
proof fn lemma_secs_outside_window(t: int, dt: int, yv: int, mon1: int, d: int)
    requires
        86400 * dt <= t < 86400 * (dt + 1),
        1 <= mon1 <= 12,
        1 <= d <= days_in_month_of(yv, mon1),
        epoch_days_of(yv, mon1, d) == dt,
        yv < -2147481748 || yv > 2147485547,
    ensures
        !in_decode_range(t),
{
    lemma_epoch_days_bounds(yv, mon1, d);
    if yv > 2147485547 {
        lemma_days_before_year_monotone(2147485548, yv);
    } else {
        lemma_days_before_year_monotone(yv + 1, -2147481748);
    }
}

/// Parses UTC time into tm struct, if possible.
///
/// Self-contained decoder over the proleptic Gregorian calendar: pure
/// integer arithmetic, no host calendar routine, exact for every `i64`
/// seconds value whose year fits the record. Returns `None` exactly outside
/// that window.
#[verifier::loop_isolation(false)]
#[verifier::rlimit(100)]
pub fn parse_unix(timer: &time_t) -> (r: Option<tm>)
    ensures
        r matches Some(m) ==> decodes_to(*timer as int, m),
        r is Some <==> in_decode_range(*timer as int),
{
    let t = *timer;
    proof {
        lemma_decode_range_fits();
    }
    let secs = match t.checked_sub(LEAPOCH) {
        Some(s) => s,
        None => {
            return None;
        },
    };

    let (days, rem_secs) = split_day(secs);
    proof {
        lemma_div_mod_witness(t as int, 86400, days as int + 11017, rem_secs as int);
    }

    let wday = weekday_from(days);
    proof {
        lemma_fundamental_div_mod(days as int + 3, 7);
        let k = (days as int + 3) / 7;
        lemma_div_mod_witness(t as int / 86400 + 4, 7, k + 1574, wday as int);
    }

    let (qc_cycles, c_cycles, q_cycles, rem_years, rd) = split_cycles(days);

    let leap: i64 = if rem_years == 0 && (q_cycles != 0 || c_cycles == 0) {
        1
    } else {
        0
    };
    let mut yday: i64 = rd + 31 + 28 + leap;
    if yday >= 365 + leap {
        yday = yday - (365 + leap);
    }

    let mut years: i64 = rem_years + 4 * q_cycles + 100 * c_cycles + 400 * qc_cycles;
    let ghost rd0 = rd as int;
    proof {
        lemma_march_prefix_values();
    }

    let mut rem_days: i64 = rd;
    let mut mi: usize = 0;
    while mi < 11 && rem_days >= month_len_at(mi)
        invariant
            mi <= 11,
            0 <= rem_days,
            rem_days == rd0 - march_prefix(mi as int),
        decreases 11 - mi,
    {
        let len = month_len_at(mi);
        rem_days = rem_days - len;
        mi = mi + 1;
    }
    assert(0 <= rem_days < march_month_len(mi as int));

    let mut months: i64 = mi as i64;
    if months >= 10 {
        months = months - 12;
        years = years + 1;
    }

    let ghost yv = years as int + 2000;
    let ghost mon1 = months as int + 3;
    let ghost d = rem_days as int + 1;

    proof {
        lemma_civil_mapping(
            qc_cycles as int,
            c_cycles as int,
            q_cycles as int,
            rem_years as int,
            rd0,
            mi as int,
            rem_days as int,
            leap as int,
            days as int,
        );
        assert(epoch_days_of(yv, mon1, d) == t as int / 86400);
        assert(yday == t as int / 86400 - days_before_year(yv));
    }

    if years + 100 > (i32::MAX as i64) || years + 100 < (i32::MIN as i64) {
        proof {
            lemma_secs_outside_window(t as int, t as int / 86400, yv, mon1, d);
        }
        return None;
    }
    proof {
        lemma_secs_in_window(t as int, t as int / 86400, yv, mon1, d);
    }

    let (hh, mm, ss) = split_hms(rem_secs);

    Some(
        tm {
            tm_year: (years + 100) as i32,
            tm_mon: (months + 2) as i32,
            tm_mday: (rem_days + 1) as i32,
            tm_wday: wday as i32,
            tm_yday: yday as i32,
            tm_hour: hh as i32,
            tm_min: mm as i32,
            tm_sec: ss as i32,
            tm_isdst: 0,
        },
    )
}

/// Relies on `std::time::SystemTime::now` and
/// `SystemTime::duration_since(UNIX_EPOCH)`: the current UTC time as whole
/// seconds since the Unix epoch. Yields `None` when the host clock reads
/// before the epoch or past what an `i64` holds.
#[verifier::external_body]
pub fn get_time() -> (r: Option<time_t>)
    ensures
        r matches Some(t) ==> t >= 0,
{
    match std::time::SystemTime::now().duration_since(std::time::SystemTime::UNIX_EPOCH) {
        Ok(d) => i64::try_from(d.as_secs()).ok(),
        Err(_) => None,
    }
}

} // verus!
