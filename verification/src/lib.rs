//! Minimal UTC calendar library.
//!
//! Decomposes a signed 64-bit Unix timestamp into proleptic Gregorian
//! calendar fields using only integer arithmetic, normalizes raw
//! host-convention calendar records into a canonical form, and renders the
//! result as an RFC-3339 UTC string.

use vstd::prelude::*;

pub mod calendar;
pub mod format;
pub mod sys;

use crate::calendar::{
    days_before_year, days_in_month_of, epoch_days_of, lemma_days_before_month_values,
    lemma_days_before_year_monotone, lemma_epoch_days_bounds,
};

verus! {

/// Normalized [`sys::tm`]: calendar fields in their human-meaningful
/// conventions (1-based month, absolute year).
#[derive(Copy, Clone, Debug, PartialEq, Eq, Structural)]
pub struct Time {
    /// Seconds after the minute. Range 0-60
    pub sec: u8,
    /// Minutes after the hour. Range 0-59
    pub min: u8,
    /// Hours since midnight. Range 0-23
    pub hour: u8,
    /// Day of the month. Range 1-31
    pub month_day: u8,
    /// Months since January. Range 1-12
    pub month: u8,
    /// Year
    pub year: u16,
    /// Days since Sunday. Range 0-6
    pub week_day: u8,
    /// Days since January 1. Range 0-365
    pub day: u16,
    /// Indicates Daylight Saving Time presence.
    pub is_dst: bool,
}

/// A normalized record that some raw decode of the seconds value `t`
/// produces: the record of [`Time::parse_unix`] on `t`.
pub open spec fn normalized_decode_matches(t: int, nt: Time) -> bool {
    exists|m: sys::tm| #[trigger] sys::decodes_to(t, m) && nt == sys::tm_normalize_spec(m)
}

impl Time {
    /// Attempts to parse provided unix time and returns new instance of self.
    ///
    /// The clock fields, weekday and month are exact for every decodable
    /// seconds value; the year field, being 16 bits wide, is exact for the
    /// years 0 through 65535 and clamped outside them.
    pub fn parse_unix(secs: &sys::time_t) -> (r: Option<Self>)
        ensures
            r is Some <==> sys::in_decode_range(*secs as int),
            r matches Some(nt) ==> normalized_decode_matches(*secs as int, nt),
            r matches Some(nt) ==> {
                let rem = *secs as int % 86400;
                &&& nt.sec == rem % 60
                &&& nt.min == rem / 60 % 60
                &&& nt.hour == rem / 3600
                &&& nt.week_day == (*secs as int / 86400 + 4) % 7
                &&& 1 <= nt.month <= 12
                &&& !nt.is_dst
            },
            r matches Some(nt) ==> ({
                let dt = *secs as int / 86400;
                days_before_year(0) <= dt < days_before_year(65536) ==> {
                    &&& 1 <= nt.month_day <= days_in_month_of(nt.year as int, nt.month as int)
                    &&& epoch_days_of(nt.year as int, nt.month as int, nt.month_day as int) == dt
                    &&& nt.day == dt - days_before_year(nt.year as int)
                }
            }),
    {
        let t = *secs;
        match sys::parse_unix(&t) {
            Some(m) => {
                let n = m.normalize();
                proof {
                    let ti = t as int;
                    let y = m.tm_year + 1900;
                    let mon = m.tm_mon + 1;
                    let d = m.tm_mday as int;
                    lemma_days_before_month_values(y);
                    assert(0 <= m.tm_yday <= 365);
                    assert(sys::decodes_to(ti, m) && n == sys::tm_normalize_spec(m));
                    if days_before_year(0) <= ti / 86400 < days_before_year(65536) {
                        lemma_epoch_days_bounds(y, mon, d);
                        if y < 0 {
                            lemma_days_before_year_monotone(y + 1, 0);
                        }
                        if y > 65535 {
                            lemma_days_before_year_monotone(65536, y);
                        }
                        assert(0 <= y <= 65535);
                    }
                }
                Some(n)
            },
            None => None,
        }
    }

    /// Gets RFC-3339 formatter for this instance.
    pub fn rfc3339(&self) -> (r: format::Rfc3339<'_, Self>)
        ensures
            r.0 == self,
    {
        format::Rfc3339(self)
    }

    /// Gets current UTC time.
    ///
    /// Whatever instant the host clock reports, a returned record is the
    /// normalized decode of some non-negative seconds value; `None` means
    /// the clock was unavailable or unrepresentable.
    pub fn now_utc() -> (r: Option<Self>)
        ensures
            r matches Some(nt) ==> exists|t: int|
                0 <= t && #[trigger] normalized_decode_matches(t, nt),
            r matches Some(nt) ==> 1 <= nt.month <= 12 && !nt.is_dst,
    {
        match sys::get_time() {
            Some(t) => Time::parse_unix(&t),
            None => None,
        }
    }
}

} // verus!
