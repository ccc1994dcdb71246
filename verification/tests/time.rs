use time_c::format::Rfc3339;
use time_c::sys::{get_time, parse_unix, tm};
use time_c::Time;

fn raw(
    sec: i32,
    min: i32,
    hour: i32,
    mday: i32,
    mon: i32,
    year: i32,
    wday: i32,
    yday: i32,
    isdst: i32,
) -> tm {
    tm {
        tm_sec: sec,
        tm_min: min,
        tm_hour: hour,
        tm_mday: mday,
        tm_mon: mon,
        tm_year: year,
        tm_wday: wday,
        tm_yday: yday,
        tm_isdst: isdst,
    }
}

#[test]
fn should_get_current_time() {
    let now = get_time().expect("get time");
    assert_ne!(now, 0);
    let tm = parse_unix(&now).expect("parse time");
    let tm_repr = Rfc3339(&tm).to_string();
    println!("tm_repr={tm_repr}");
    assert_ne!(tm.tm_year, 0);

    let normalized = tm.normalize();
    assert_eq!(tm.tm_sec, normalized.sec as _);
    assert_eq!(tm.tm_min, normalized.min as _);
    assert_eq!(tm.tm_hour, normalized.hour as _);
    assert_eq!(tm.tm_mday, normalized.month_day as _);
    assert_eq!(tm.tm_mon.saturating_add(1), normalized.month as _);
    assert_eq!(tm.tm_year.saturating_add(1900), normalized.year as _);
    assert_eq!(tm.tm_wday, normalized.week_day as _);
    assert_eq!(tm.tm_yday, normalized.day as _);

    let normalized_repr = normalized.rfc3339().to_string();
    println!("normalized={tm_repr}");
    assert_eq!(tm_repr, normalized_repr);
}

#[test]
fn epoch_decodes_to_thursday_january_first_1970() {
    let t = Time::parse_unix(&0).expect("epoch decodes");
    assert_eq!(t.year, 1970);
    assert_eq!(t.month, 1);
    assert_eq!(t.month_day, 1);
    assert_eq!(t.hour, 0);
    assert_eq!(t.min, 0);
    assert_eq!(t.sec, 0);
    assert_eq!(t.week_day, 4);
    assert_eq!(t.day, 0);
    assert!(!t.is_dst);
    assert_eq!(t.rfc3339().to_string(), "1970-01-01T00:00:00Z");

    let m = parse_unix(&0).expect("epoch decodes raw");
    assert_eq!(m.tm_year, 70);
    assert_eq!(m.tm_mon, 0);
    assert_eq!(m.tm_mday, 1);
    assert_eq!(m.tm_wday, 4);
    assert_eq!(m.tm_yday, 0);
    assert_eq!(m.tm_isdst, 0);
}

#[test]
fn leap_day_2024_decodes_exactly() {
    // 2024-02-29T12:00:00Z
    let t = Time::parse_unix(&1709208000).expect("decodes");
    assert_eq!(t.year, 2024);
    assert_eq!(t.month, 2);
    assert_eq!(t.month_day, 29);
    assert_eq!(t.hour, 12);
    assert_eq!(t.min, 0);
    assert_eq!(t.sec, 0);
    assert_eq!(t.week_day, 4);
    assert_eq!(t.rfc3339().to_string(), "2024-02-29T12:00:00Z");
}

#[test]
fn century_2100_skips_leap_day() {
    // 2100 is divisible by 100 but not by 400, hence not a leap year.
    let before = Time::parse_unix(&4107542399).expect("decodes");
    assert_eq!(before.rfc3339().to_string(), "2100-02-28T23:59:59Z");
    let after = Time::parse_unix(&4107542400).expect("decodes");
    assert_eq!(after.rfc3339().to_string(), "2100-03-01T00:00:00Z");
    assert_eq!(after.month, 3);
    assert_eq!(after.month_day, 1);
}

#[test]
fn second_before_epoch_decodes_to_last_second_of_1969() {
    let t = Time::parse_unix(&-1).expect("decodes");
    assert_eq!(t.year, 1969);
    assert_eq!(t.month, 12);
    assert_eq!(t.month_day, 31);
    assert_eq!(t.hour, 23);
    assert_eq!(t.min, 59);
    assert_eq!(t.sec, 59);
    assert_eq!(t.week_day, 3);
    assert_eq!(t.day, 364);
    assert_eq!(t.rfc3339().to_string(), "1969-12-31T23:59:59Z");
}

#[test]
fn formatter_zero_pads_every_field() {
    let t = Time {
        sec: 9,
        min: 2,
        hour: 1,
        month_day: 5,
        month: 3,
        year: 2024,
        week_day: 2,
        day: 64,
        is_dst: false,
    };
    assert_eq!(t.rfc3339().to_string(), "2024-03-05T01:02:09Z");
}

#[test]
fn formatter_widens_overflowing_fields_instead_of_truncating() {
    let t = Time {
        sec: 9,
        min: 2,
        hour: 1,
        month_day: 255,
        month: 3,
        year: 2024,
        week_day: 2,
        day: 64,
        is_dst: false,
    };
    assert_eq!(t.rfc3339().to_string(), "2024-03-255T01:02:09Z");
}

#[test]
fn year_10000_renders_five_digits() {
    let t = Time::parse_unix(&253402300800).expect("decodes");
    assert_eq!(t.year, 10000);
    assert_eq!(t.rfc3339().to_string(), "10000-01-01T00:00:00Z");
}

#[test]
fn normalization_is_idempotent() {
    // 2024-02-29T12:34:56Z as a host decoder would report it.
    let m = raw(56, 34, 12, 29, 1, 124, 4, 59, 0);
    let once = m.normalize();
    let shifted_back = raw(
        once.sec as i32,
        once.min as i32,
        once.hour as i32,
        once.month_day as i32,
        once.month as i32 - 1,
        once.year as i32 - 1900,
        once.week_day as i32,
        once.day as i32,
        if once.is_dst { 1 } else { 0 },
    );
    assert_eq!(shifted_back.normalize(), once);
    // Determinism: repeated normalization of the same raw input.
    assert_eq!(m.normalize(), once);
}

#[test]
fn normalization_clamps_out_of_range_fields() {
    let m = raw(-5, 300, 23, 31, 300, i32::MAX, 6, 70000, -1);
    let n = m.normalize();
    assert_eq!(n.sec, 0);
    assert_eq!(n.min, 255);
    assert_eq!(n.hour, 23);
    assert_eq!(n.month, 255);
    assert_eq!(n.year, 65535);
    assert_eq!(n.day, 65535);
    assert!(!n.is_dst);

    assert!(raw(0, 0, 0, 1, 0, 70, 4, 0, 1).normalize().is_dst);
    assert!(!raw(0, 0, 0, 1, 0, 70, 4, 0, 0).normalize().is_dst);
    assert!(!raw(0, 0, 0, 1, 0, 70, 4, 0, -7).normalize().is_dst);
}

#[test]
fn normalization_treats_dst_like_the_host() {
    // The tri-state flag collapses to "in effect" only for positive values.
    let dst = raw(0, 0, 0, 1, 5, 100, 2, 160, 2).normalize();
    assert!(dst.is_dst);
    let unknown = raw(0, 0, 0, 1, 5, 100, 2, 160, -1).normalize();
    assert!(!unknown.is_dst);
}

#[test]
fn raw_and_normalized_records_format_identically() {
    for t in [0i64, -1, 1709208000, 4107542399, 253402300800, -62167219201] {
        let m = parse_unix(&t).expect("decodes");
        assert_eq!(Rfc3339(&m).to_string(), m.normalize().rfc3339().to_string());
    }
}

#[test]
fn raw_record_equality_considers_all_nine_fields() {
    let a = raw(56, 34, 12, 29, 1, 124, 4, 59, 0);
    let b = raw(56, 34, 12, 29, 1, 124, 4, 59, 0);
    assert!(a == b);
    let dst_differs = raw(56, 34, 12, 29, 1, 124, 4, 59, 1);
    assert!(a != dst_differs);
    let sec_differs = raw(57, 34, 12, 29, 1, 124, 4, 59, 0);
    assert!(a != sec_differs);
}

#[test]
fn extreme_seconds_values_are_rejected() {
    assert!(parse_unix(&i64::MIN).is_none());
    assert!(parse_unix(&i64::MAX).is_none());
    assert!(Time::parse_unix(&i64::MIN).is_none());
    assert!(Time::parse_unix(&i64::MAX).is_none());
}

#[test]
fn years_outside_u16_clamp_only_the_year_field() {
    // 65536-01-01T00:00:00Z: one second past the last u16-exact instant.
    let wide = Time::parse_unix(&2005949145600).expect("decodes");
    assert_eq!(wide.year, 65535);
    let raw_wide = parse_unix(&2005949145600).expect("decodes raw");
    assert_eq!(raw_wide.tm_year, 63636);
    assert_eq!(raw_wide.tm_mon, 0);
    assert_eq!(raw_wide.tm_mday, 1);

    let last_exact = Time::parse_unix(&2005949145599).expect("decodes");
    assert_eq!(last_exact.year, 65535);
    assert_eq!(last_exact.rfc3339().to_string(), "65535-12-31T23:59:59Z");

    // One second before year 0: the year clamps to 0, the rest is exact.
    let before_zero = Time::parse_unix(&-62167219201).expect("decodes");
    assert_eq!(before_zero.year, 0);
    assert_eq!(before_zero.month, 12);
    assert_eq!(before_zero.month_day, 31);
    let raw_before = parse_unix(&-62167219201).expect("decodes raw");
    assert_eq!(raw_before.tm_year, -1901);
}
