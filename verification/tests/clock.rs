use glowclock::clock::{
    civil_from_days, format_display, from_epoch, from_epoch_dt, parse_offset, weekday_from_days,
    unix_seconds, weekday_name, DateTime, Hms,
};

#[test]
fn epoch_zero_is_midnight_utc() {
    assert_eq!(from_epoch(0, 0), Hms { h: 0, m: 0, s: 0 });
}

#[test]
fn applies_positive_offset() {
    assert_eq!(from_epoch(0, 8 * 3600), Hms { h: 8, m: 0, s: 0 });
}

#[test]
fn wraps_across_day_boundary_with_negative_offset() {
    assert_eq!(from_epoch(30, -3600), Hms { h: 23, m: 0, s: 30 });
}

#[test]
fn parses_offsets() {
    assert_eq!(parse_offset("+0800"), Some(28_800));
    assert_eq!(parse_offset("-0530"), Some(-19_800));
    assert_eq!(parse_offset("+0000"), Some(0));
    assert_eq!(parse_offset("junk"), None);
}

#[test]
fn twelve_hour_midnight_is_twelve() {
    let t = Hms { h: 0, m: 5, s: 9 };
    assert_eq!(format_display(t, false), "12:05:09");
    assert_eq!(format_display(t, true), "00:05:09");
}

#[test]
fn colon_is_steady() {
    let t = Hms { h: 6, m: 46, s: 21 };
    assert_eq!(format_display(t, true), "06:46:21");
}

#[test]
fn civil_date_epoch_is_1970_01_01_thursday() {
    let dt = from_epoch_dt(0, 0);
    assert_eq!((dt.year, dt.month, dt.day), (1970, 1, 1));
    assert_eq!(dt.dow, 4); // Thursday
    assert_eq!(weekday_name(dt.dow), "Thu");
}

#[test]
fn civil_date_known_timestamp() {
    // 2026-09-10 06:46:21 UTC = 1789022781.
    let dt = from_epoch_dt(1_789_022_781, 0);
    assert_eq!((dt.year, dt.month, dt.day), (2026, 9, 10));
    assert_eq!((dt.h, dt.m, dt.s), (6, 46, 21));
}

#[test]
fn offset_can_shift_the_date() {
    // 1970-01-01 23:30 UTC + 1h -> 1970-01-02 00:30.
    let dt = from_epoch_dt(23 * 3600 + 30 * 60, 3600);
    assert_eq!((dt.year, dt.month, dt.day), (1970, 1, 2));
    assert_eq!((dt.h, dt.m), (0, 30));
}

#[test]
fn twelve_hour_afternoon_and_noon() {
    assert_eq!(format_display(Hms { h: 13, m: 0, s: 1 }, false), "01:00:01");
    assert_eq!(format_display(Hms { h: 12, m: 30, s: 0 }, false), "12:30:00");
    assert_eq!(format_display(Hms { h: 23, m: 59, s: 59 }, true), "23:59:59");
}

#[test]
fn negative_epoch_is_before_1970() {
    // One second before the epoch is 1969-12-31 23:59:59, a Wednesday.
    let dt = from_epoch_dt(-1, 0);
    assert_eq!((dt.year, dt.month, dt.day), (1969, 12, 31));
    assert_eq!((dt.h, dt.m, dt.s), (23, 59, 59));
    assert_eq!(weekday_name(dt.dow), "Wed");
}

#[test]
fn leap_day_is_a_real_date() {
    // 2024-02-29 is day 19782 since the epoch; 2023-03-01 is day 19417.
    assert_eq!(civil_from_days(19_782), (2024, 2, 29));
    assert_eq!(civil_from_days(19_417), (2023, 3, 1));
    assert_eq!(civil_from_days(-719_468), (0, 3, 1));
}

#[test]
fn weekdays_step_by_one() {
    assert_eq!(weekday_from_days(0), 4);
    assert_eq!(weekday_from_days(1), 5);
    assert_eq!(weekday_from_days(-1), 3);
    assert_eq!(weekday_from_days(3), 0);
    assert_eq!(weekday_name(0), "Sun");
    assert_eq!(weekday_name(6), "Sat");
    assert_eq!(weekday_name(7), "Sun");
}

#[test]
fn offsets_reject_malformed_text() {
    assert_eq!(parse_offset("0800"), None);
    assert_eq!(parse_offset("+08"), None);
    assert_eq!(parse_offset("+08a0"), None);
    assert_eq!(parse_offset("+0800\n"), Some(28_800));
    assert_eq!(parse_offset("  -0100"), None);
    assert_eq!(parse_offset("-+1+2"), None);
    assert_eq!(parse_offset("+-800"), None);
    assert_eq!(parse_offset("+1 00"), None);
}

#[test]
fn hms_of_datetime_keeps_the_time() {
    let dt = DateTime { year: 2026, month: 9, day: 10, dow: 4, h: 7, m: 8, s: 9 };
    assert_eq!(dt.hms(), Hms { h: 7, m: 8, s: 9 });
}

#[test]
fn clock_readings_become_timestamps() {
    assert_eq!(unix_seconds(Some(1_789_022_781)), 1_789_022_781);
    assert_eq!(unix_seconds(None), 0);
    assert_eq!(unix_seconds(Some(0)), 0);
}

#[test]
fn day_counts_step_through_the_calendar() {
    assert_eq!(civil_from_days(0), (1970, 1, 1));
    assert_eq!(civil_from_days(-1), (1969, 12, 31));
    assert_eq!(civil_from_days(11_016), (2000, 2, 29));
    assert_eq!(civil_from_days(11_017), (2000, 3, 1));
    assert_eq!(civil_from_days(10_956), (1999, 12, 31));
    assert_eq!(civil_from_days(10_957), (2000, 1, 1));
}

#[test]
fn day_counts_far_from_the_epoch() {
    let (y, m, d) = civil_from_days(i64::MIN);
    assert!((1..=12).contains(&m) && (1..=31).contains(&d) && y < 0);
    let (y, m, d) = civil_from_days(i64::MAX - 719_468);
    assert!((1..=12).contains(&m) && (1..=31).contains(&d) && y > 0);
}
