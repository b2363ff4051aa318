use glowclock::clock::DateTime;
use glowclock::reminder::{
    default_lines, minute_stamp, parse_all, parse_duration, Manager, Reminder, Schedule,
};

fn dt(month: u32, day: u32, dow: u32, h: u8, m: u8) -> DateTime {
    DateTime {
        year: 2026,
        month,
        day,
        dow,
        h,
        m,
        s: 0,
    }
}

#[test]
fn duration_forms() {
    assert_eq!(parse_duration("90s").unwrap(), 90);
    assert_eq!(parse_duration("30m").unwrap(), 1_800);
    assert_eq!(parse_duration("1h").unwrap(), 3_600);
    assert_eq!(parse_duration("1h30m").unwrap(), 5_400);
    assert_eq!(parse_duration("45").unwrap(), 45);
    assert!(parse_duration("0m").is_err());
    assert!(parse_duration("abc").is_err());
}

#[test]
fn hourly_matches_only_on_minute_zero() {
    let r = Reminder::parse("0 * * * * drink").unwrap().unwrap();
    let Schedule::Cron(c) = r.schedule else {
        panic!("expected cron")
    };
    assert!(c.matches(&dt(9, 10, 4, 13, 0)));
    assert!(!c.matches(&dt(9, 10, 4, 13, 1)));
    assert_eq!(r.message, "drink");
}

#[test]
fn step_and_range_and_weekday() {
    // Every 30 min, 09:00-18:59, Mon-Fri.
    let r = Reminder::parse("*/30 9-18 * * 1-5 stretch")
        .unwrap()
        .unwrap();
    let Schedule::Cron(c) = r.schedule else {
        panic!()
    };
    assert!(c.matches(&dt(9, 10, 4, 9, 0))); // Thu 09:00
    assert!(c.matches(&dt(9, 10, 4, 18, 30))); // Thu 18:30
    assert!(!c.matches(&dt(9, 10, 4, 8, 0))); // before window
    assert!(!c.matches(&dt(9, 10, 4, 9, 15))); // not a 30-min mark
    assert!(!c.matches(&dt(9, 12, 6, 9, 0))); // Saturday
}

#[test]
fn dom_or_dow_when_both_restricted() {
    // Classic cron: day-of-month OR day-of-week when both set.
    let r = Reminder::parse("0 0 13 * 5 payday").unwrap().unwrap();
    let Schedule::Cron(c) = r.schedule else {
        panic!()
    };
    assert!(c.matches(&dt(9, 13, 0, 0, 0))); // the 13th (Sun here)
    assert!(c.matches(&dt(9, 11, 5, 0, 0))); // any Friday
    assert!(!c.matches(&dt(9, 12, 6, 0, 0))); // neither
}

#[test]
fn sunday_accepts_zero_and_seven() {
    let a = Reminder::parse("0 8 * * 0 x").unwrap().unwrap();
    let b = Reminder::parse("0 8 * * 7 x").unwrap().unwrap();
    let (Schedule::Cron(ca), Schedule::Cron(cb)) = (a.schedule, b.schedule) else {
        panic!()
    };
    assert!(ca.matches(&dt(9, 13, 0, 8, 0)));
    assert!(cb.matches(&dt(9, 13, 0, 8, 0)));
}

#[test]
fn convenience_keywords() {
    assert!(matches!(
        Reminder::parse("@hourly beep").unwrap().unwrap().schedule,
        Schedule::Cron(_)
    ));
    let e = Reminder::parse("@every 1h water").unwrap().unwrap();
    assert!(matches!(e.schedule, Schedule::Every { period_secs: 3600 }));
    assert_eq!(e.message, "water");
}

#[test]
fn comments_and_blanks_are_skipped() {
    assert!(Reminder::parse("   ").unwrap().is_none());
    assert!(Reminder::parse("# a note").unwrap().is_none());
}

#[test]
fn interval_fires_once_per_period() {
    let items = vec![Reminder::parse("@every 60s tick").unwrap().unwrap()];
    let base = 1_000_000i64;
    let mut mgr = Manager::new(items, base);
    let d = dt(9, 10, 4, 12, 0);
    assert!(mgr.poll(&d, base + 30).is_none()); // not yet due
    assert_eq!(mgr.poll(&d, base + 60).as_deref(), Some("tick")); // due
    assert!(mgr.poll(&d, base + 90).is_none()); // already fired this period
    assert_eq!(mgr.poll(&d, base + 120).as_deref(), Some("tick")); // next period
}

#[test]
fn cron_fires_once_per_matching_minute() {
    let items = vec![Reminder::parse("0 * * * * water").unwrap().unwrap()];
    let mut mgr = Manager::new(items, 0);
    let at13 = dt(9, 10, 4, 13, 0);
    let base = 13 * 3600; // 13:00:00 unix-of-day
    assert_eq!(mgr.poll(&at13, base).as_deref(), Some("water"));
    assert!(mgr.poll(&at13, base + 30).is_none()); // same minute
    assert!(mgr.poll(&at13, base + 59).is_none());
}

#[test]
fn parse_all_reports_line_errors() {
    let lines = vec![
        "0 * * * * ok".to_string(),
        "99 * * * * bad".to_string(),
        "# comment".to_string(),
    ];
    let (rs, errs) = parse_all(&lines);
    assert_eq!(rs.len(), 1);
    assert_eq!(errs.len(), 1);
    assert!(errs[0].starts_with("line 2:"));
}

#[test]
fn duration_error_messages() {
    assert_eq!(parse_duration("2d").unwrap(), 172_800);
    assert_eq!(parse_duration("").unwrap_err(), "empty duration");
    assert_eq!(parse_duration("1x").unwrap_err(), "bad unit 'x' in \"1x\"");
    assert_eq!(parse_duration("m").unwrap_err(), "bad duration \"m\"");
    assert_eq!(parse_duration("0").unwrap_err(), "non-positive duration \"0\"");
    assert_eq!(parse_duration("1m30").unwrap(), 90);
}

#[test]
fn keyword_forms() {
    let m = Reminder::parse("@minutely stretch").unwrap().unwrap();
    let Schedule::Cron(c) = m.schedule else { panic!() };
    assert!(c.matches(&dt(1, 1, 4, 3, 17)));
    let d = Reminder::parse("@midnight sleep").unwrap().unwrap();
    let Schedule::Cron(c) = d.schedule else { panic!() };
    assert!(c.matches(&dt(1, 1, 4, 0, 0)));
    assert!(!c.matches(&dt(1, 1, 4, 1, 0)));
    let daily = Reminder::parse("@daily").unwrap().unwrap();
    assert_eq!(daily.message, "");
    assert_eq!(
        Reminder::parse("@weekly x").unwrap_err(),
        "unknown @keyword: @weekly"
    );
    assert_eq!(
        Reminder::parse("@every 0s x").unwrap_err(),
        "non-positive duration \"0s\""
    );
}

#[test]
fn cron_field_errors() {
    assert_eq!(
        Reminder::parse("0 * *").unwrap_err(),
        "expected 5 cron fields, got 3"
    );
    assert_eq!(
        Reminder::parse("61 * * * * x").unwrap_err(),
        "\"61\" out of range 0..=59"
    );
    assert_eq!(
        Reminder::parse("*/0 * * * * x").unwrap_err(),
        "zero step in \"*/0\""
    );
    assert_eq!(
        Reminder::parse("a * * * * x").unwrap_err(),
        "bad value \"a\""
    );
    assert_eq!(
        Reminder::parse("1-a * * * * x").unwrap_err(),
        "bad range in \"1-a\""
    );
    assert_eq!(
        Reminder::parse("*/x * * * * x").unwrap_err(),
        "bad step in \"*/x\""
    );
    assert_eq!(
        Reminder::parse("5-3 * * * * x").unwrap_err(),
        "\"5-3\" out of range 0..=59"
    );
    // The weekday field is read first.
    assert_eq!(
        Reminder::parse("99 * * * 8 x").unwrap_err(),
        "\"8\" out of range 0..=7"
    );
}

#[test]
fn lists_and_sources() {
    let r = Reminder::parse("  0,30 12 * * *   lunch time  ").unwrap().unwrap();
    assert_eq!(r.source, "0,30 12 * * *   lunch time");
    assert_eq!(r.message, "lunch time");
    let Schedule::Cron(c) = r.schedule else { panic!() };
    assert!(c.matches(&dt(5, 5, 2, 12, 30)));
    assert!(!c.matches(&dt(5, 5, 2, 12, 15)));
}

#[test]
fn runs_of_blanks_do_not_shift_the_message() {
    let r = Reminder::parse("0  * * * * drink").unwrap().unwrap();
    assert_eq!(r.message, "drink");
    let t = Reminder::parse("0\t*  *   * *\t \tstand  up ").unwrap().unwrap();
    assert_eq!(t.message, "stand  up");
    let e = Reminder::parse("0 * * * *   ").unwrap().unwrap();
    assert_eq!(e.message, "");
}

#[test]
fn interval_skips_missed_periods() {
    let items = vec![Reminder::parse("@every 60s tick").unwrap().unwrap()];
    let base = 1_000i64;
    let mut mgr = Manager::new(items, base);
    let d = dt(9, 10, 4, 12, 0);
    assert_eq!(mgr.poll(&d, base + 600).as_deref(), Some("tick"));
    assert!(mgr.poll(&d, base + 659).is_none());
    assert_eq!(mgr.poll(&d, base + 660).as_deref(), Some("tick"));
}

#[test]
fn first_due_reminder_wins() {
    let items = vec![
        Reminder::parse("0 * * * * first").unwrap().unwrap(),
        Reminder::parse("0 * * * * second").unwrap().unwrap(),
    ];
    let mut mgr = Manager::new(items, 0);
    let at = dt(9, 10, 4, 13, 0);
    assert_eq!(mgr.poll(&at, 46_800).as_deref(), Some("first"));
    assert_eq!(mgr.poll(&at, 46_801).as_deref(), Some("second"));
    assert!(mgr.poll(&at, 46_802).is_none());
    // The next matching minute fires again.
    assert_eq!(mgr.poll(&at, 46_860).as_deref(), Some("first"));
}

#[test]
fn pushed_reminder_fires_without_restart() {
    let mut mgr = Manager::new(Vec::new(), 0);
    assert!(mgr.is_empty());
    mgr.push(Reminder::parse("@every 10s hi").unwrap().unwrap(), 100);
    assert!(!mgr.is_empty());
    let d = dt(1, 1, 4, 0, 0);
    assert!(mgr.poll(&d, 109).is_none());
    assert_eq!(mgr.poll(&d, 110).as_deref(), Some("hi"));
}

#[test]
fn default_lines_all_parse() {
    let lines: Vec<String> = default_lines().into_iter().map(str::to_string).collect();
    let (rs, errs) = parse_all(&lines);
    assert_eq!(rs.len(), 2);
    assert!(errs.is_empty());
    assert_eq!(rs[1].message, "眨眨眼，看看远处，别盯屏幕太久");
}

#[test]
fn parse_all_error_text() {
    let lines = vec!["".to_string(), "@bogus".to_string()];
    let (rs, errs) = parse_all(&lines);
    assert!(rs.is_empty());
    assert_eq!(errs, vec!["line 2: unknown @keyword: @bogus".to_string()]);
}

#[test]
fn minute_stamps_floor() {
    assert_eq!(minute_stamp(0), 0);
    assert_eq!(minute_stamp(59), 0);
    assert_eq!(minute_stamp(60), 1);
    assert_eq!(minute_stamp(-1), -1);
}

#[test]
fn weekday_and_month_names() {
    let a = Reminder::parse("5 4 * * sun x").unwrap().unwrap();
    let b = Reminder::parse("5 4 * * 0 x").unwrap().unwrap();
    assert_eq!(a.schedule, b.schedule);
    let r = Reminder::parse("0 9 * jan-mar MON-Fri standup").unwrap().unwrap();
    let Schedule::Cron(c) = r.schedule else { panic!() };
    let at = |month: u32, dow: u32| DateTime { year: 2026, month, day: 10, dow, h: 9, m: 0, s: 0 };
    assert!(c.matches(&at(2, 1)));
    assert!(c.matches(&at(3, 5)));
    assert!(!c.matches(&at(4, 1)));
    assert!(!c.matches(&at(2, 6)));
    let d = Reminder::parse("0 0 1 dec,Jul * x").unwrap().unwrap();
    let e = Reminder::parse("0 0 1 7,12 * x").unwrap().unwrap();
    assert_eq!(d.schedule, e.schedule);
}

#[test]
fn names_only_where_the_field_takes_them() {
    assert_eq!(Reminder::parse("sun * * * * x").unwrap_err(), "bad value \"sun\"");
    assert_eq!(Reminder::parse("0 0 * * sunday x").unwrap_err(), "bad value \"sunday\"");
    assert_eq!(Reminder::parse("0 0 * jan * x").is_ok(), true);
    assert_eq!(Reminder::parse("0 0 * * jan x").unwrap_err(), "bad value \"jan\"");
}

#[test]
fn surrounding_blanks_do_not_matter() {
    for line in ["  0 9 * * 1-5  standup ", "\t@every 30m  water\n", "   # note  ", "  61 * * * * x "] {
        let a = Reminder::parse(line);
        let b = Reminder::parse(line.trim());
        match (a, b) {
            (Ok(Some(x)), Ok(Some(y))) => {
                assert_eq!(x.schedule, y.schedule);
                assert_eq!(x.message, y.message);
                assert_eq!(x.source, y.source);
            }
            (Ok(None), Ok(None)) => {}
            (Err(x), Err(y)) => assert_eq!(x, y),
            _ => panic!("outcomes differ for {line:?}"),
        }
    }
}

#[test]
fn interval_is_quiet_for_its_first_period() {
    let items = vec![Reminder::parse("@every 90s x").unwrap().unwrap()];
    let mut mgr = Manager::new(items, 500);
    let d = dt(1, 1, 4, 0, 0);
    for t in [500, 501, 560, 589] {
        assert!(mgr.poll(&d, t).is_none());
    }
    assert_eq!(mgr.poll(&d, 590).as_deref(), Some("x"));
}

#[test]
fn polling_walks_the_due_items_then_stops() {
    let items = vec![
        Reminder::parse("@every 10s a").unwrap().unwrap(),
        Reminder::parse("0 * * * * b").unwrap().unwrap(),
        Reminder::parse("@every 10s c").unwrap().unwrap(),
    ];
    let mut mgr = Manager::new(items, 0);
    let at = dt(9, 10, 4, 13, 0);
    assert_eq!(mgr.poll(&at, 46_800).as_deref(), Some("a"));
    assert_eq!(mgr.poll(&at, 46_800).as_deref(), Some("b"));
    assert_eq!(mgr.poll(&at, 46_800).as_deref(), Some("c"));
    assert!(mgr.poll(&at, 46_800).is_none());
    assert!(mgr.poll(&at, 46_800).is_none());
}

#[test]
fn huge_steps_give_the_first_value() {
    let r = Reminder::parse("0 0 1-5/4294967295 * * x").unwrap().unwrap();
    let Schedule::Cron(c) = r.schedule else { panic!() };
    assert_eq!(c.dom.mask, 1u64 << 1);
    let m = Reminder::parse("*/4294967295 * * * * x").unwrap().unwrap();
    let Schedule::Cron(c) = m.schedule else { panic!() };
    assert_eq!(c.min.mask, 1);
    assert!(!Reminder::overflows("0 0 1-5/4294967295 * * x"));
}
