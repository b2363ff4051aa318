//! Local wall-clock time and calendar date without external date crates.
//!
//! A UTC offset (seconds east of UTC) is applied to the system clock to derive
//! local time, date, and weekday in the proleptic Gregorian calendar.
use vstd::prelude::*;
use std::time::{Duration, SystemTime, SystemTimeError, UNIX_EPOCH};
use crate::text::{dec, push_char, push_dec};
use vstd::string::StringSliceAdditionalSpecFns;

verus! {

/// Local time-of-day.
#[derive(Clone, Copy, Debug, PartialEq, Eq)]
pub struct Hms {
    pub h: u8,
    pub m: u8,
    pub s: u8,
}

/// Local civil date + time. `dow` is 0=Sunday .. 6=Saturday.
#[derive(Clone, Copy, Debug, PartialEq, Eq)]
pub struct DateTime {
    pub year: i64,
    pub month: u32,
    pub day: u32,
    pub dow: u32,
    pub h: u8,
    pub m: u8,
    pub s: u8,
}

impl DateTime {
    pub fn hms(&self) -> (r: Hms)
        ensures
            r == (Hms { h: self.h, m: self.m, s: self.s }),
    {
        Hms { h: self.h, m: self.m, s: self.s }
    }
}

pub open spec fn is_leap(y: int) -> bool {
    y % 4 == 0 && (y % 100 != 0 || y % 400 == 0)
}

pub open spec fn days_in_month(y: int, m: int) -> int {
    if m == 2 {
        if is_leap(y) { 29 } else { 28 }
    } else if m == 4 || m == 6 || m == 9 || m == 11 {
        30
    } else {
        31
    }
}

/// Days in the months of year `y` before month `m`.
pub open spec fn days_before_month(y: int, m: int) -> int
    decreases m,
{
    if m <= 1 {
        0
    } else {
        days_before_month(y, m - 1) + days_in_month(y, m - 1)
    }
}

/// Number of leap years in `[0, y)` (negative for negative `y`).
pub open spec fn leaps_before(y: int) -> int {
    (y + 3) / 4 - (y + 99) / 100 + (y + 399) / 400
}

pub open spec fn valid_date(y: int, m: int, d: int) -> bool {
    1 <= m <= 12 && 1 <= d <= days_in_month(y, m)
}

/// Days from 1970-01-01 to the date `y-m-d`.
pub open spec fn days_from_civil(y: int, m: int, d: int) -> int {
    365 * y + leaps_before(y) + days_before_month(y, m) + d - 1 - 719528
}

/// Weekday of the day `z` days after 1970-01-01 (a Thursday), 0=Sunday.
pub open spec fn weekday_of(z: int) -> int {
    (z + 4) % 7
}

/// Seconds east of UTC applied to a unix time: the local time in seconds.
pub open spec fn local_secs(unix_secs: int, offset_secs: int) -> int {
    unix_secs + offset_secs
}

/// The time of day of local second `t`.
pub open spec fn hms_of(t: int) -> Hms {
    let tod = t % 86400;
    Hms { h: (tod / 3600) as u8, m: ((tod % 3600) / 60) as u8, s: (tod % 60) as u8 }
}

#[verifier::external_type_specification]
#[verifier::external_body]
pub struct ExSystemTime(SystemTime);

#[verifier::external_type_specification]
#[verifier::external_body]
pub struct ExSystemTimeError(SystemTimeError);

/// std's `SystemTime::now`: the current time of the system clock, which the
/// library cannot predict.
#[verifier::external_body]
fn system_now() -> SystemTime {
    SystemTime::now()
}

/// std's `SystemTime::duration_since(UNIX_EPOCH)`: the time since the epoch, or an
/// error for a clock set before it. Nothing is stated of the value.
#[verifier::external_body]
fn since_epoch(t: &SystemTime) -> Result<Duration, SystemTimeError> {
    t.duration_since(UNIX_EPOCH)
}

/// std's `Duration::as_secs`: the whole seconds of the duration. Nothing is stated
/// of the value.
#[verifier::external_body]
fn duration_secs(d: &Duration) -> u64 {
    d.as_secs()
}

/// The UNIX timestamp for a clock reading: the whole seconds since the epoch
/// (taken as `i64`), or 0 for a clock set before the epoch (`None`).
pub fn unix_seconds(elapsed: Option<u64>) -> (r: i64)
    ensures
        r == match elapsed {
            Some(secs) => secs as i64,
            None => 0i64,
        },
{
    match elapsed {
        Some(secs) => secs as i64,
        None => 0,
    }
}

/// Current UNIX timestamp in seconds (0 when the clock is before the epoch). The
/// reading is the system clock's; `unix_seconds` turns it into the timestamp.
pub fn now_unix() -> i64 {
    let t = system_now();
    let elapsed = match since_epoch(&t) {
        Ok(d) => Some(duration_secs(&d)),
        Err(_) => None,
    };
    unix_seconds(elapsed)
}

/// Current local time-of-day using `offset_secs` (seconds east of UTC).
pub fn now_local(offset_secs: i32) -> (r: Hms)
    ensures
        exists|t: i64| r == hms_of(local_secs(t as int, offset_secs as int)),
{
    let t = now_unix();
    from_epoch(t, offset_secs)
}

/// Current local date + time using `offset_secs`.
pub fn now_datetime(offset_secs: i32) -> (r: DateTime)
    ensures
        exists|t: i64| datetime_of(#[trigger] local_secs(t as int, offset_secs as int), r),
{
    let t = now_unix();
    from_epoch_dt(t, offset_secs)
}

/// Convert a UNIX timestamp + offset into local time-of-day. The day position is
/// taken of the exact sum.
pub fn from_epoch(unix_secs: i64, offset_secs: i32) -> (r: Hms)
    ensures
        r == hms_of(local_secs(unix_secs as int, offset_secs as int)),
{
    let local: i128 = unix_secs as i128 + offset_secs as i128;
    let tod: i128 = match local.checked_rem_euclid(86_400) {
        Some(x) => x,
        None => 0,
    };
    Hms { h: (tod / 3_600) as u8, m: ((tod % 3_600) / 60) as u8, s: (tod % 60) as u8 }
}

/// `dt` is the local date-time of local second `t`: its date is the civil date
/// of day `t / 86400` after the epoch, with that day's weekday and time of day.
pub open spec fn datetime_of(t: int, dt: DateTime) -> bool {
    let days = t / 86400;
    &&& valid_date(dt.year as int, dt.month as int, dt.day as int)
    &&& days_from_civil(dt.year as int, dt.month as int, dt.day as int) == days
    &&& dt.dow == weekday_of(days)
    &&& (Hms { h: dt.h, m: dt.m, s: dt.s }) == hms_of(t)
}

/// Convert a UNIX timestamp + offset into a local civil date-time.
pub fn from_epoch_dt(unix_secs: i64, offset_secs: i32) -> (r: DateTime)
    ensures
        datetime_of(local_secs(unix_secs as int, offset_secs as int), r),
{
    let local: i128 = unix_secs as i128 + offset_secs as i128;
    let days: i128 = match local.checked_div_euclid(86_400) {
        Some(x) => x,
        None => 0,
    };
    let tod: i128 = match local.checked_rem_euclid(86_400) {
        Some(x) => x,
        None => 0,
    };
    proof {
        assert(-0x4000_0000_0000_0000 <= days <= 0x4000_0000_0000_0000);
    }
    let (year, month, day) = civil_from_days(days as i64);
    DateTime {
        year,
        month,
        day,
        dow: weekday_from_days(days as i64),
        h: (tod / 3_600) as u8,
        m: ((tod % 3_600) / 60) as u8,
        s: (tod % 60) as u8,
    }
}

/// The year of the era for day `doe` of a 400-year era (starting on March 1st)
/// and the bounds of its March-based year.
proof fn lemma_year_of_era(doe: int)
    requires
        0 <= doe <= 146096,
    ensures
        ({
            let yoe = (doe - doe / 1460 + doe / 36524 - doe / 146096) / 365;
            let start = 365 * yoe + yoe / 4 - yoe / 100;
            let y1 = yoe + 1;
            let leap1: int = if y1 % 4 == 0 && (y1 % 100 != 0 || y1 == 400) { 1 } else { 0 };
            &&& 0 <= yoe <= 399
            &&& start <= doe
            &&& doe <= start + 364 + leap1
        }),
{
}

/// The date of day `doe` of the 400-year era that starts on 0000-03-01, for
/// `0 <= doe <= 146096`: Howard Hinnant's decomposition into the year of the era and
/// the day of its March-based year.
proof fn lemma_era_day(doe: int, yoe: int, doy: int, mp: int, d: int, m: int, y: int)
    requires
        0 <= doe <= 146096,
        yoe == (doe - doe / 1460 + doe / 36524 - doe / 146096) / 365,
        doy == doe - (365 * yoe + yoe / 4 - yoe / 100),
        mp == (5 * doy + 2) / 153,
        d == doy - (153 * mp + 2) / 5 + 1,
        m == (if mp < 10 { mp + 3 } else { mp - 9 }),
        y == yoe + (if m <= 2 { 1int } else { 0 }),
    ensures
        0 <= yoe <= 399,
        0 <= doy <= 365,
        valid_date(y, m, d),
        days_from_civil(y, m, d) == doe - 719468,
{
    lemma_year_of_era(doe);
    let y1 = yoe + 1;
    lemma_leap_in_era(y1);
    lemma_leap_in_era(yoe);
    assert(0 <= mp <= 11);
    lemma_leaps_step(yoe);
    lemma_leaps_in_era(yoe);
    if mp < 10 {
        lemma_month_from_march(doy, mp, yoe);
        assert(days_before_month(y, m) + d - 1 == doy + 59 + if is_leap(yoe) { 1int } else { 0 });
    } else {
        lemma_month_from_march(doy, mp, yoe + 1);
        assert(days_before_month(y, m) + d - 1 == doy - 306);
    }
}

/// Stepping `x` by one steps `x / d` exactly when `x + 1` is a multiple of `d`.
proof fn lemma_div_step(x: int, d: int)
    requires
        d > 0,
    ensures
        (x + 1) / d - x / d == (if (x + 1) % d == 0 { 1int } else { 0 }),
{
    vstd::arithmetic::div_mod::lemma_fundamental_div_mod(x, d);
    let q = x / d;
    let r = x % d;
    assert(x == q * d + r && (q + 1) * d == q * d + d) by (nonlinear_arith)
        requires x == d * q + r;
    if r == d - 1 {
        vstd::arithmetic::div_mod::lemma_fundamental_div_mod_converse(x + 1, d, q + 1, 0);
    } else {
        vstd::arithmetic::div_mod::lemma_fundamental_div_mod_converse(x + 1, d, q, r + 1);
    }
}

/// `y` and `y + d` leave the same remainder.
proof fn lemma_mod_shift(y: int, d: int)
    requires
        d > 0,
    ensures
        (y + d) % d == y % d,
{
    vstd::arithmetic::div_mod::lemma_fundamental_div_mod(y, d);
    let q = y / d;
    assert(y + d == (q + 1) * d + y % d) by (nonlinear_arith)
        requires y == d * q + y % d;
    vstd::arithmetic::div_mod::lemma_fundamental_div_mod_converse(y + d, d, q + 1, y % d);
}

/// A multiple of `a * b` is a multiple of `b`.
proof fn lemma_multiple_of_factor(y: int, a: int, b: int)
    requires
        a > 0,
        b > 0,
        y % (a * b) == 0,
    ensures
        y % b == 0,
{
    assert(a * b > 0) by (nonlinear_arith)
        requires a > 0, b > 0;
    vstd::arithmetic::div_mod::lemma_fundamental_div_mod(y, a * b);
    let q = y / (a * b);
    assert(y == (q * a) * b) by (nonlinear_arith)
        requires y == (a * b) * q + 0;
    vstd::arithmetic::div_mod::lemma_fundamental_div_mod_converse(y, b, q * a, 0);
}

/// Each year adds its leap day to the count.
#[verifier::spinoff_prover]
proof fn lemma_leaps_step(y: int)
    ensures
        leaps_before(y + 1) == leaps_before(y) + if is_leap(y) { 1int } else { 0 },
{
    lemma_div_step(y + 3, 4);
    lemma_div_step(y + 99, 100);
    lemma_div_step(y + 399, 400);
    lemma_mod_shift(y, 4);
    lemma_mod_shift(y, 100);
    lemma_mod_shift(y, 400);
    assert(y + 3 + 1 == y + 4);
    assert(y + 99 + 1 == y + 100);
    assert(y + 399 + 1 == y + 400);
    if y % 400 == 0 {
        lemma_multiple_of_factor(y, 4, 100);
    }
    if y % 100 == 0 {
        lemma_multiple_of_factor(y, 25, 4);
    }
}

/// Leap years before year `yoe + 1` within the first era.
proof fn lemma_leaps_in_era(yoe: int)
    requires
        0 <= yoe <= 399,
    ensures
        leaps_before(yoe + 1) == 1 + yoe / 4 - yoe / 100,
        yoe >= 1 ==> leaps_before(yoe) == 1 + (yoe - 1) / 4 - (yoe - 1) / 100,
{
}

proof fn lemma_leap_in_era(y: int)
    requires
        0 <= y <= 400,
    ensures
        is_leap(y) == (y % 4 == 0 && (y % 100 != 0 || y == 0 || y == 400)),
{
}

/// Month and day within a March-based year: `doy` days after March 1 of March-year
/// `ym` (whose February lies in year `ym + 1`).
proof fn lemma_month_from_march(doy: int, mp: int, y: int)
    requires
        0 <= doy <= 365,
        mp == (5 * doy + 2) / 153,
        0 <= mp <= 11,
        y >= 0,
        mp >= 10 ==> doy <= 364 + if is_leap(y) { 1int } else { 0 },
    ensures
        ({
            let d = doy - (153 * mp + 2) / 5 + 1;
            let m = if mp < 10 { mp + 3 } else { mp - 9 };
            &&& 1 <= m <= 12
            &&& 1 <= d <= days_in_month(y, m)
            &&& (m >= 3 ==> days_before_month(y, m) + d - 1 == doy + 59 + if is_leap(y) { 1int } else { 0 })
            &&& (m <= 2 ==> days_before_month(y, m) + d - 1 == doy - 306)
        }),
{
    reveal_with_fuel(days_before_month, 13);
}

/// Days-since-epoch → `(year, month, day)` (Howard Hinnant's algorithm).
pub fn civil_from_days(z: i64) -> (r: (i64, u32, u32))
    requires
        z <= i64::MAX - 719_468,
    ensures
        valid_date(r.0 as int, r.1 as int, r.2 as int),
        days_from_civil(r.0 as int, r.1 as int, r.2 as int) == z,
{
    let ghost z0 = z;
    let z = z + 719_468;
    let era: i64 = if z >= 0 { z / 146_097 } else { -((146_096 - z) / 146_097) };
    proof {
        lemma_era_index(z as int);
    }
    let doe = z - era * 146_097; // [0, 146096]
    let yoe = (doe - doe / 1_460 + doe / 36_524 - doe / 146_096) / 365; // [0, 399]
    proof {
        lemma_year_of_era(doe as int);
    }
    let y = yoe + era * 400;
    let doy = doe - (365 * yoe + yoe / 4 - yoe / 100); // [0, 365]
    let mp = (5 * doy + 2) / 153; // [0, 11]
    let d = (doy - (153 * mp + 2) / 5 + 1) as u32; // [1, 31]
    let m = if mp < 10 { mp + 3 } else { mp - 9 } as u32; // [1, 12]
    let year = y + if m <= 2 { 1 } else { 0 };
    proof {
        let ym = yoe + if m <= 2 { 1int } else { 0 };
        lemma_era_day(doe as int, yoe as int, doy as int, mp as int, d as int, m as int, ym);
        lemma_era_shift(ym, m as int, d as int, era as int);
        assert(year == ym + 400 * era);
    }
    (year, m, d)
}

/// The era of day `z` (days since 0000-03-01), as the truncating division in
/// `civil_from_days` computes it, is the floor of `z / 146097`.
proof fn lemma_era_index(z: int)
    ensures
        (if z >= 0 { z / 146097 } else { -((146096 - z) / 146097) }) == z / 146097,
        0 <= z - (z / 146097) * 146097 <= 146096,
{
    vstd::arithmetic::div_mod::lemma_fundamental_div_mod(z, 146097);
    if z < 0 {
        let q = (146096 - z) / 146097;
        vstd::arithmetic::div_mod::lemma_fundamental_div_mod(146096 - z, 146097);
        let r = (146096 - z) % 146097;
        assert(z == (-q) * 146097 + (146096 - r));
        vstd::arithmetic::div_mod::lemma_fundamental_div_mod_converse(z, 146097, -q, 146096 - r);
    }
}

/// Moving a date by 400 years moves it by 146097 days and keeps it valid.
proof fn lemma_era_shift(y: int, m: int, d: int, k: int)
    ensures
        days_from_civil(y + 400 * k, m, d) == days_from_civil(y, m, d) + 146097 * k,
        valid_date(y + 400 * k, m, d) == valid_date(y, m, d),
{
    let y2 = y + 400 * k;
    vstd::arithmetic::div_mod::lemma_fundamental_div_mod(y + 3, 4);
    vstd::arithmetic::div_mod::lemma_fundamental_div_mod_converse(y2 + 3, 4, (y + 3) / 4 + 100 * k, (y + 3) % 4);
    vstd::arithmetic::div_mod::lemma_fundamental_div_mod(y + 99, 100);
    vstd::arithmetic::div_mod::lemma_fundamental_div_mod_converse(y2 + 99, 100, (y + 99) / 100 + 4 * k, (y + 99) % 100);
    vstd::arithmetic::div_mod::lemma_fundamental_div_mod(y + 399, 400);
    vstd::arithmetic::div_mod::lemma_fundamental_div_mod_converse(y2 + 399, 400, (y + 399) / 400 + k, (y + 399) % 400);
    vstd::arithmetic::div_mod::lemma_fundamental_div_mod(y, 4);
    vstd::arithmetic::div_mod::lemma_fundamental_div_mod_converse(y2, 4, y / 4 + 100 * k, y % 4);
    vstd::arithmetic::div_mod::lemma_fundamental_div_mod(y, 100);
    vstd::arithmetic::div_mod::lemma_fundamental_div_mod_converse(y2, 100, y / 100 + 4 * k, y % 100);
    vstd::arithmetic::div_mod::lemma_fundamental_div_mod(y, 400);
    vstd::arithmetic::div_mod::lemma_fundamental_div_mod_converse(y2, 400, y / 400 + k, y % 400);
    assert(is_leap(y2) == is_leap(y));
    lemma_dbm_same(y, y2, m);
}

proof fn lemma_dbm_same(y: int, y2: int, m: int)
    requires
        is_leap(y) == is_leap(y2),
    ensures
        days_before_month(y, m) == days_before_month(y2, m),
        days_in_month(y, m) == days_in_month(y2, m),
    decreases m,
{
    if m > 1 {
        lemma_dbm_same(y, y2, m - 1);
    }
}

/// Days-since-epoch → weekday, 0=Sunday .. 6=Saturday. 1970-01-01 was Thursday.
pub fn weekday_from_days(z: i64) -> (r: u32)
    ensures
        r == weekday_of(z as int),
{
    let w = match z.checked_rem_euclid(7) {
        Some(x) => x,
        None => 0,
    };
    ((w + 4) % 7) as u32
}

/// Short English weekday name for a `dow` (0=Sun .. 6=Sat), taken modulo 7.
pub open spec fn weekday_name_spec(dow: int) -> Seq<char> {
    let i = dow % 7;
    if i == 0 {
        "Sun"@
    } else if i == 1 {
        "Mon"@
    } else if i == 2 {
        "Tue"@
    } else if i == 3 {
        "Wed"@
    } else if i == 4 {
        "Thu"@
    } else if i == 5 {
        "Fri"@
    } else {
        "Sat"@
    }
}

/// Short English weekday name for a `dow` (0=Sun .. 6=Sat).
pub fn weekday_name(dow: u32) -> (r: &'static str)
    ensures
        r@ == weekday_name_spec(dow as int),
{
    let i = dow % 7;
    if i == 0 {
        "Sun"
    } else if i == 1 {
        "Mon"
    } else if i == 2 {
        "Tue"
    } else if i == 3 {
        "Wed"
    } else if i == 4 {
        "Thu"
    } else if i == 5 {
        "Fri"
    } else {
        "Sat"
    }
}

pub open spec fn is_digit_byte(b: u8) -> bool {
    48 <= b <= 57
}

/// Two ASCII digits read as a decimal number.
pub open spec fn two_digits(b0: u8, b1: u8) -> Option<int> {
    if is_digit_byte(b0) && is_digit_byte(b1) {
        Some((b0 - 48) * 10 + (b1 - 48))
    } else {
        None
    }
}

/// A `±HHMM` numeric timezone offset, in seconds, read from the UTF-8 bytes of the
/// text: a sign byte, then four ASCII digits for hours and minutes. What follows
/// the fifth byte is not read.
pub open spec fn offset_spec(b: Seq<u8>) -> Option<int> {
    if b.len() < 5 || !(b[0] == 43 || b[0] == 45) {
        None
    } else {
        let sign: int = if b[0] == 43 { 1 } else { -1 };
        match (two_digits(b[1], b[2]), two_digits(b[3], b[4])) {
            (Some(hh), Some(mm)) => Some(sign * (hh * 3600 + mm * 60)),
            _ => None,
        }
    }
}

fn two_digits_exec(b0: u8, b1: u8) -> (r: Option<i32>)
    ensures
        r == (match two_digits(b0, b1) {
            Some(v) => Some(v as i32),
            None => None::<i32>,
        }),
        r matches Some(v) ==> 0 <= v <= 99,
{
    if 48 <= b0 && b0 <= 57 && 48 <= b1 && b1 <= 57 {
        Some(((b0 - 48) as i32) * 10 + (b1 - 48) as i32)
    } else {
        None
    }
}

/// Parse a `±HHMM` numeric timezone offset into seconds.
pub fn parse_offset(s: &str) -> (r: Option<i32>)
    ensures
        r == (match offset_spec(s.spec_bytes()) {
            Some(v) => Some(v as i32),
            None => None::<i32>,
        }),
{
    let bytes = s.as_bytes();
    if bytes.len() < 5 {
        return None;
    }
    let sign: i32 = if bytes[0] == 43 {
        1
    } else if bytes[0] == 45 {
        -1
    } else {
        return None;
    };
    let hh = match two_digits_exec(bytes[1], bytes[2]) {
        Some(v) => v,
        None => { return None; },
    };
    let mm = match two_digits_exec(bytes[3], bytes[4]) {
        Some(v) => v,
        None => { return None; },
    };
    Some(sign * (hh * 3_600 + mm * 60))
}

/// Two-digit, zero-padded decimal form of `n` (`{n:02}`).
pub open spec fn pad2(n: nat) -> Seq<char> {
    if n < 10 {
        seq!['0'] + dec(n)
    } else {
        dec(n)
    }
}

/// The hour shown: as is for a 24-hour clock, else 12, 1, ..., 11.
pub open spec fn shown_hour(h: int, hour24: bool) -> int {
    if hour24 {
        h
    } else if h % 12 == 0 {
        12
    } else {
        h % 12
    }
}

/// The clock text `HH:MM:SS` of `t`.
pub open spec fn display_spec(t: Hms, hour24: bool) -> Seq<char> {
    pad2(shown_hour(t.h as int, hour24) as nat) + seq![':'] + pad2(t.m as nat) + seq![':'] + pad2(t.s as nat)
}

fn push_pad2(s: &mut String, n: u8)
    ensures
        final(s)@ == old(s)@ + pad2(n as nat),
{
    if n < 10 {
        push_char(s, '0');
        push_dec(s, n as u64);
        assert(final(s)@ =~= old(s)@ + (seq!['0'] + dec(n as nat)));
    } else {
        push_dec(s, n as u64);
    }
}

/// Format a time into the clock's `HH:MM:SS` display string. The colon is
/// steady (no blink); `hour24` selects 24- vs 12-hour hours.
pub fn format_display(t: Hms, hour24: bool) -> (r: String)
    ensures
        r@ == display_spec(t, hour24),
{
    let h = if hour24 {
        t.h
    } else {
        let h = t.h % 12;
        if h == 0 {
            12
        } else {
            h
        }
    };
    let mut r = String::new();
    push_pad2(&mut r, h);
    push_char(&mut r, ':');
    push_pad2(&mut r, t.m);
    push_char(&mut r, ':');
    push_pad2(&mut r, t.s);
    assert(r@ =~= display_spec(t, hour24));
    r
}

/// An offset is a sign byte (`+` or `-`) and four ASCII digits `HHMM`; it is worth
/// `HH` hours and `MM` minutes, negated for `-`. Any other start of the text gives no
/// offset.
pub proof fn law_offset_digits(b: Seq<u8>)
    ensures
        (b.len() >= 5 && (b[0] == 43 || b[0] == 45)
            && 48 <= b[1] <= 57 && 48 <= b[2] <= 57 && 48 <= b[3] <= 57 && 48 <= b[4] <= 57)
            ==> offset_spec(b) == Some((if b[0] == 45 { -1int } else { 1int })
                * ((10 * (b[1] - 48) + (b[2] - 48)) * 3600 + (10 * (b[3] - 48) + (b[4] - 48)) * 60)),
        !(b.len() >= 5 && (b[0] == 43 || b[0] == 45)
            && 48 <= b[1] <= 57 && 48 <= b[2] <= 57 && 48 <= b[3] <= 57 && 48 <= b[4] <= 57)
            ==> offset_spec(b) is None,
{
}

/// The time of day of a local second: hours, minutes and seconds in their ranges
/// that add back up to the second's place in its day.
pub proof fn law_time_of_day(t: int)
    ensures
        hms_of(t).h < 24 && hms_of(t).m < 60 && hms_of(t).s < 60,
        hms_of(t).h * 3600 + hms_of(t).m * 60 + hms_of(t).s == t % 86400,
{
    let tod = t % 86400;
    assert(0 <= tod < 86400);
    assert(tod / 3600 < 24);
    assert((tod % 3600) / 60 < 60);
    assert(tod == (tod / 3600) * 3600 + (tod % 3600) / 60 * 60 + tod % 60) by {
        vstd::arithmetic::div_mod::lemma_fundamental_div_mod(tod, 3600);
        vstd::arithmetic::div_mod::lemma_fundamental_div_mod(tod % 3600, 60);
        vstd::arithmetic::div_mod::lemma_mod_mod(tod, 3600, 60);
    }
}

/// In 12-hour form the shown hour runs from 1 to 12; midnight and noon show 12.
pub proof fn law_twelve_hour_range(h: int)
    requires
        0 <= h,
    ensures
        1 <= shown_hour(h, false) <= 12,
        h % 12 == 0 ==> shown_hour(h, false) == 12,
{
}

/// The weekday advances by one each day, wrapping from Saturday to Sunday; the
/// epoch day is a Thursday.
#[verifier::spinoff_prover]
pub proof fn law_weekday_steps(z: int)
    ensures
        weekday_of(z + 1) == (weekday_of(z) + 1) % 7,
        weekday_of(0) == 4,
        0 <= weekday_of(z) < 7,
{
    vstd::arithmetic::div_mod::lemma_fundamental_div_mod(z + 4, 7);
    let q = (z + 4) / 7;
    let r = (z + 4) % 7;
    assert(z + 4 == q * 7 + r) by (nonlinear_arith)
        requires z + 4 == 7 * q + r;
    if r == 6 {
        assert(z + 5 == (q + 1) * 7 + 0) by (nonlinear_arith)
            requires z + 4 == q * 7 + r, r == 6;
        vstd::arithmetic::div_mod::lemma_fundamental_div_mod_converse(z + 5, 7, q + 1, 0);
        vstd::arithmetic::div_mod::lemma_fundamental_div_mod_converse(r + 1, 7, 1, 0);
    } else {
        vstd::arithmetic::div_mod::lemma_fundamental_div_mod_converse(z + 5, 7, q, r + 1);
        vstd::arithmetic::div_mod::lemma_fundamental_div_mod_converse(r + 1, 7, 0, r + 1);
    }
    vstd::arithmetic::div_mod::lemma_fundamental_div_mod_converse(4, 7, 0, 4);
}

/// The calendar is consistent: a valid date is the day before the next day in
/// the same month, and the first of a month follows the last day of the month before.
pub proof fn law_days_are_consecutive(y: int, m: int, d: int)
    requires
        valid_date(y, m, d),
    ensures
        d < days_in_month(y, m) ==> days_from_civil(y, m, d + 1) == days_from_civil(y, m, d) + 1,
        d == days_in_month(y, m) && m < 12 ==> days_from_civil(y, m + 1, 1) == days_from_civil(y, m, d) + 1,
        d == 31 && m == 12 ==> days_from_civil(y + 1, 1, 1) == days_from_civil(y, m, d) + 1,
{
    lemma_leaps_step(y);
    reveal_with_fuel(days_before_month, 13);
}

/// The day of year of a valid date lies within its year.
proof fn lemma_day_of_year(y: int, m: int, d: int)
    requires
        valid_date(y, m, d),
    ensures
        0 <= days_before_month(y, m) + d - 1 < 365 + if is_leap(y) { 1int } else { 0 },
{
    reveal_with_fuel(days_before_month, 13);
}

/// The months before a later month cover the earlier month whole.
proof fn lemma_months_apart(y: int, m1: int, m2: int)
    requires
        1 <= m1 < m2,
    ensures
        days_before_month(y, m2) >= days_before_month(y, m1) + days_in_month(y, m1),
    decreases m2 - m1,
{
    if m2 - 1 > m1 {
        lemma_months_apart(y, m1, m2 - 1);
    }
}

/// Whole years before a later year count at least as many days.
proof fn lemma_years_grow(a: int, b: int)
    requires
        a <= b,
    ensures
        365 * a + leaps_before(a) <= 365 * b + leaps_before(b),
    decreases b - a,
{
    if a < b {
        lemma_leaps_step(b - 1);
        lemma_years_grow(a, b - 1);
    }
}

/// An earlier year's dates all come before a later year's.
proof fn lemma_years_apart(y1: int, m1: int, d1: int, y2: int, m2: int, d2: int)
    requires
        valid_date(y1, m1, d1),
        valid_date(y2, m2, d2),
        y1 < y2,
    ensures
        days_from_civil(y1, m1, d1) < days_from_civil(y2, m2, d2),
{
    lemma_day_of_year(y1, m1, d1);
    lemma_day_of_year(y2, m2, d2);
    lemma_leaps_step(y1);
    lemma_years_grow(y1 + 1, y2);
}

/// Each day has one date: two valid dates with the same day count are the same date.
pub proof fn law_day_count_unique(y1: int, m1: int, d1: int, y2: int, m2: int, d2: int)
    requires
        valid_date(y1, m1, d1),
        valid_date(y2, m2, d2),
        days_from_civil(y1, m1, d1) == days_from_civil(y2, m2, d2),
    ensures
        y1 == y2 && m1 == m2 && d1 == d2,
{
    if y1 < y2 {
        lemma_years_apart(y1, m1, d1, y2, m2, d2);
    } else if y2 < y1 {
        lemma_years_apart(y2, m2, d2, y1, m1, d1);
    } else if m1 < m2 {
        lemma_months_apart(y1, m1, m2);
    } else if m2 < m1 {
        lemma_months_apart(y1, m2, m1);
    }
}

/// The date of the next day count is the next calendar day: the next day of the
/// month, else the first of the next month, else New Year's Day.
pub proof fn law_next_day(y: int, m: int, d: int, y2: int, m2: int, d2: int)
    requires
        valid_date(y, m, d),
        valid_date(y2, m2, d2),
        days_from_civil(y2, m2, d2) == days_from_civil(y, m, d) + 1,
    ensures
        if d < days_in_month(y, m) {
            y2 == y && m2 == m && d2 == d + 1
        } else if m < 12 {
            y2 == y && m2 == m + 1 && d2 == 1
        } else {
            y2 == y + 1 && m2 == 1 && d2 == 1
        },
{
    law_days_are_consecutive(y, m, d);
    if d < days_in_month(y, m) {
        law_day_count_unique(y, m, d + 1, y2, m2, d2);
    } else if m < 12 {
        law_day_count_unique(y, m + 1, 1, y2, m2, d2);
    } else {
        law_day_count_unique(y + 1, 1, 1, y2, m2, d2);
    }
}

} // verus!
