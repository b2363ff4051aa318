//! Crontab-style reminders.
//!
//! Each reminder is one line, either a classic 5-field cron expression or a
//! convenience form (`@minutely`, `@hourly`, `@daily`, `@midnight`,
//! `@every <duration>`), followed by the message text. Blank lines and lines
//! starting with `#` are skipped.
use vstd::prelude::*;
use crate::clock::DateTime;
use crate::cron::{
    Cron, CronParse, CronSpec, FieldSet, cron_denotes, cron_spec, keyword_denotes, law_parsed_stars,
    stars_hold_all,
};
use crate::text::{
    all_digits, digits_value, chars_of, debug_char, debug_char_spec, debug_str, debug_str_spec, dec,
    find_ws, find_ws_exec, is_digit, lemma_find_ws, lemma_rskip_ws, lemma_skip_ws,
    parse_digits_i64, parse_digits_i64_spec, push_dec, range_eq, rskip_ws, rskip_ws_exec,
    skip_ws, skip_ws_exec, string_of, trim, trim_string, lemma_trim_idempotent, is_ws, lemma_find_ws_at,
};

verus! {

/// When a reminder fires.
#[derive(Clone, Copy, Debug, PartialEq, Eq)]
pub enum Schedule {
    Cron(Cron),
    Every { period_secs: i64 },
}

/// A schedule paired with the message to show when it fires.
#[derive(Clone, Debug)]
pub struct Reminder {
    pub schedule: Schedule,
    pub message: String,
    /// The reminder's line as written (trimmed), for listing.
    pub source: String,
}

/// Seconds per duration unit.
pub open spec fn unit_secs(c: char) -> Option<int> {
    if c == 's' {
        Some(1)
    } else if c == 'm' {
        Some(60)
    } else if c == 'h' {
        Some(3600)
    } else if c == 'd' {
        Some(86400)
    } else {
        None
    }
}

/// What a duration text denotes.
pub enum DurSpec {
    Secs(int),
    Fail(Seq<char>),
    /// The running total leaves `i64`.
    Overflow,
}

/// The end of reading a duration with running `total`.
pub open spec fn dur_finish(whole: Seq<char>, total: int) -> DurSpec {
    if total <= 0 {
        DurSpec::Fail("non-positive duration "@ + debug_str_spec(whole))
    } else {
        DurSpec::Secs(total)
    }
}

/// Reads the duration `s[lo..hi]` from position `i`, with `total` seconds so far and
/// the current run of digits starting at `ns`. Each run of digits followed by a unit
/// adds its value times the unit; a final bare run adds plain seconds.
pub open spec fn dur_fold(s: Seq<char>, lo: int, hi: int, i: int, total: int, ns: int) -> DurSpec
    decreases hi - i,
{
    let whole = s.subrange(lo, hi);
    if i >= hi {
        if ns < i {
            match parse_digits_i64_spec(s.subrange(ns, i)) {
                None => DurSpec::Fail("bad duration "@ + debug_str_spec(whole)),
                Some(n) => if total + n > i64::MAX {
                    DurSpec::Overflow
                } else {
                    dur_finish(whole, total + n)
                },
            }
        } else {
            dur_finish(whole, total)
        }
    } else if is_digit(s[i]) {
        dur_fold(s, lo, hi, i + 1, total, ns)
    } else {
        match parse_digits_i64_spec(s.subrange(ns, i)) {
            None => DurSpec::Fail("bad duration "@ + debug_str_spec(whole)),
            Some(n) => match unit_secs(s[i]) {
                None => DurSpec::Fail("bad unit "@ + debug_char_spec(s[i]) + " in "@ + debug_str_spec(whole)),
                Some(k) => if total + n * k > i64::MAX {
                    DurSpec::Overflow
                } else {
                    dur_fold(s, lo, hi, i + 1, total + n * k, i + 1)
                },
            },
        }
    }
}

/// The duration `s[lo..hi]`, such as `90s`, `30m`, `1h30m`, `2d` or a bare number
/// of seconds.
pub open spec fn dur_spec(s: Seq<char>, lo: int, hi: int) -> DurSpec {
    if lo >= hi {
        DurSpec::Fail("empty duration"@)
    } else {
        dur_fold(s, lo, hi, lo, 0, lo)
    }
}

/// Outcome of parsing a duration.
pub enum DurParse {
    Secs(i64),
    Fail(String),
    Overflow,
}

fn dur_message(prefix: &str, v: &Vec<char>, lo: usize, hi: usize) -> (r: String)
    requires
        lo <= hi <= v.len(),
    ensures
        r@ == prefix@ + debug_str_spec(v@.subrange(lo as int, hi as int)),
{
    let mut r = String::from_str(prefix);
    let whole = string_of(v, lo, hi);
    let d = debug_str(whole.as_str());
    r.append(d.as_str());
    r
}

/// Parses the duration `v[lo..hi]`.
pub fn duration_range(v: &Vec<char>, lo: usize, hi: usize) -> (r: DurParse)
    requires
        lo <= hi <= v.len(),
    ensures
        match dur_spec(v@, lo as int, hi as int) {
            DurSpec::Secs(t) => r matches DurParse::Secs(x) && x == t,
            DurSpec::Fail(m) => r matches DurParse::Fail(e) && e@ == m,
            DurSpec::Overflow => r is Overflow,
        },
        r matches DurParse::Secs(x) ==> x > 0,
{
    if lo >= hi {
        return DurParse::Fail(String::from_str("empty duration"));
    }
    let ghost s = v@;
    let mut total: i64 = 0;
    let mut ns = lo;
    let mut i = lo;
    while i < hi
        invariant
            lo <= ns <= i <= hi <= v.len(),
            s == v@,
            0 <= total,
            all_digits(s.subrange(ns as int, i as int)),
            dur_spec(s, lo as int, hi as int) == dur_fold(s, lo as int, hi as int, i as int, total as int, ns as int),
        decreases hi - i,
    {
        let c = v[i];
        if '0' <= c && c <= '9' {
            assert(s.subrange(ns as int, i + 1) == s.subrange(ns as int, i as int).push(c));
            i = i + 1;
        } else {
            let n = match parse_digits_i64(v, ns, i) {
                Some(n) => n,
                None => {
                    return DurParse::Fail(dur_message("bad duration ", v, lo, hi));
                },
            };
            let k: i64 = if c == 's' {
                1
            } else if c == 'm' {
                60
            } else if c == 'h' {
                3600
            } else if c == 'd' {
                86400
            } else {
                let mut e = String::from_str("bad unit ");
                let dc = debug_char(c);
                e.append(dc.as_str());
                e.append(" in ");
                let whole = string_of(v, lo, hi);
                let dw = debug_str(whole.as_str());
                e.append(dw.as_str());
                return DurParse::Fail(e);
            };
            proof {
                assert(n >= 0);
                assert(n as int * k as int <= 0x7fff_ffff_ffff_ffffi128 as int * 86400) by (nonlinear_arith)
                    requires 0 <= n <= 0x7fff_ffff_ffff_ffff, 0 < k <= 86400;
                assert(n as int * k as int >= 0) by (nonlinear_arith)
                    requires 0 <= n, 0 < k;
            }
            let add: i128 = n as i128 * k as i128;
            if total as i128 + add > 0x7fff_ffff_ffff_ffffi128 {
                return DurParse::Overflow;
            }
            total = total + add as i64;
            i = i + 1;
            ns = i;
            assert(s.subrange(ns as int, i as int) =~= Seq::<char>::empty());
        }
    }
    if ns < hi {
        match parse_digits_i64(v, ns, hi) {
            Some(n) => {
                if total as i128 + n as i128 > 0x7fff_ffff_ffff_ffffi128 {
                    return DurParse::Overflow;
                }
                total = total + n;
            },
            None => {
                return DurParse::Fail(dur_message("bad duration ", v, lo, hi));
            },
        }
    }
    if total <= 0 {
        return DurParse::Fail(dur_message("non-positive duration ", v, lo, hi));
    }
    DurParse::Secs(total)
}

/// True when reading the duration `s` would overflow the running total.
pub open spec fn duration_overflows(s: Seq<char>) -> bool {
    dur_spec(s, 0, s.len() as int) is Overflow
}

/// Parse a duration like `90s`, `30m`, `1h`, `1h30m` into seconds.
pub fn parse_duration(s: &str) -> (r: Result<i64, String>)
    requires
        !duration_overflows(s@),
    ensures
        match dur_spec(s@, 0, s@.len() as int) {
            DurSpec::Secs(t) => r == Ok::<i64, String>(t as i64),
            DurSpec::Fail(m) => r matches Err(e) && e@ == m,
            DurSpec::Overflow => false,
        },
{
    let v = chars_of(s);
    match duration_range(&v, 0, v.len()) {
        DurParse::Secs(t) => Ok(t),
        DurParse::Fail(e) => Err(e),
        DurParse::Overflow => Err(String::new()),
    }
}

/// `trim` of `s[lo..hi]`, as positions.
pub open spec fn trim_range(s: Seq<char>, lo: int, hi: int) -> (int, int) {
    let a = skip_ws(s, lo, hi);
    (a, rskip_ws(s, a, hi))
}

/// `s[lo..hi].trim()`.
pub open spec fn trimmed(s: Seq<char>, lo: int, hi: int) -> Seq<char> {
    s.subrange(trim_range(s, lo, hi).0, trim_range(s, lo, hi).1)
}

/// The first `k` whitespace-separated words of `s[i..hi]`, as positions.
pub open spec fn words(s: Seq<char>, i: int, hi: int, k: nat) -> Seq<(int, int)>
    decreases k,
{
    if k == 0 {
        seq![]
    } else {
        let w0 = skip_ws(s, i, hi);
        if w0 >= hi {
            seq![]
        } else {
            let w1 = find_ws(s, w0, hi);
            seq![(w0, w1)] + words(s, w1, hi, (k - 1) as nat)
        }
    }
}

/// What one reminder line denotes.
pub enum LineSpec {
    /// Blank or a `#` comment.
    Blank,
    /// `@every <duration> message`.
    Every(int, Seq<char>),
    /// `@minutely` (0), `@hourly` (1), `@daily`/`@midnight` (2), with the message.
    Keyword(int, Seq<char>),
    /// Five cron fields (positions in the line), with the message.
    Cron(Seq<(int, int)>, Seq<char>),
    Fail(Seq<char>),
    /// A duration that overflows `i64` while it is read.
    Overflow,
}

/// The meaning of a reminder line: that of the line with surrounding whitespace
/// trimmed.
pub open spec fn line_spec(line: Seq<char>) -> LineSpec {
    line_body(trim(line))
}

/// The meaning of a trimmed reminder line `s`. A cron line is five
/// whitespace-separated fields; its message is the rest of the line after the fifth
/// field, trimmed. Positions in the result are positions in `s`.
pub open spec fn line_body(s: Seq<char>) -> LineSpec {
    let n = s.len() as int;
    let a = trim_range(s, 0, n).0;
    let b = trim_range(s, 0, n).1;
    if a == b || s[a] == '#' {
        LineSpec::Blank
    } else if s[a] == '@' {
        let e = find_ws(s, a + 1, b);
        let kw = s.subrange(a + 1, e);
        let ra = if e < b { trim_range(s, e + 1, b).0 } else { b };
        let rb = if e < b { trim_range(s, e + 1, b).1 } else { b };
        if kw == "every"@ {
            let de = find_ws(s, ra, rb);
            let msg = if de < rb { trimmed(s, de + 1, rb) } else { seq![] };
            match dur_spec(s, ra, de) {
                DurSpec::Secs(t) => LineSpec::Every(t, msg),
                DurSpec::Fail(m) => LineSpec::Fail(m),
                DurSpec::Overflow => LineSpec::Overflow,
            }
        } else if kw == "minutely"@ {
            LineSpec::Keyword(0, s.subrange(ra, rb))
        } else if kw == "hourly"@ {
            LineSpec::Keyword(1, s.subrange(ra, rb))
        } else if kw == "daily"@ || kw == "midnight"@ {
            LineSpec::Keyword(2, s.subrange(ra, rb))
        } else {
            LineSpec::Fail("unknown @keyword: @"@ + kw)
        }
    } else {
        let f = words(s, a, b, 5);
        match cron_spec(s, f) {
            CronSpec::Valid => LineSpec::Cron(f, trimmed(s, f[4].1, b)),
            CronSpec::Fail(m) => LineSpec::Fail(m),
        }
    }
}

/// `r` has the schedule and message that `sp`, the meaning of the trimmed line `t`,
/// gives.
pub open spec fn denotes(r: Reminder, t: Seq<char>, sp: LineSpec) -> bool {
    match sp {
        LineSpec::Every(p, msg) => r.schedule == Schedule::Every { period_secs: p as i64 }
            && r.message@ == msg,
        LineSpec::Keyword(w, msg) => r.schedule matches Schedule::Cron(c) && keyword_denotes(c, w)
            && r.message@ == msg,
        LineSpec::Cron(f, msg) => r.schedule matches Schedule::Cron(c) && cron_denotes(c, t, f)
            && r.message@ == msg,
        _ => false,
    }
}

/// `r` is the reminder that the line `line` describes: its source is the trimmed
/// line, and its schedule and message are what the line says.
pub open spec fn describes(r: Reminder, line: Seq<char>) -> bool {
    &&& r.source@ == trim(line)
    &&& denotes(r, trim(line), line_spec(line))
}

/// Blanks around a line do not change what it says: the line and its trimmed form
/// have the same meaning, and a reminder describes the one exactly when it
/// describes the other.
pub proof fn law_parse_ignores_surrounding_blanks(line: Seq<char>, r: Reminder)
    ensures
        line_spec(trim(line)) == line_spec(line),
        describes(r, trim(line)) == describes(r, line),
{
    lemma_trim_idempotent(line);
}

/// True when the line yields a reminder.
pub open spec fn yields_reminder(line: Seq<char>) -> bool {
    line_spec(line) is Every || line_spec(line) is Keyword || line_spec(line) is Cron
}

/// True when reading `line` would overflow (a huge duration).
pub open spec fn line_overflows(line: Seq<char>) -> bool {
    line_spec(line) is Overflow
}

/// A reminder is valid when an interval is positive.
pub open spec fn valid_schedule(s: Schedule) -> bool {
    s matches Schedule::Every { period_secs } ==> period_secs > 0
}

proof fn lemma_words_bounds(s: Seq<char>, i: int, hi: int, k: nat)
    requires
        0 <= i <= hi <= s.len(),
    ensures
        words(s, i, hi, k).len() <= k,
        forall|j: int| 0 <= j < words(s, i, hi, k).len() ==> i <= #[trigger] words(s, i, hi, k)[j].0
            <= words(s, i, hi, k)[j].1 <= hi,
    decreases k,
{
    if k > 0 {
        lemma_skip_ws(s, i, hi);
        let w0 = skip_ws(s, i, hi);
        if w0 < hi {
            lemma_find_ws(s, w0, hi);
            let w1 = find_ws(s, w0, hi);
            lemma_words_bounds(s, w1, hi, (k - 1) as nat);
            let rest = words(s, w1, hi, (k - 1) as nat);
            assert forall|j: int| 0 <= j < words(s, i, hi, k).len() implies i <= #[trigger] words(s, i, hi, k)[j].0
                <= words(s, i, hi, k)[j].1 <= hi by {
                if j > 0 {
                    assert(words(s, i, hi, k)[j] == rest[j - 1]);
                }
            }
        }
    }
}

fn collect_words(v: &Vec<char>, i: usize, hi: usize, k: usize) -> (r: Vec<(usize, usize)>)
    requires
        i <= hi <= v.len(),
    ensures
        r@.map_values(|p: (usize, usize)| (p.0 as int, p.1 as int)) == words(v@, i as int, hi as int, k as nat),
        forall|j: int| #![trigger r@[j]] 0 <= j < r.len() ==> r@[j].0 <= r@[j].1 && r@[j].1 <= v.len(),
    decreases k,
{
    if k == 0 {
        let r: Vec<(usize, usize)> = Vec::new();
        assert(r@.map_values(|p: (usize, usize)| (p.0 as int, p.1 as int)) =~= Seq::<(int, int)>::empty());
        return r;
    }
    proof {
        lemma_skip_ws(v@, i as int, hi as int);
    }
    let w0 = skip_ws_exec(v, i, hi);
    if w0 >= hi {
        let r: Vec<(usize, usize)> = Vec::new();
        assert(r@.map_values(|p: (usize, usize)| (p.0 as int, p.1 as int)) =~= Seq::<(int, int)>::empty());
        return r;
    }
    proof {
        lemma_find_ws(v@, w0 as int, hi as int);
    }
    let w1 = find_ws_exec(v, w0, hi);
    let rest = collect_words(v, w1, hi, k - 1);
    let mut r: Vec<(usize, usize)> = Vec::new();
    r.push((w0, w1));
    let mut j: usize = 0;
    while j < rest.len()
        invariant
            r.len() == j + 1,
            r@[0] == (w0, w1),
            w0 <= w1 <= v.len(),
            forall|t: int| 0 <= t < j ==> r@[t + 1] == rest@[t],
            forall|t: int| #![trigger rest@[t]] 0 <= t < rest.len() ==> rest@[t].0 <= rest@[t].1 && rest@[t].1 <= v.len(),
            forall|t: int| #![trigger r@[t]] 0 <= t <= j ==> r@[t].0 <= r@[t].1 && r@[t].1 <= v.len(),
            j <= rest.len(),
        decreases rest.len() - j,
    {
        r.push(rest[j]);
        j = j + 1;
    }
    assert(r@.map_values(|p: (usize, usize)| (p.0 as int, p.1 as int)) =~= seq![(w0 as int, w1 as int)]
        + rest@.map_values(|p: (usize, usize)| (p.0 as int, p.1 as int)));
    r
}

/// Outcome of reading one line.
pub enum LineParse {
    Parsed(Option<Reminder>),
    Fail(String),
    Overflow,
}

/// The trimmed string `v[lo..hi].trim()`.
fn trimmed_string(v: &Vec<char>, lo: usize, hi: usize) -> (r: String)
    requires
        lo <= hi <= v.len(),
    ensures
        r@ == trimmed(v@, lo as int, hi as int),
{
    proof {
        lemma_skip_ws(v@, lo as int, hi as int);
    }
    let a = skip_ws_exec(v, lo, hi);
    proof {
        lemma_rskip_ws(v@, a as int, hi as int);
    }
    let b = rskip_ws_exec(v, a, hi);
    string_of(v, a, b)
}

/// Reads one line.
pub fn parse_line(line: &str) -> (r: LineParse)
    ensures
        match line_spec(line@) {
            LineSpec::Blank => r matches LineParse::Parsed(None),
            LineSpec::Fail(m) => r matches LineParse::Fail(e) && e@ == m,
            LineSpec::Overflow => r is Overflow,
            _ => r matches LineParse::Parsed(Some(rem)) && describes(rem, line@) && valid_schedule(rem.schedule),
        },
{
    let t = trim_string(line);
    proof {
        lemma_trim_idempotent(line@);
    }
    parse_trimmed(t.as_str())
}

/// Reads the trimmed line `line`.
fn parse_trimmed(line: &str) -> (r: LineParse)
    ensures
        match line_body(line@) {
            LineSpec::Blank => r matches LineParse::Parsed(None),
            LineSpec::Fail(m) => r matches LineParse::Fail(e) && e@ == m,
            LineSpec::Overflow => r is Overflow,
            sp => r matches LineParse::Parsed(Some(rem)) && rem.source@ == trim(line@)
                && denotes(rem, line@, sp) && valid_schedule(rem.schedule),
        },
{
    let v = chars_of(line);
    let ghost s = v@;
    let n = v.len();
    proof {
        lemma_skip_ws(s, 0, n as int);
    }
    let a = skip_ws_exec(&v, 0, n);
    proof {
        lemma_rskip_ws(s, a as int, n as int);
    }
    let b = rskip_ws_exec(&v, a, n);
    if a == b || v[a] == '#' {
        return LineParse::Parsed(None);
    }
    let source = string_of(&v, a, b);
    assert(source@ == trim(line@));
    if v[a] == '@' {
        proof {
            lemma_find_ws(s, a + 1, b as int);
        }
        let e = find_ws_exec(&v, a + 1, b);
        let (ra, rb) = if e < b {
            proof {
                lemma_skip_ws(s, e + 1, b as int);
            }
            let ra = skip_ws_exec(&v, e + 1, b);
            proof {
                lemma_rskip_ws(s, ra as int, b as int);
            }
            (ra, rskip_ws_exec(&v, ra, b))
        } else {
            (b, b)
        };
        if range_eq(&v, a + 1, e, "every") {
            proof {
                lemma_find_ws(s, ra as int, rb as int);
            }
            let de = find_ws_exec(&v, ra, rb);
            let message = if de < rb {
                trimmed_string(&v, de + 1, rb)
            } else {
                String::new()
            };
            match duration_range(&v, ra, de) {
                DurParse::Secs(t) => {
                    return LineParse::Parsed(Some(Reminder {
                        schedule: Schedule::Every { period_secs: t },
                        message,
                        source,
                    }));
                },
                DurParse::Fail(m) => {
                    return LineParse::Fail(m);
                },
                DurParse::Overflow => {
                    return LineParse::Overflow;
                },
            }
        }
        let which: u8 = if range_eq(&v, a + 1, e, "minutely") {
            0
        } else if range_eq(&v, a + 1, e, "hourly") {
            1
        } else if range_eq(&v, a + 1, e, "daily") || range_eq(&v, a + 1, e, "midnight") {
            2
        } else {
            let mut m = String::from_str("unknown @keyword: @");
            let kw = string_of(&v, a + 1, e);
            m.append(kw.as_str());
            return LineParse::Fail(m);
        };
        let message = string_of(&v, ra, rb);
        return LineParse::Parsed(Some(Reminder {
            schedule: Schedule::Cron(Cron::keyword(which)),
            message,
            source,
        }));
    }
    let f = collect_words(&v, a, b, 5);
    proof {
        lemma_words_bounds(s, a as int, b as int, 5);
    }
    match Cron::parse_fields(&v, &f) {
        CronParse::Parsed(c) => {
            let ghost fi = f@.map_values(|p: (usize, usize)| (p.0 as int, p.1 as int));
            assert(fi.len() == 5);
            assert(fi[4] == (f@[4].0 as int, f@[4].1 as int));
            let message = trimmed_string(&v, f[4].1, b);
            LineParse::Parsed(Some(Reminder { schedule: Schedule::Cron(c), message, source }))
        },
        CronParse::Fail(m) => LineParse::Fail(m),
    }
}

impl Reminder {
    /// Parse one reminder line. Returns `Ok(None)` for blank/comment lines.
    pub fn parse(line: &str) -> (r: Result<Option<Reminder>, String>)
        requires
            !line_overflows(line@),
        ensures
            match line_spec(line@) {
                LineSpec::Blank => r matches Ok(None),
                LineSpec::Fail(m) => r matches Err(e) && e@ == m,
                LineSpec::Overflow => false,
                _ => r matches Ok(Some(rem)) && describes(rem, line@) && valid_schedule(rem.schedule),
            },
    {
        match parse_line(line) {
            LineParse::Parsed(x) => Ok(x),
            LineParse::Fail(e) => Err(e),
            LineParse::Overflow => Err(String::new()),
        }
    }

    /// True when reading `line` would overflow, which `parse` does not accept.
    pub fn overflows(line: &str) -> (r: bool)
        ensures
            r == line_overflows(line@),
    {
        match parse_line(line) {
            LineParse::Overflow => true,
            _ => false,
        }
    }
}

/// Built-in reminders used when no config file is found.
pub fn default_lines() -> (r: Vec<&'static str>)
    ensures
        r@.len() == 2,
        r@[0]@ == "0 * * * *    该喝水啦！起来动一动 (=^.^=)"@,
        r@[1]@ == "@every 45m   眨眨眼，看看远处，别盯屏幕太久"@,
{
    let mut r: Vec<&'static str> = Vec::new();
    r.push("0 * * * *    该喝水啦！起来动一动 (=^.^=)");
    r.push("@every 45m   眨眨眼，看看远处，别盯屏幕太久");
    r
}

/// The text of each line.
pub open spec fn line_views(lines: Seq<String>) -> Seq<Seq<char>> {
    lines.map_values(|l: String| l@)
}

/// Indices of the lines that yield a reminder, in order.
pub open spec fn reminder_lines(lines: Seq<Seq<char>>) -> Seq<int>
    decreases lines.len(),
{
    if lines.len() == 0 {
        seq![]
    } else {
        reminder_lines(lines.drop_last()) + if yields_reminder(lines.last()) {
            seq![lines.len() - 1]
        } else {
            seq![]
        }
    }
}

/// Each index that `reminder_lines` gives is a line that yields a reminder.
pub proof fn lemma_reminder_lines_members(lines: Seq<Seq<char>>)
    ensures
        forall|j: int| 0 <= j < reminder_lines(lines).len() ==> 0 <= #[trigger] reminder_lines(lines)[j] < lines.len()
            && yields_reminder(lines[reminder_lines(lines)[j]]),
    decreases lines.len(),
{
    if lines.len() > 0 {
        let d = lines.drop_last();
        lemma_reminder_lines_members(d);
        assert forall|j: int| 0 <= j < reminder_lines(lines).len() implies 0 <= #[trigger] reminder_lines(lines)[j] < lines.len()
            && yields_reminder(lines[reminder_lines(lines)[j]]) by {
            if j < reminder_lines(d).len() {
                assert(reminder_lines(lines)[j] == reminder_lines(d)[j]);
                assert(lines[reminder_lines(d)[j]] == d[reminder_lines(d)[j]]);
            }
        }
    }
}

/// Removing a line that yields a reminder leaves one reminder fewer.
pub proof fn lemma_reminder_lines_remove(lines: Seq<Seq<char>>, k: int)
    requires
        0 <= k < lines.len(),
        yields_reminder(lines[k]),
    ensures
        reminder_lines(lines.remove(k)).len() + 1 == reminder_lines(lines).len(),
    decreases lines.len(),
{
    let d = lines.drop_last();
    if k == lines.len() - 1 {
        assert(lines.remove(k) =~= d);
    } else {
        let r = lines.remove(k);
        assert(r.drop_last() =~= d.remove(k));
        assert(r.last() == lines.last());
        lemma_reminder_lines_remove(d, k);
    }
}

/// Indices of the lines that fail to parse, in order.
pub open spec fn failed_lines(lines: Seq<Seq<char>>) -> Seq<int>
    decreases lines.len(),
{
    if lines.len() == 0 {
        seq![]
    } else {
        failed_lines(lines.drop_last()) + if line_spec(lines.last()) is Fail {
            seq![lines.len() - 1]
        } else {
            seq![]
        }
    }
}

/// The report for a failing line `i` (numbered from 1).
pub open spec fn line_error(lines: Seq<Seq<char>>, i: int) -> Seq<char> {
    "line "@ + dec((i + 1) as nat) + ": "@ + line_spec(lines[i])->Fail_0
}

/// Parse many lines, collecting per-line errors (with 1-based line numbers).
pub fn parse_all(lines: &[String]) -> (r: (Vec<Reminder>, Vec<String>))
    requires
        forall|i: int| 0 <= i < lines@.len() ==> !line_overflows(#[trigger] lines@[i]@),
    ensures
        r.0@.len() == reminder_lines(line_views(lines@)).len(),
        forall|j: int| 0 <= j < r.0@.len() ==> describes(#[trigger] r.0@[j], line_views(lines@)[reminder_lines(line_views(lines@))[j]]),
        r.1@.len() == failed_lines(line_views(lines@)).len(),
        forall|j: int| 0 <= j < r.1@.len() ==> (#[trigger] r.1@[j])@ == line_error(line_views(lines@), failed_lines(line_views(lines@))[j]),
{
    let ghost all = line_views(lines@);
    let mut out: Vec<Reminder> = Vec::new();
    let mut errs: Vec<String> = Vec::new();
    let mut i: usize = 0;
    while i < lines.len()
        invariant
            i <= lines@.len(),
            all == line_views(lines@),
            forall|k: int| 0 <= k < lines@.len() ==> !line_overflows(#[trigger] lines@[k]@),
            out@.len() == reminder_lines(all.take(i as int)).len(),
            forall|j: int| 0 <= j < out@.len() ==> describes(#[trigger] out@[j], all[reminder_lines(all.take(i as int))[j]]),
            errs@.len() == failed_lines(all.take(i as int)).len(),
            forall|j: int| 0 <= j < errs@.len() ==> (#[trigger] errs@[j])@ == line_error(all, failed_lines(all.take(i as int))[j]),
            forall|j: int| 0 <= j < reminder_lines(all.take(i as int)).len() ==> 0 <= #[trigger] reminder_lines(all.take(i as int))[j] < i,
            forall|j: int| 0 <= j < failed_lines(all.take(i as int)).len() ==> 0 <= #[trigger] failed_lines(all.take(i as int))[j] < i,
        decreases lines.len() - i,
    {
        let ghost pre = all.take(i as int);
        let ghost next = all.take(i + 1);
        assert(next.drop_last() =~= pre);
        assert(next.last() == lines@[i as int]@);
        let ghost rl = reminder_lines(pre);
        let ghost fl = failed_lines(pre);
        let ghost out0 = out@;
        match parse_line(lines[i].as_str()) {
            LineParse::Parsed(Some(rem)) => {
                out.push(rem);
                assert(out@ == out0.push(rem));
                assert(reminder_lines(next) == rl.push(i as int));
                assert(failed_lines(next) =~= fl);
            },
            LineParse::Parsed(None) => {
                assert(reminder_lines(next) =~= rl);
                assert(failed_lines(next) =~= fl);
            },
            LineParse::Fail(e) => {
                let mut m = String::from_str("line ");
                push_dec(&mut m, (i + 1) as u64);
                m.append(": ");
                m.append(e.as_str());
                errs.push(m);
                assert(reminder_lines(next) =~= rl);
                assert(failed_lines(next) == fl.push(i as int));
            },
            LineParse::Overflow => {
                assert(false);
            },
        }
        i = i + 1;
    }
    assert(all.take(lines@.len() as int) =~= all);
    (out, errs)
}

/// `now.div_euclid(60)`: the minute stamp of a unix time.
pub fn minute_stamp(now: i64) -> (r: i64)
    ensures
        r == now as int / 60,
{
    if now >= 0 {
        now / 60
    } else {
        let m: i64 = -(now + 1);
        let t = m / 60;
        proof {
            vstd::arithmetic::div_mod::lemma_fundamental_div_mod(m as int, 60);
            let rr = m as int % 60;
            assert(now as int == (-t - 1) * 60 + (59 - rr));
            vstd::arithmetic::div_mod::lemma_fundamental_div_mod_converse(now as int, 60, -t - 1, 59 - rr);
        }
        -t - 1
    }
}

/// Tracks which reminders are due, so each fires once per occurrence.
pub struct Manager {
    items: Vec<Reminder>,
    /// For cron items: the last minute-stamp (`unix/60`) at which it fired.
    cron_last: Vec<i64>,
    /// For interval items: the next unix timestamp at which it is due.
    every_next: Vec<i64>,
}

/// The state of a `Manager`: per item its schedule, message, the minute at which a
/// cron item last fired and the time at which an interval item is next due.
pub struct ManagerView {
    pub schedules: Seq<Schedule>,
    pub messages: Seq<Seq<char>>,
    pub cron_last: Seq<i64>,
    pub every_next: Seq<i64>,
}

impl ManagerView {
    pub open spec fn wf(self) -> bool {
        &&& self.messages.len() == self.schedules.len()
        &&& self.cron_last.len() == self.schedules.len()
        &&& self.every_next.len() == self.schedules.len()
    }

    /// Item `i` is due at `now` (with `dt` the local date-time of `now`): a cron item
    /// that matches `dt` and has not fired in this minute, or an interval item whose
    /// time has come.
    pub open spec fn due(self, i: int, dt: DateTime, now: int) -> bool {
        match self.schedules[i] {
            Schedule::Cron(c) => c.fires_at(dt) && self.cron_last[i] != now / 60,
            Schedule::Every { .. } => now >= self.every_next[i],
        }
    }

    /// The first item from `i` on that is due.
    pub open spec fn first_due(self, dt: DateTime, now: int, i: int) -> Option<int>
        decreases self.schedules.len() - i,
    {
        if i >= self.schedules.len() || i < 0 {
            None
        } else if self.due(i, dt, now) {
            Some(i)
        } else {
            self.first_due(dt, now, i + 1)
        }
    }

    /// The state after item `i` fires at `now`: a cron item records the minute; an
    /// interval item moves on one period, or one period past `now` after a long gap.
    pub open spec fn fire(self, i: int, now: int) -> ManagerView {
        match self.schedules[i] {
            Schedule::Cron(_) => ManagerView {
                schedules: self.schedules,
                messages: self.messages,
                cron_last: self.cron_last.update(i, (now / 60) as i64),
                every_next: self.every_next,
            },
            Schedule::Every { period_secs } => ManagerView {
                schedules: self.schedules,
                messages: self.messages,
                cron_last: self.cron_last,
                every_next: self.every_next.update(
                    i,
                    (if self.every_next[i] + period_secs <= now {
                        now + period_secs
                    } else {
                        self.every_next[i] + period_secs
                    }) as i64,
                ),
            },
        }
    }

    /// Polling would overflow: the first due item is an interval that cannot be
    /// moved on from `now` within `i64`.
    pub open spec fn poll_overflows(self, dt: DateTime, now: int) -> bool {
        self.first_due(dt, now, 0) matches Some(i) && self.schedules[i] matches Schedule::Every { period_secs }
            && ({
            let next = self.every_next[i] + period_secs;
            ||| !(i64::MIN <= next <= i64::MAX)
            ||| (next <= now && !(i64::MIN <= now + period_secs <= i64::MAX))
        })
    }
}

/// The first time an interval item is due when it is added at `now`; cron items never
/// fall due this way.
pub open spec fn initial_next(s: Schedule, now: int) -> int {
    match s {
        Schedule::Every { period_secs } => now + period_secs,
        Schedule::Cron(_) => i64::MAX as int,
    }
}

/// Adding an item at `now` does not overflow.
pub open spec fn addable(s: Schedule, now: int) -> bool {
    i64::MIN <= initial_next(s, now) <= i64::MAX
}

impl View for Manager {
    type V = ManagerView;

    closed spec fn view(&self) -> ManagerView {
        ManagerView {
            schedules: self.items@.map_values(|r: Reminder| r.schedule),
            messages: self.items@.map_values(|r: Reminder| r.message@),
            cron_last: self.cron_last@,
            every_next: self.every_next@,
        }
    }
}

impl Manager {
    pub fn new(items: Vec<Reminder>, now_unix: i64) -> (r: Manager)
        requires
            forall|i: int| 0 <= i < items@.len() ==> addable(#[trigger] items@[i].schedule, now_unix as int),
        ensures
            r@.wf(),
            r@.schedules == items@.map_values(|x: Reminder| x.schedule),
            r@.messages == items@.map_values(|x: Reminder| x.message@),
            forall|i: int| 0 <= i < items@.len() ==> #[trigger] r@.cron_last[i] == -1,
            forall|i: int| 0 <= i < items@.len() ==> #[trigger] r@.every_next[i] == initial_next(items@[i].schedule, now_unix as int),
    {
        let mut cron_last: Vec<i64> = Vec::new();
        let mut every_next: Vec<i64> = Vec::new();
        let mut i: usize = 0;
        while i < items.len()
            invariant
                i <= items@.len(),
                cron_last@.len() == i,
                every_next@.len() == i,
                forall|k: int| 0 <= k < items@.len() ==> addable(#[trigger] items@[k].schedule, now_unix as int),
                forall|k: int| 0 <= k < i ==> #[trigger] cron_last@[k] == -1,
                forall|k: int| 0 <= k < i ==> #[trigger] every_next@[k] == initial_next(items@[k].schedule, now_unix as int),
            decreases items.len() - i,
        {
            let next = match items[i].schedule {
                Schedule::Every { period_secs } => now_unix + period_secs,
                Schedule::Cron(_) => i64::MAX,
            };
            assert(addable(items@[i as int].schedule, now_unix as int));
            every_next.push(next);
            cron_last.push(-1);
            i = i + 1;
        }
        Manager { items, cron_last, every_next }
    }

    pub fn is_empty(&self) -> (r: bool)
        ensures
            r == (self@.schedules.len() == 0),
    {
        self.items.len() == 0
    }

    /// Add a reminder at runtime so it fires without restarting.
    pub fn push(&mut self, r: Reminder, now_unix: i64)
        requires
            old(self)@.wf(),
            addable(r.schedule, now_unix as int),
        ensures
            final(self)@.wf(),
            final(self)@.schedules == old(self)@.schedules.push(r.schedule),
            final(self)@.messages == old(self)@.messages.push(r.message@),
            final(self)@.cron_last == old(self)@.cron_last.push(-1i64),
            final(self)@.every_next == old(self)@.every_next.push(initial_next(r.schedule, now_unix as int) as i64),
    {
        let next = match r.schedule {
            Schedule::Every { period_secs } => now_unix + period_secs,
            Schedule::Cron(_) => i64::MAX,
        };
        let ghost s = r.schedule;
        let ghost m = r.message@;
        self.items.push(r);
        self.cron_last.push(-1);
        self.every_next.push(next);
        assert(self@.schedules =~= old(self)@.schedules.push(s));
        assert(self@.messages =~= old(self)@.messages.push(m));
    }

    /// True when `poll` at this time would overflow, which `poll` does not accept.
    pub fn poll_overflows(&self, dt: &DateTime, now_unix: i64) -> (r: bool)
        requires
            self@.wf(),
        ensures
            r == self@.poll_overflows(*dt, now_unix as int),
    {
        match self.first_due_index(dt, now_unix) {
            Some(i) => match self.items[i].schedule {
                Schedule::Every { period_secs } => {
                    let next = self.every_next[i] as i128 + period_secs as i128;
                    let late = now_unix as i128 + period_secs as i128;
                    next < -0x8000_0000_0000_0000i128 || next > 0x7fff_ffff_ffff_ffffi128 || (next
                        <= now_unix as i128 && (late < -0x8000_0000_0000_0000i128 || late
                        > 0x7fff_ffff_ffff_ffffi128))
                },
                Schedule::Cron(_) => false,
            },
            None => false,
        }
    }

    fn is_due(&self, i: usize, dt: &DateTime, now_unix: i64, minute: i64) -> (r: bool)
        requires
            self@.wf(),
            i < self@.schedules.len(),
            minute == now_unix as int / 60,
        ensures
            r == self@.due(i as int, *dt, now_unix as int),
    {
        match self.items[i].schedule {
            Schedule::Cron(c) => c.matches(dt) && self.cron_last[i] != minute,
            Schedule::Every { .. } => now_unix >= self.every_next[i],
        }
    }

    fn first_due_index(&self, dt: &DateTime, now_unix: i64) -> (r: Option<usize>)
        requires
            self@.wf(),
        ensures
            r == (match self@.first_due(*dt, now_unix as int, 0) {
                Some(i) => Some(i as usize),
                None => None::<usize>,
            }),
            r matches Some(i) ==> i < self@.schedules.len() && self@.first_due(*dt, now_unix as int, 0) == Some(i as int),
    {
        let minute = minute_stamp(now_unix);
        let mut i: usize = 0;
        while i < self.items.len()
            invariant
                i <= self@.schedules.len(),
                self@.wf(),
                self.items@.len() == self@.schedules.len(),
                minute == now_unix as int / 60,
                self@.first_due(*dt, now_unix as int, 0) == self@.first_due(*dt, now_unix as int, i as int),
            decreases self.items.len() - i,
        {
            if self.is_due(i, dt, now_unix, minute) {
                return Some(i);
            }
            i = i + 1;
        }
        None
    }

    /// Return the message of the first reminder that has become due, advancing
    /// its bookkeeping so it will not re-fire for the same occurrence.
    pub fn poll(&mut self, dt: &DateTime, now_unix: i64) -> (r: Option<String>)
        requires
            old(self)@.wf(),
            !old(self)@.poll_overflows(*dt, now_unix as int),
        ensures
            final(self)@.wf(),
            match old(self)@.first_due(*dt, now_unix as int, 0) {
                None => r is None && final(self)@ == old(self)@,
                Some(i) => r matches Some(m) && m@ == old(self)@.messages[i]
                    && final(self)@ == old(self)@.fire(i, now_unix as int),
            },
    {
        let minute = minute_stamp(now_unix);
        match self.first_due_index(dt, now_unix) {
            None => None,
            Some(i) => {
                let msg = self.items[i].message.clone();
                match self.items[i].schedule {
                    Schedule::Cron(_) => {
                        self.cron_last.set(i, minute);
                    },
                    Schedule::Every { period_secs } => {
                        let mut next = self.every_next[i] + period_secs;
                        if next <= now_unix {
                            next = now_unix + period_secs;
                        }
                        self.every_next.set(i, next);
                    },
                }
                Some(msg)
            },
        }
    }
}

proof fn lemma_first_due_range(v: ManagerView, dt: DateTime, now: int, i: int)
    ensures
        v.first_due(dt, now, i) matches Some(k) ==> i <= k < v.schedules.len() && v.due(k, dt, now),
    decreases v.schedules.len() - i,
{
    if 0 <= i < v.schedules.len() && !v.due(i, dt, now) {
        lemma_first_due_range(v, dt, now, i + 1);
    }
}

/// A cron reminder fires at most once in a minute: once polling has fired it, it is
/// not due again at any time within the same minute.
pub proof fn law_cron_fires_once_per_minute(v: ManagerView, dt: DateTime, now: int, dt2: DateTime, now2: int)
    requires
        v.wf(),
        v.first_due(dt, now, 0) matches Some(i) && v.schedules[i] is Cron,
        now2 / 60 == now / 60,
        i64::MIN <= now <= i64::MAX,
    ensures
        !v.fire(v.first_due(dt, now, 0)->0, now).due(v.first_due(dt, now, 0)->0, dt2, now2),
{
    lemma_first_due_range(v, dt, now, 0);
    let i = v.first_due(dt, now, 0)->0;
    assert(v.fire(i, now).cron_last[i] == (now / 60) as i64);
}

/// An interval reminder fires once per period: after polling fires it at `now`, it is
/// next due strictly after `now`, at least one period after its previous due time,
/// and it is not due at any earlier time.
pub proof fn law_interval_fires_once_per_period(v: ManagerView, dt: DateTime, now: int, dt2: DateTime, now2: int)
    requires
        v.wf(),
        v.first_due(dt, now, 0) matches Some(i) && v.schedules[i] matches Schedule::Every { period_secs }
            && period_secs > 0 && now + period_secs <= i64::MAX,
        now2 < v.fire(v.first_due(dt, now, 0)->0, now).every_next[v.first_due(dt, now, 0)->0],
    ensures
        ({
            let i = v.first_due(dt, now, 0)->0;
            let p = v.schedules[i]->period_secs;
            &&& v.fire(i, now).every_next[i] > now
            &&& v.fire(i, now).every_next[i] >= v.every_next[i] + p
            &&& !v.fire(i, now).due(i, dt2, now2)
        }),
{
    lemma_first_due_range(v, dt, now, 0);
}

/// Polling changes the bookkeeping of the fired item only.
pub proof fn law_fire_touches_one_item(v: ManagerView, i: int, now: int, j: int)
    requires
        v.wf(),
        0 <= i < v.schedules.len(),
        0 <= j < v.schedules.len(),
        j != i,
    ensures
        v.fire(i, now).cron_last[j] == v.cron_last[j],
        v.fire(i, now).every_next[j] == v.every_next[j],
        v.fire(i, now).schedules == v.schedules,
        v.fire(i, now).messages == v.messages,
{
}

/// Views that agree on which items from `j` on are due find the same first one.
proof fn lemma_first_due_agree(v: ManagerView, w: ManagerView, dt: DateTime, now: int, j: int)
    requires
        v.schedules.len() == w.schedules.len(),
        forall|k: int| j <= k < v.schedules.len() ==> v.due(k, dt, now) == #[trigger] w.due(k, dt, now),
    ensures
        v.first_due(dt, now, j) == w.first_due(dt, now, j),
    decreases v.schedules.len() - j,
{
    if 0 <= j < v.schedules.len() {
        lemma_first_due_agree(v, w, dt, now, j + 1);
    }
}

/// With nothing due in `[j, i]`, the search from `j` goes on from `i + 1`.
proof fn lemma_first_due_skip(v: ManagerView, dt: DateTime, now: int, j: int, i: int)
    requires
        0 <= j <= i < v.schedules.len(),
        forall|k: int| j <= k <= i ==> !#[trigger] v.due(k, dt, now),
    ensures
        v.first_due(dt, now, j) == v.first_due(dt, now, i + 1),
    decreases i - j,
{
    if j < i {
        lemma_first_due_skip(v, dt, now, j + 1, i);
    }
}

/// The first due item is due, and none before it is.
proof fn lemma_first_due_first(v: ManagerView, dt: DateTime, now: int, j: int)
    requires
        0 <= j,
    ensures
        v.first_due(dt, now, j) matches Some(i) ==> forall|k: int| j <= k < i ==> !#[trigger] v.due(k, dt, now),
    decreases v.schedules.len() - j,
{
    if 0 <= j < v.schedules.len() && !v.due(j, dt, now) {
        lemma_first_due_first(v, dt, now, j + 1);
    }
}

/// Polling again at the same time gives the next due item: the items due at one time
/// fire once each, in order, and after the last of them polling gives nothing.
pub proof fn law_polls_walk_due_items(v: ManagerView, dt: DateTime, now: int)
    requires
        v.wf(),
        forall|k: int| 0 <= k < v.schedules.len() ==> valid_schedule(#[trigger] v.schedules[k]),
        v.first_due(dt, now, 0) is Some,
        !v.poll_overflows(dt, now),
        i64::MIN <= now <= i64::MAX,
    ensures
        ({
            let i = v.first_due(dt, now, 0)->0;
            &&& v.fire(i, now).wf()
            &&& v.fire(i, now).first_due(dt, now, 0) == v.first_due(dt, now, i + 1)
            &&& v.fire(i, now).first_due(dt, now, 0) matches Some(k) ==> k > i
        }),
{
    lemma_first_due_range(v, dt, now, 0);
    lemma_first_due_first(v, dt, now, 0);
    let i = v.first_due(dt, now, 0)->0;
    let w = v.fire(i, now);
    assert(valid_schedule(v.schedules[i]));
    assert forall|k: int| 0 <= k <= i implies !#[trigger] w.due(k, dt, now) by {
        if k < i {
            assert(!v.due(k, dt, now));
        }
    }
    lemma_first_due_skip(w, dt, now, 0, i);
    assert forall|k: int| i + 1 <= k < v.schedules.len() implies v.due(k, dt, now) == #[trigger] w.due(k, dt, now) by {}
    lemma_first_due_agree(v, w, dt, now, i + 1);
    lemma_first_due_range(v, dt, now, i + 1);
}

/// An interval reminder added at `now` stays quiet for its whole first period and is
/// due from `now` plus its period on.
pub proof fn law_interval_first_period(v: ManagerView, i: int, now: int, dt: DateTime, t: int)
    requires
        v.wf(),
        0 <= i < v.schedules.len(),
        v.schedules[i] is Every,
        v.every_next[i] == initial_next(v.schedules[i], now),
    ensures
        v.due(i, dt, t) == (t >= now + v.schedules[i]->period_secs),
{
}

/// The items due at `now` (local date-time `dt`), from index `j` on, in order.
pub open spec fn due_items(v: ManagerView, dt: DateTime, now: int, j: int) -> Seq<int>
    decreases v.schedules.len() - j,
{
    if j < 0 || j >= v.schedules.len() {
        seq![]
    } else if v.due(j, dt, now) {
        seq![j] + due_items(v, dt, now, j + 1)
    } else {
        due_items(v, dt, now, j + 1)
    }
}

/// What `n` polls in a row at `now` give, starting from state `v`: the index of the
/// item each one fires, or `None`.
pub open spec fn polls(v: ManagerView, dt: DateTime, now: int, n: nat) -> Seq<Option<int>>
    decreases n,
{
    if n == 0 {
        seq![]
    } else {
        match v.first_due(dt, now, 0) {
            Some(i) => seq![Some(i)] + polls(v.fire(i, now), dt, now, (n - 1) as nat),
            None => seq![None::<int>] + polls(v, dt, now, (n - 1) as nat),
        }
    }
}

/// Firing the items due at `now` stays within `i64`: for each due interval item,
/// both one period past its due time and one period past `now`.
pub open spec fn polls_fit(v: ManagerView, dt: DateTime, now: int) -> bool {
    &&& i64::MIN <= now <= i64::MAX
    &&& forall|k: int| 0 <= k < v.schedules.len() && #[trigger] v.due(k, dt, now) ==>
        (v.schedules[k] matches Schedule::Every { period_secs } ==>
            i64::MIN <= v.every_next[k] + period_secs <= i64::MAX && i64::MIN <= now + period_secs <= i64::MAX)
}

proof fn lemma_first_due_items(v: ManagerView, dt: DateTime, now: int, j: int)
    requires
        0 <= j,
    ensures
        v.first_due(dt, now, j) == (if due_items(v, dt, now, j).len() > 0 {
            Some(due_items(v, dt, now, j)[0])
        } else {
            None
        }),
    decreases v.schedules.len() - j,
{
    if j < v.schedules.len() && !v.due(j, dt, now) {
        lemma_first_due_items(v, dt, now, j + 1);
    }
}

proof fn lemma_due_items_agree(v: ManagerView, w: ManagerView, dt: DateTime, now: int, j: int)
    requires
        v.schedules.len() == w.schedules.len(),
        forall|k: int| j <= k < v.schedules.len() ==> v.due(k, dt, now) == #[trigger] w.due(k, dt, now),
    ensures
        due_items(v, dt, now, j) == due_items(w, dt, now, j),
    decreases v.schedules.len() - j,
{
    if 0 <= j < v.schedules.len() {
        lemma_due_items_agree(v, w, dt, now, j + 1);
    }
}

proof fn lemma_due_items_skip(v: ManagerView, dt: DateTime, now: int, j: int, i: int)
    requires
        0 <= j <= i <= v.schedules.len(),
        forall|k: int| j <= k < i ==> !#[trigger] v.due(k, dt, now),
    ensures
        due_items(v, dt, now, j) == due_items(v, dt, now, i),
    decreases i - j,
{
    if j < i {
        lemma_due_items_skip(v, dt, now, j + 1, i);
    }
}

/// One poll fires the first due item and leaves the others due, in order.
proof fn lemma_poll_step(v: ManagerView, dt: DateTime, now: int)
    requires
        v.wf(),
        forall|k: int| 0 <= k < v.schedules.len() ==> valid_schedule(#[trigger] v.schedules[k]),
        polls_fit(v, dt, now),
        v.first_due(dt, now, 0) is Some,
    ensures
        ({
            let i = v.first_due(dt, now, 0)->0;
            let w = v.fire(i, now);
            &&& w.wf()
            &&& w.schedules == v.schedules
            &&& polls_fit(w, dt, now)
            &&& due_items(v, dt, now, 0).len() > 0
            &&& due_items(v, dt, now, 0)[0] == i
            &&& due_items(w, dt, now, 0) == due_items(v, dt, now, 0).drop_first()
        }),
{
    lemma_first_due_range(v, dt, now, 0);
    lemma_first_due_first(v, dt, now, 0);
    lemma_first_due_items(v, dt, now, 0);
    let i = v.first_due(dt, now, 0)->0;
    let w = v.fire(i, now);
    assert(valid_schedule(v.schedules[i]));
    assert(v.due(i, dt, now));
    assert forall|k: int| 0 <= k <= i implies !#[trigger] w.due(k, dt, now) by {
        if k < i {
            assert(!v.due(k, dt, now));
        }
    }
    assert forall|k: int| i + 1 <= k < v.schedules.len() implies v.due(k, dt, now) == #[trigger] w.due(k, dt, now) by {}
    lemma_due_items_skip(v, dt, now, 0, i);
    lemma_due_items_skip(w, dt, now, 0, i + 1);
    lemma_due_items_agree(v, w, dt, now, i + 1);
    assert(due_items(v, dt, now, i) == seq![i] + due_items(v, dt, now, i + 1));
    assert((seq![i] + due_items(v, dt, now, i + 1)).drop_first() =~= due_items(v, dt, now, i + 1));
    assert forall|k: int| 0 <= k < w.schedules.len() && #[trigger] w.due(k, dt, now) implies
        (w.schedules[k] matches Schedule::Every { period_secs } ==>
            i64::MIN <= w.every_next[k] + period_secs <= i64::MAX && i64::MIN <= now + period_secs <= i64::MAX) by {
        assert(k > i);
        assert(v.due(k, dt, now));
    }
}

/// Polling again and again at one time fires each item due then exactly once, in
/// order of the items, and then gives `None` on every further poll.
pub proof fn law_repeated_polls(v: ManagerView, dt: DateTime, now: int, n: nat)
    requires
        v.wf(),
        forall|k: int| 0 <= k < v.schedules.len() ==> valid_schedule(#[trigger] v.schedules[k]),
        polls_fit(v, dt, now),
    ensures
        polls(v, dt, now, n).len() == n,
        forall|k: int| 0 <= k < n ==> #[trigger] polls(v, dt, now, n)[k] == (if k < due_items(v, dt, now, 0).len() {
            Some(due_items(v, dt, now, 0)[k])
        } else {
            None
        }),
    decreases n,
{
    if n > 0 {
        let d = due_items(v, dt, now, 0);
        lemma_first_due_items(v, dt, now, 0);
        match v.first_due(dt, now, 0) {
            Some(i) => {
                lemma_poll_step(v, dt, now);
                let w = v.fire(i, now);
                assert forall|k: int| 0 <= k < w.schedules.len() implies valid_schedule(#[trigger] w.schedules[k]) by {
                    assert(w.schedules[k] == v.schedules[k]);
                }
                law_repeated_polls(w, dt, now, (n - 1) as nat);
                let rest = polls(w, dt, now, (n - 1) as nat);
                assert(polls(v, dt, now, n) == seq![Some(i)] + rest);
                assert forall|k: int| 0 <= k < n implies #[trigger] polls(v, dt, now, n)[k] == (if k < d.len() {
                    Some(d[k])
                } else {
                    None
                }) by {
                    if k > 0 {
                        assert(polls(v, dt, now, n)[k] == rest[k - 1]);
                        if k < d.len() {
                            assert(d.drop_first()[k - 1] == d[k]);
                        }
                    }
                }
            },
            None => {
                law_repeated_polls(v, dt, now, (n - 1) as nat);
                let rest = polls(v, dt, now, (n - 1) as nat);
                assert(polls(v, dt, now, n) == seq![None::<int>] + rest);
                assert forall|k: int| 0 <= k < n implies #[trigger] polls(v, dt, now, n)[k] == (if k < d.len() {
                    Some(d[k])
                } else {
                    None
                }) by {
                    if k > 0 {
                        assert(polls(v, dt, now, n)[k] == rest[k - 1]);
                    }
                }
            },
        }
    }
}

/// Polls at one time within `i64` do not overflow.
pub proof fn law_polls_fit_no_overflow(v: ManagerView, dt: DateTime, now: int)
    requires
        v.wf(),
        polls_fit(v, dt, now),
    ensures
        !v.poll_overflows(dt, now),
{
    lemma_first_due_range(v, dt, now, 0);
}

/// `t` is `@` and the keyword `k`, then the end of `t` or whitespace.
pub open spec fn keyword_line(t: Seq<char>, k: Seq<char>) -> bool {
    &&& t.len() > k.len()
    &&& t[0] == '@'
    &&& t.subrange(1, k.len() as int + 1) == k
    &&& (t.len() == k.len() as int + 1 || is_ws(t[k.len() as int + 1]))
}

/// The field holds exactly the value `v`.
pub open spec fn holds_only(fs: FieldSet, v: int) -> bool {
    forall|w: int| #[trigger] fs.has(w) == (w == v)
}

/// The field holds exactly the values `lo..=hi`.
pub open spec fn holds_range(fs: FieldSet, lo: int, hi: int) -> bool {
    forall|w: int| #[trigger] fs.has(w) == (lo <= w <= hi)
}

/// A time within the ranges of the cron fields.
pub open spec fn in_cron_ranges(dt: DateTime) -> bool {
    dt.m <= 59 && dt.h <= 23 && 1 <= dt.day <= 31 && 1 <= dt.month <= 12 && dt.dow <= 7
}

/// Where a trimmed line starts with `@` and the keyword `k`, the line reads as
/// `line_body` gives it with `k` as the keyword.
proof fn lemma_keyword_word(t: Seq<char>, k: Seq<char>)
    requires
        keyword_line(t, k),
        trim(t) == t,
        forall|j: int| 0 <= j < k.len() ==> !is_ws(#[trigger] k[j]),
    ensures
        trim_range(t, 0, t.len() as int) == (0int, t.len() as int),
        find_ws(t, 1, t.len() as int) == k.len() as int + 1,
        t.subrange(1, find_ws(t, 1, t.len() as int)) == k,
{
    let n = t.len() as int;
    lemma_skip_ws(t, 0, n);
    assert(!is_ws(t[0]));
    assert(skip_ws(t, 0, n) == 0);
    lemma_rskip_ws(t, 0, n);
    assert(t.subrange(0, rskip_ws(t, 0, n)).len() == n);
    assert forall|j: int| 1 <= j < k.len() as int + 1 implies !is_ws(#[trigger] t[j]) by {
        assert(t[j] == t.subrange(1, k.len() as int + 1)[j - 1]);
    }
    lemma_find_ws_at(t, 1, n, k.len() as int + 1);
}

/// The keyword lines mean what their names say: `@minutely` fires every minute,
/// `@hourly` at minute 0 of every hour, `@daily` and `@midnight` at 00:00 every
/// day. Their fields are exactly those of `* * * * *`, `0 * * * *` and `0 0 * * *`.
pub proof fn law_keyword_schedules(line: Seq<char>, r: Reminder, dt: DateTime)
    requires
        describes(r, line),
        in_cron_ranges(dt),
    ensures
        keyword_line(trim(line), "minutely"@) ==> (r.schedule matches Schedule::Cron(c)
            && holds_range(c.min, 0, 59) && holds_range(c.hour, 0, 23) && holds_range(c.dom, 1, 31)
            && holds_range(c.mon, 1, 12) && holds_range(c.dow, 0, 7) && c.fires_at(dt)),
        keyword_line(trim(line), "hourly"@) ==> (r.schedule matches Schedule::Cron(c)
            && holds_only(c.min, 0) && holds_range(c.hour, 0, 23) && holds_range(c.dom, 1, 31)
            && holds_range(c.mon, 1, 12) && holds_range(c.dow, 0, 7) && c.fires_at(dt) == (dt.m == 0)),
        keyword_line(trim(line), "daily"@) || keyword_line(trim(line), "midnight"@) ==> (r.schedule matches Schedule::Cron(c)
            && holds_only(c.min, 0) && holds_only(c.hour, 0) && holds_range(c.dom, 1, 31)
            && holds_range(c.mon, 1, 12) && holds_range(c.dow, 0, 7) && c.fires_at(dt) == (dt.h == 0 && dt.m == 0)),
{
    let t = trim(line);
    lemma_trim_idempotent(line);
    reveal_strlit("minutely");
    reveal_strlit("hourly");
    reveal_strlit("daily");
    reveal_strlit("midnight");
    reveal_strlit("every");
    if keyword_line(t, "minutely"@) {
        lemma_keyword_word(t, "minutely"@);
        assert(line_spec(line) is Keyword && line_spec(line)->Keyword_0 == 0);
    }
    if keyword_line(t, "hourly"@) {
        lemma_keyword_word(t, "hourly"@);
        assert(line_spec(line) is Keyword && line_spec(line)->Keyword_0 == 1);
    }
    if keyword_line(t, "daily"@) {
        lemma_keyword_word(t, "daily"@);
        assert("daily"@[0] != "every"@[0]);
        assert(line_spec(line) is Keyword && line_spec(line)->Keyword_0 == 2);
    }
    if keyword_line(t, "midnight"@) {
        lemma_keyword_word(t, "midnight"@);
        assert("midnight"@[0] != "minutely"@[0] || "midnight"@[1] != "minutely"@[1] || "midnight"@[2] != "minutely"@[2]);
        assert(line_spec(line) is Keyword && line_spec(line)->Keyword_0 == 2);
    }
}

/// In every reminder read from a line, a day field written `*` holds every day it
/// can name, so the other day field alone decides the day (`law_star_day_fields`).
pub proof fn law_reminder_stars(line: Seq<char>, r: Reminder)
    requires
        describes(r, line),
        r.schedule is Cron,
    ensures
        stars_hold_all(r.schedule->Cron_0),
{
    let t = trim(line);
    let c = r.schedule->Cron_0;
    match line_spec(line) {
        LineSpec::Cron(f, _) => {
            let n = t.len() as int;
            lemma_skip_ws(t, 0, n);
            lemma_rskip_ws(t, skip_ws(t, 0, n), n);
            lemma_words_bounds(t, trim_range(t, 0, n).0, trim_range(t, 0, n).1, 5);
            law_parsed_stars(c, t, f);
        },
        _ => {},
    }
}

proof fn lemma_dur_digits(s: Seq<char>, lo: int, hi: int, i: int, j: int, total: int, ns: int)
    requires
        i <= j <= hi,
        forall|k: int| i <= k < j ==> is_digit(#[trigger] s[k]),
    ensures
        dur_fold(s, lo, hi, i, total, ns) == dur_fold(s, lo, hi, j, total, ns),
    decreases j - i,
{
    if i < j {
        lemma_dur_digits(s, lo, hi, i + 1, j, total, ns);
    }
}

/// A number followed by a unit is that many units: `Ns` is N seconds, `Nm` N
/// minutes, `Nh` N hours and `Nd` N days; a bare number is seconds. A zero is
/// refused, and a unit other than these four is an error.
pub proof fn law_duration_units(d: Seq<char>, u: char)
    requires
        d.len() > 0,
        all_digits(d),
        digits_value(d) * 86400 <= i64::MAX,
    ensures
        ({
            let v = digits_value(d) as int;
            let n = d.len() as int;
            &&& v > 0 ==> dur_spec(d, 0, n) == DurSpec::Secs(v)
            &&& v > 0 && u == 's' ==> dur_spec(d.push(u), 0, n + 1) == DurSpec::Secs(v)
            &&& v > 0 && u == 'm' ==> dur_spec(d.push(u), 0, n + 1) == DurSpec::Secs(60 * v)
            &&& v > 0 && u == 'h' ==> dur_spec(d.push(u), 0, n + 1) == DurSpec::Secs(3600 * v)
            &&& v > 0 && u == 'd' ==> dur_spec(d.push(u), 0, n + 1) == DurSpec::Secs(86400 * v)
            &&& v == 0 ==> dur_spec(d, 0, n) is Fail
            &&& (u == 's' || u == 'm' || u == 'h' || u == 'd') && v == 0 ==> dur_spec(d.push(u), 0, n + 1) is Fail
            &&& !(u == 's' || u == 'm' || u == 'h' || u == 'd' || is_digit(u)) ==> dur_spec(d.push(u), 0, n + 1) is Fail
        }),
{
    let v = digits_value(d) as int;
    let n = d.len() as int;
    let s = d.push(u);
    assert(d.subrange(0, n) =~= d);
    assert(s.subrange(0, n) =~= d);
    lemma_dur_digits(d, 0, n, 0, n, 0, 0);
    assert forall|k: int| 0 <= k < n implies is_digit(#[trigger] s[k]) by {
        assert(s[k] == d[k]);
    }
    lemma_dur_digits(s, 0, n + 1, 0, n, 0, 0);
    assert(v * 60 <= v * 86400 && v * 3600 <= v * 86400) by (nonlinear_arith)
        requires v >= 0;
    assert(s[n] == u);
    assert(parse_digits_i64_spec(d) == Some(v as i64));
    assert(dur_fold(d, 0, n, n, 0, 0) == dur_finish(d, v));
    assert(dur_spec(d, 0, n) == dur_finish(d, v));
    if u == 's' || u == 'm' || u == 'h' || u == 'd' {
        lemma_dur_one_unit(d, u, v);
    }
}

/// Digits with value `v` and then one unit read as `v` times the unit.
#[verifier::spinoff_prover]
proof fn lemma_dur_one_unit(d: Seq<char>, u: char, v: int)
    requires
        d.len() > 0,
        all_digits(d),
        v == digits_value(d),
        v * 86400 <= i64::MAX,
        u == 's' || u == 'm' || u == 'h' || u == 'd',
    ensures
        dur_spec(d.push(u), 0, d.len() as int + 1) == dur_finish(d.push(u), v * unit_secs(u)->0),
{
    let n = d.len() as int;
    let s = d.push(u);
    let k = unit_secs(u)->0;
    assert(k == 1 || k == 60 || k == 3600 || k == 86400);
    assert(0 <= v * k <= v * 86400) by (nonlinear_arith)
        requires v >= 0, 1 <= k <= 86400;
    assert forall|j: int| 0 <= j < n implies is_digit(#[trigger] s[j]) by {
        assert(s[j] == d[j]);
    }
    lemma_dur_digits(s, 0, n + 1, 0, n, 0, 0);
    assert(s[n] == u);
    assert(!is_digit(s[n]));
    assert(s.subrange(0, n) =~= d);
    assert(parse_digits_i64_spec(s.subrange(0, n)) == Some(v as i64));
    let x: int = (v as i64) as int;
    assert(x == v);
    assert(dur_fold(s, 0, n + 1, n, 0, 0) == dur_fold(s, 0, n + 1, n + 1, 0 + x * k, n + 1));
    assert(s.subrange(0, n + 1) =~= s);
    assert(dur_fold(s, 0, n + 1, n + 1, v * k, n + 1) == dur_finish(s, v * k));
}

} // verus!
