//! Cron fields and five-field cron expressions.
//!
//! A field is a set of integers in `0..=63` held as a bitmask. Its text is a
//! comma list of parts; a part is `*`, `N`, `A-B`, optionally followed by `/S`.
//! A value `N`, `A` or `B` may also be a name: `sun` .. `sat` in the day-of-week
//! field and `jan` .. `dec` in the month field, in any case.
use vstd::prelude::*;
use crate::clock::{DateTime, weekday_name_spec};
use crate::text::{is_digit, unsigned_body, debug_str, debug_str_spec, dec, find_char, find_char_exec, lemma_find_char, parse_u32, parse_u32_spec, push_dec, range_eq, string_of};

verus! {

/// A set of allowed integer values in `0..=63`, held as a bitmask.
#[derive(Clone, Copy, Debug, PartialEq, Eq)]
pub struct FieldSet {
    pub mask: u64,
    /// True when the source was a bare `*` (relevant to cron day-matching).
    pub star: bool,
}

/// A parsed 5-field cron expression.
#[derive(Clone, Copy, Debug, PartialEq, Eq)]
pub struct Cron {
    pub min: FieldSet,
    pub hour: FieldSet,
    pub dom: FieldSet,
    pub mon: FieldSet,
    pub dow: FieldSet,
}

pub open spec fn bit(mask: u64, v: int) -> bool {
    0 <= v < 64 && mask & (1u64 << (v as u64)) != 0
}

/// Membership in the values `lo, lo+step, ...` up to `hi`.
pub open spec fn in_steps(lo: int, hi: int, step: int, w: int) -> bool {
    lo <= w <= hi && (w - lo) % step == 0
}

/// What one comma-separated part of a field denotes.
pub enum PartSpec {
    Steps(int, int, int),
    Fail(Seq<char>),
}

/// What a whole field denotes (its values are given by `in_field`).
pub enum FieldSpec {
    Valid,
    Fail(Seq<char>),
}

pub open spec fn range_check(part: Seq<char>, lo: int, hi: int, step: int, min: u32, max: u32) -> PartSpec {
    if lo < min || hi > max || lo > hi {
        PartSpec::Fail(debug_str_spec(part) + " out of range "@ + dec(min as nat) + "..="@ + dec(max as nat))
    } else {
        PartSpec::Steps(lo, hi, step)
    }
}

/// `c` is the letter given in lower and upper case.
pub open spec fn ci(c: char, lower: char, upper: char) -> bool {
    c == lower || c == upper
}

/// A weekday name `sun` .. `sat` (in any case) as its number, Sunday 0.
pub open spec fn weekday_name_value(t: Seq<char>) -> Option<u32> {
    if t.len() != 3 {
        None
    } else {
        if ci(t[0], 's', 'S') && ci(t[1], 'u', 'U') && ci(t[2], 'n', 'N') {
            Some(0u32)
        } else if ci(t[0], 'm', 'M') && ci(t[1], 'o', 'O') && ci(t[2], 'n', 'N') {
            Some(1u32)
        } else if ci(t[0], 't', 'T') && ci(t[1], 'u', 'U') && ci(t[2], 'e', 'E') {
            Some(2u32)
        } else if ci(t[0], 'w', 'W') && ci(t[1], 'e', 'E') && ci(t[2], 'd', 'D') {
            Some(3u32)
        } else if ci(t[0], 't', 'T') && ci(t[1], 'h', 'H') && ci(t[2], 'u', 'U') {
            Some(4u32)
        } else if ci(t[0], 'f', 'F') && ci(t[1], 'r', 'R') && ci(t[2], 'i', 'I') {
            Some(5u32)
        } else if ci(t[0], 's', 'S') && ci(t[1], 'a', 'A') && ci(t[2], 't', 'T') {
            Some(6u32)
        } else {
            None
        }
    }
}

/// A month name `jan` .. `dec` (in any case) as its number, January 1.
pub open spec fn month_name_value(t: Seq<char>) -> Option<u32> {
    if t.len() != 3 {
        None
    } else {
        if ci(t[0], 'j', 'J') && ci(t[1], 'a', 'A') && ci(t[2], 'n', 'N') {
            Some(1u32)
        } else if ci(t[0], 'f', 'F') && ci(t[1], 'e', 'E') && ci(t[2], 'b', 'B') {
            Some(2u32)
        } else if ci(t[0], 'm', 'M') && ci(t[1], 'a', 'A') && ci(t[2], 'r', 'R') {
            Some(3u32)
        } else if ci(t[0], 'a', 'A') && ci(t[1], 'p', 'P') && ci(t[2], 'r', 'R') {
            Some(4u32)
        } else if ci(t[0], 'm', 'M') && ci(t[1], 'a', 'A') && ci(t[2], 'y', 'Y') {
            Some(5u32)
        } else if ci(t[0], 'j', 'J') && ci(t[1], 'u', 'U') && ci(t[2], 'n', 'N') {
            Some(6u32)
        } else if ci(t[0], 'j', 'J') && ci(t[1], 'u', 'U') && ci(t[2], 'l', 'L') {
            Some(7u32)
        } else if ci(t[0], 'a', 'A') && ci(t[1], 'u', 'U') && ci(t[2], 'g', 'G') {
            Some(8u32)
        } else if ci(t[0], 's', 'S') && ci(t[1], 'e', 'E') && ci(t[2], 'p', 'P') {
            Some(9u32)
        } else if ci(t[0], 'o', 'O') && ci(t[1], 'c', 'C') && ci(t[2], 't', 'T') {
            Some(10u32)
        } else if ci(t[0], 'n', 'N') && ci(t[1], 'o', 'O') && ci(t[2], 'v', 'V') {
            Some(11u32)
        } else if ci(t[0], 'd', 'D') && ci(t[1], 'e', 'E') && ci(t[2], 'c', 'C') {
            Some(12u32)
        } else {
            None
        }
    }
}

/// The name values of a field: weekday names in the day-of-week field (`0..=7`),
/// month names in the month field (`1..=12`), none elsewhere.
pub open spec fn name_value_spec(t: Seq<char>, min: u32, max: u32) -> Option<u32> {
    if min == 0 && max == 7 {
        weekday_name_value(t)
    } else if min == 1 && max == 12 {
        month_name_value(t)
    } else {
        None
    }
}

/// A single value of a field: a number, else a name the field accepts.
pub open spec fn value_spec(t: Seq<char>, min: u32, max: u32) -> Option<u32> {
    match parse_u32_spec(t) {
        Some(n) => Some(n),
        None => name_value_spec(t, min, max),
    }
}

/// The part `s[pa..pb]` of a field constrained to `min..=max`.
pub open spec fn part_spec(s: Seq<char>, pa: int, pb: int, min: u32, max: u32) -> PartSpec {
    let part = s.subrange(pa, pb);
    let slash = find_char(s, pa, pb, '/');
    let step_opt: Option<u32> = if slash < pb {
        parse_u32_spec(s.subrange(slash + 1, pb))
    } else {
        Some(1u32)
    };
    if step_opt is None {
        PartSpec::Fail("bad step in "@ + debug_str_spec(part))
    } else if step_opt == Some(0u32) {
        PartSpec::Fail("zero step in "@ + debug_str_spec(part))
    } else {
        let step = step_opt->0 as int;
        let range = s.subrange(pa, slash);
        if range == seq!['*'] {
            range_check(part, min as int, max as int, step, min, max)
        } else {
            let dash = find_char(s, pa, slash, '-');
            if dash < slash {
                let a = value_spec(s.subrange(pa, dash), min, max);
                let b = value_spec(s.subrange(dash + 1, slash), min, max);
                if a is Some && b is Some {
                    range_check(part, a->0 as int, b->0 as int, step, min, max)
                } else {
                    PartSpec::Fail("bad range in "@ + debug_str_spec(part))
                }
            } else {
                match value_spec(range, min, max) {
                    Some(v) => range_check(part, v as int, v as int, step, min, max),
                    None => PartSpec::Fail("bad value "@ + debug_str_spec(range)),
                }
            }
        }
    }
}

pub proof fn lemma_find_char_ge(s: Seq<char>, i: int, hi: int, c: char)
    ensures
        find_char(s, i, hi, c) >= i,
        i <= hi ==> find_char(s, i, hi, c) <= hi,
    decreases hi - i,
{
    if i < hi && s[i] != c {
        lemma_find_char_ge(s, i + 1, hi, c);
    }
}

/// The field `s[p..fb]`: its parts are parsed left to right; the first failure wins.
pub open spec fn field_spec(s: Seq<char>, p: int, fb: int, min: u32, max: u32) -> FieldSpec
    decreases fb - p,
{
    let q = find_char(s, p, fb, ',');
    match part_spec(s, p, q, min, max) {
        PartSpec::Fail(m) => FieldSpec::Fail(m),
        PartSpec::Steps(_, _, _) => {
            if q < fb {
                proof {
                    lemma_find_char_ge(s, p, fb, ',');
                }
                field_spec(s, q + 1, fb, min, max)
            } else {
                FieldSpec::Valid
            }
        },
    }
}

/// Whether `w` is among the values of the field `s[p..fb]`.
pub open spec fn in_field(s: Seq<char>, p: int, fb: int, min: u32, max: u32, w: int) -> bool
    decreases fb - p,
{
    let q = find_char(s, p, fb, ',');
    ||| (match part_spec(s, p, q, min, max) {
        PartSpec::Steps(lo, hi, st) => in_steps(lo, hi, st, w),
        _ => false,
    })
    ||| (q < fb && {
        proof {
            lemma_find_char_ge(s, p, fb, ',');
        }
        in_field(s, q + 1, fb, min, max, w)
    })
}

/// Outcome of parsing a field.
pub enum FieldParse {
    Parsed(FieldSet),
    Fail(String),
}

proof fn lemma_bit_or(m: u64, x: u64, w: u64)
    requires
        x < 64,
        w < 64,
    ensures
        ((m | (1u64 << x)) & (1u64 << w) != 0) == ((m & (1u64 << w) != 0) || x == w),
{
    assert(((m | (1u64 << x)) & (1u64 << w) != 0) == ((m & (1u64 << w) != 0) || x == w))
        by (bit_vector)
        requires
            x < 64,
            w < 64,
    ;
}

proof fn lemma_step_window(lo: int, x: int, w: int, step: int)
    requires
        step > 0,
        x >= lo,
        (x - lo) % step == 0,
        x <= w < x + step,
    ensures
        ((w - lo) % step == 0) == (w == x),
{
    vstd::arithmetic::div_mod::lemma_fundamental_div_mod(x - lo, step);
    let k = (x - lo) / step;
    assert(w - lo == step * k + (w - x)) by (nonlinear_arith)
        requires
            x - lo == step * ((x - lo) / step) + (x - lo) % step,
            (x - lo) % step == 0,
            k == (x - lo) / step,
    ;
    vstd::arithmetic::div_mod::lemma_mod_multiples_vanish(k, w - x, step);
    vstd::arithmetic::div_mod::lemma_small_mod((w - x) as nat, step as nat);
}

proof fn lemma_bit_zero(w: int)
    ensures
        !bit(0u64, w),
{
    if 0 <= w < 64 {
        let wu = w as u64;
        assert(0u64 & (1u64 << wu) == 0) by (bit_vector);
    }
}

proof fn lemma_zero_mod(step: int)
    requires
        step > 0,
    ensures
        0int % step == 0,
{
    vstd::arithmetic::div_mod::lemma_small_mod(0nat, step as nat);
}

proof fn lemma_next_congruent(lo: int, x0: int, step: int)
    requires
        step > 0,
        x0 >= lo,
        (x0 - lo) % step == 0,
    ensures
        (x0 + step - lo) % step == 0,
{
    vstd::arithmetic::div_mod::lemma_mod_multiples_vanish(1, x0 - lo, step);
    assert(step * 1 + (x0 - lo) == x0 + step - lo);
}

/// Adds the values `lo, lo+step, ...` up to `hi` to `mask`.
fn add_steps(mask: u64, lo: u32, hi: u32, step: u32) -> (r: u64)
    requires
        lo <= hi < 64,
        step > 0,
    ensures
        forall|w: int| #[trigger] bit(r, w) == (bit(mask, w) || in_steps(lo as int, hi as int, step as int, w)),
{
    let mut m = mask;
    let mut x: u64 = lo as u64;
    proof {
        lemma_zero_mod(step as int);
    }
    while x <= hi as u64
        invariant
            lo <= hi < 64,
            step > 0,
            lo <= x <= hi as u64 + step as u64,
            x >= lo + step ==> x - step <= hi,
            x == lo || x >= lo + step,
            (x - lo) % (step as int) == 0,
            forall|w: int| #[trigger] bit(m, w) == (bit(mask, w) || (lo <= w < x && (w - lo) % (step as int) == 0)),
        decreases hi as int + step as int - x,
    {
        let ghost m0 = m;
        let ghost x0 = x;
        m = m | (1u64 << x);
        x = x + step as u64;
        assert forall|w: int| #[trigger] bit(m, w) == (bit(mask, w) || (lo <= w < x && (w - lo) % (step as int) == 0)) by {
            assert(bit(m0, w) == (bit(mask, w) || (lo <= w < x0 && (w - lo) % (step as int) == 0)));
            if 0 <= w < 64 {
                lemma_bit_or(m0, x0, w as u64);
            }
            if x0 <= w < x {
                lemma_step_window(lo as int, x0 as int, w, step as int);
            }
        }
        proof {
            lemma_next_congruent(lo as int, x0 as int, step as int);
        }
    }
    assert forall|w: int| #[trigger] bit(m, w) == (bit(mask, w) || in_steps(lo as int, hi as int, step as int, w)) by {
        assert(bit(m, w) == (bit(mask, w) || (lo <= w < x && (w - lo) % (step as int) == 0)));
        if hi < w < x {
            let xp = x - step;
            assert(xp >= lo);
            assert((xp - lo) % (step as int) == 0) by {
                assert(x - lo == (xp - lo) + step);
                vstd::arithmetic::div_mod::lemma_mod_multiples_vanish(-1, x - lo, step as int);
                assert(step * -1 + (x - lo) == xp - lo);
            }
            lemma_step_window(lo as int, xp as int, w, step as int);
        }
    }
    m
}

/// Builds `prefix` followed by the `Debug` form of `v[lo..hi]`.
fn msg_with_debug(prefix: &str, v: &Vec<char>, lo: usize, hi: usize) -> (r: String)
    requires
        lo <= hi <= v.len(),
    ensures
        r@ == prefix@ + debug_str_spec(v@.subrange(lo as int, hi as int)),
{
    let mut r = String::from_str(prefix);
    let part = string_of(v, lo, hi);
    let d = debug_str(part.as_str());
    r.append(d.as_str());
    r
}

fn range_check_exec(v: &Vec<char>, pa: usize, pb: usize, lo: u32, hi: u32, step: u32, min: u32, max: u32) -> (r: Result<(u32, u32, u32), String>)
    requires
        pa <= pb <= v.len(),
        step > 0,
    ensures
        match range_check(v@.subrange(pa as int, pb as int), lo as int, hi as int, step as int, min, max) {
            PartSpec::Steps(a, b, c) => r == Ok::<(u32, u32, u32), String>((lo, hi, step)) && a == lo && b == hi && c == step,
            PartSpec::Fail(m) => r matches Err(e) && e@ == m,
        },
{
    if lo < min || hi > max || lo > hi {
        let mut e = String::new();
        let part = string_of(v, pa, pb);
        let d = debug_str(part.as_str());
        e.append(d.as_str());
        e.append(" out of range ");
        push_dec(&mut e, min as u64);
        e.append("..=");
        push_dec(&mut e, max as u64);
        return Err(e);
    }
    Ok((lo, hi, step))
}

/// The name value of `v[lo..hi]` in the field `min..=max`.
fn name_value(v: &Vec<char>, lo: usize, hi: usize, min: u32, max: u32) -> (r: Option<u32>)
    requires
        lo <= hi <= v.len(),
    ensures
        r == name_value_spec(v@.subrange(lo as int, hi as int), min, max),
{
    if hi - lo != 3 {
        return None;
    }
    let a = v[lo];
    let b = v[lo + 1];
    let c = v[lo + 2];
    let ghost t = v@.subrange(lo as int, hi as int);
    assert(t[0] == a && t[1] == b && t[2] == c);
    if min == 0 && max == 7 {
        if (a == 's' || a == 'S') && (b == 'u' || b == 'U') && (c == 'n' || c == 'N') {
            Some(0)
        } else if (a == 'm' || a == 'M') && (b == 'o' || b == 'O') && (c == 'n' || c == 'N') {
            Some(1)
        } else if (a == 't' || a == 'T') && (b == 'u' || b == 'U') && (c == 'e' || c == 'E') {
            Some(2)
        } else if (a == 'w' || a == 'W') && (b == 'e' || b == 'E') && (c == 'd' || c == 'D') {
            Some(3)
        } else if (a == 't' || a == 'T') && (b == 'h' || b == 'H') && (c == 'u' || c == 'U') {
            Some(4)
        } else if (a == 'f' || a == 'F') && (b == 'r' || b == 'R') && (c == 'i' || c == 'I') {
            Some(5)
        } else if (a == 's' || a == 'S') && (b == 'a' || b == 'A') && (c == 't' || c == 'T') {
            Some(6)
        } else {
            None
        }
    } else if min == 1 && max == 12 {
        if (a == 'j' || a == 'J') && (b == 'a' || b == 'A') && (c == 'n' || c == 'N') {
            Some(1)
        } else if (a == 'f' || a == 'F') && (b == 'e' || b == 'E') && (c == 'b' || c == 'B') {
            Some(2)
        } else if (a == 'm' || a == 'M') && (b == 'a' || b == 'A') && (c == 'r' || c == 'R') {
            Some(3)
        } else if (a == 'a' || a == 'A') && (b == 'p' || b == 'P') && (c == 'r' || c == 'R') {
            Some(4)
        } else if (a == 'm' || a == 'M') && (b == 'a' || b == 'A') && (c == 'y' || c == 'Y') {
            Some(5)
        } else if (a == 'j' || a == 'J') && (b == 'u' || b == 'U') && (c == 'n' || c == 'N') {
            Some(6)
        } else if (a == 'j' || a == 'J') && (b == 'u' || b == 'U') && (c == 'l' || c == 'L') {
            Some(7)
        } else if (a == 'a' || a == 'A') && (b == 'u' || b == 'U') && (c == 'g' || c == 'G') {
            Some(8)
        } else if (a == 's' || a == 'S') && (b == 'e' || b == 'E') && (c == 'p' || c == 'P') {
            Some(9)
        } else if (a == 'o' || a == 'O') && (b == 'c' || b == 'C') && (c == 't' || c == 'T') {
            Some(10)
        } else if (a == 'n' || a == 'N') && (b == 'o' || b == 'O') && (c == 'v' || c == 'V') {
            Some(11)
        } else if (a == 'd' || a == 'D') && (b == 'e' || b == 'E') && (c == 'c' || c == 'C') {
            Some(12)
        } else {
            None
        }
    } else {
        None
    }
}

/// The value `v[lo..hi]` of a field: a number, or a name the field accepts.
fn parse_value(v: &Vec<char>, lo: usize, hi: usize, min: u32, max: u32) -> (r: Option<u32>)
    requires
        lo <= hi <= v.len(),
    ensures
        r == value_spec(v@.subrange(lo as int, hi as int), min, max),
{
    match parse_u32(v, lo, hi) {
        Some(n) => Some(n),
        None => name_value(v, lo, hi, min, max),
    }
}

/// Parses the part `v[pa..pb]`.
fn parse_part(v: &Vec<char>, pa: usize, pb: usize, min: u32, max: u32) -> (r: Result<(u32, u32, u32), String>)
    requires
        pa <= pb <= v.len(),
    ensures
        match part_spec(v@, pa as int, pb as int, min, max) {
            PartSpec::Steps(a, b, c) => r matches Ok((lo, hi, st)) && a == lo && b == hi && c == st && st > 0,
            PartSpec::Fail(m) => r matches Err(e) && e@ == m,
        },
{
    proof {
        lemma_find_char(v@, pa as int, pb as int, '/');
    }
    let slash = find_char_exec(v, pa, pb, '/');
    let step: u32 = if slash < pb {
        match parse_u32(v, slash + 1, pb) {
            Some(s) => s,
            None => {
                return Err(msg_with_debug("bad step in ", v, pa, pb));
            },
        }
    } else {
        1
    };
    if step == 0 {
        return Err(msg_with_debug("zero step in ", v, pa, pb));
    }
    let star = range_eq(v, pa, slash, "*");
    proof {
        reveal_strlit("*");
        assert("*"@ =~= seq!['*']);
    }
    if star {
        return range_check_exec(v, pa, pb, min, max, step, min, max);
    }
    proof {
        lemma_find_char(v@, pa as int, slash as int, '-');
    }
    let dash = find_char_exec(v, pa, slash, '-');
    if dash < slash {
        let a = parse_value(v, pa, dash, min, max);
        let b = parse_value(v, dash + 1, slash, min, max);
        match (a, b) {
            (Some(a), Some(b)) => range_check_exec(v, pa, pb, a, b, step, min, max),
            _ => Err(msg_with_debug("bad range in ", v, pa, pb)),
        }
    } else {
        match parse_value(v, pa, slash, min, max) {
            Some(x) => range_check_exec(v, pa, pb, x, x, step, min, max),
            None => Err(msg_with_debug("bad value ", v, pa, slash)),
        }
    }
}

impl FieldSet {
    pub open spec fn has(self, v: int) -> bool {
        bit(self.mask, v)
    }

    pub fn contains(&self, v: u32) -> (r: bool)
        ensures
            r == self.has(v as int),
    {
        v < 64 && self.mask & (1u64 << v) != 0
    }
    /// Parse the field `v[fa..fb]` constrained to `min..=max`.
    pub fn parse_range(v: &Vec<char>, fa: usize, fb: usize, min: u32, max: u32) -> (r: FieldParse)
        requires
            fa <= fb <= v.len(),
            max < 64,
        ensures
            match field_spec(v@, fa as int, fb as int, min, max) {
                FieldSpec::Valid => r matches FieldParse::Parsed(fs) && fs.star == (v@.subrange(fa as int, fb as int) == seq!['*'])
                    && forall|w: int| #[trigger] fs.has(w) == in_field(v@, fa as int, fb as int, min, max, w),
                FieldSpec::Fail(m) => r matches FieldParse::Fail(e) && e@ == m,
            },
    {
        let star = range_eq(v, fa, fb, "*");
        proof {
            reveal_strlit("*");
            assert("*"@ =~= seq!['*']);
        }
        let mut mask: u64 = 0;
        let mut p = fa;
        proof {
            assert forall|w: int| #[trigger] bit(0u64, w) == false by {
                lemma_bit_zero(w);
            }
        }
        loop
            invariant
                fa <= p <= fb <= v.len(),
                max < 64,
                star == (v@.subrange(fa as int, fb as int) == seq!['*']),
                field_spec(v@, fa as int, fb as int, min, max) == field_spec(v@, p as int, fb as int, min, max),
                forall|w: int| #[trigger] in_field(v@, fa as int, fb as int, min, max, w) == (bit(mask, w) || in_field(v@, p as int, fb as int, min, max, w)),
            decreases fb - p,
        {
            proof {
                lemma_find_char(v@, p as int, fb as int, ',');
            }
            let q = find_char_exec(v, p, fb, ',');
            let ghost m0 = mask;
            match parse_part(v, p, q, min, max) {
                Ok((lo, hi, st)) => {
                    proof {
                        lemma_range_check_steps(v@.subrange(p as int, q as int), v@, p as int, q as int, min, max);
                    }
                    mask = add_steps(mask, lo, hi, st);
                    if q < fb {
                        assert forall|w: int| #[trigger] in_field(v@, fa as int, fb as int, min, max, w) == (bit(mask, w) || in_field(v@, (q + 1) as int, fb as int, min, max, w)) by {
                            assert(bit(mask, w) == (bit(m0, w) || in_steps(lo as int, hi as int, st as int, w)));
                        }
                        p = q + 1;
                    } else {
                        assert forall|w: int| #[trigger] in_field(v@, fa as int, fb as int, min, max, w) == bit(mask, w) by {
                            assert(bit(mask, w) == (bit(m0, w) || in_steps(lo as int, hi as int, st as int, w)));
                        }
                        return FieldParse::Parsed(FieldSet { mask, star });
                    }
                },
                Err(e) => {
                    return FieldParse::Fail(e);
                },
            }
        }
    }
}

/// A part that parses to `Steps` stays within `min..=max`.
proof fn lemma_range_check_steps(part: Seq<char>, s: Seq<char>, pa: int, pb: int, min: u32, max: u32)
    ensures
        part_spec(s, pa, pb, min, max) matches PartSpec::Steps(lo, hi, st) ==> min <= lo && lo <= hi && hi <= max && st > 0,
{
}


/// What parsing five fields denotes.
pub enum CronSpec {
    Valid,
    Fail(Seq<char>),
}

/// The first field in parse order (day-of-week, minute, hour, day-of-month, month)
/// that fails decides the outcome.
pub open spec fn fields_outcome(r: Seq<FieldSpec>) -> CronSpec
    decreases r.len(),
{
    if r.len() == 0 {
        CronSpec::Valid
    } else {
        match r[0] {
            FieldSpec::Fail(m) => CronSpec::Fail(m),
            FieldSpec::Valid => fields_outcome(r.drop_first()),
        }
    }
}

/// Parsing the fields `f` (positions in `s`) as minute, hour, day-of-month, month
/// and day-of-week.
pub open spec fn cron_spec(s: Seq<char>, f: Seq<(int, int)>) -> CronSpec {
    if f.len() != 5 {
        CronSpec::Fail("expected 5 cron fields, got "@ + dec(f.len()))
    } else {
        fields_outcome(seq![
            field_spec(s, f[4].0, f[4].1, 0, 7),
            field_spec(s, f[0].0, f[0].1, 0, 59),
            field_spec(s, f[1].0, f[1].1, 0, 23),
            field_spec(s, f[2].0, f[2].1, 1, 31),
            field_spec(s, f[3].0, f[3].1, 1, 12),
        ])
    }
}

pub open spec fn field_denotes(fs: FieldSet, s: Seq<char>, a: int, b: int, min: u32, max: u32) -> bool {
    &&& fs.star == (s.subrange(a, b) == seq!['*'])
    &&& forall|w: int| #[trigger] fs.has(w) == in_field(s, a, b, min, max, w)
}

/// `c` is what the five fields `f` of `s` say; a 7 in day-of-week also means Sunday (0).
pub open spec fn cron_denotes(c: Cron, s: Seq<char>, f: Seq<(int, int)>) -> bool {
    &&& f.len() == 5
    &&& field_denotes(c.min, s, f[0].0, f[0].1, 0, 59)
    &&& field_denotes(c.hour, s, f[1].0, f[1].1, 0, 23)
    &&& field_denotes(c.dom, s, f[2].0, f[2].1, 1, 31)
    &&& field_denotes(c.mon, s, f[3].0, f[3].1, 1, 12)
    &&& c.dow.star == (s.subrange(f[4].0, f[4].1) == seq!['*'])
    &&& forall|w: int| #[trigger] c.dow.has(w) == (in_field(s, f[4].0, f[4].1, 0, 7, w)
        || (w == 0 && in_field(s, f[4].0, f[4].1, 0, 7, 7)))
}

/// `fs` is `*` over `min..=max`.
pub open spec fn is_all(fs: FieldSet, min: int, max: int) -> bool {
    &&& fs.star
    &&& forall|w: int| #[trigger] fs.has(w) == (min <= w <= max)
}

/// `fs` is the single value `v`, written as a number.
pub open spec fn is_single(fs: FieldSet, v: int) -> bool {
    &&& !fs.star
    &&& forall|w: int| #[trigger] fs.has(w) == (w == v)
}

/// The cron behind `@minutely` (0), `@hourly` (1) and `@daily` / `@midnight` (2):
/// `* * * * *`, `0 * * * *` and `0 0 * * *`.
pub open spec fn keyword_denotes(c: Cron, which: int) -> bool {
    &&& (if which == 0 { is_all(c.min, 0, 59) } else { is_single(c.min, 0) })
    &&& (if which == 2 { is_single(c.hour, 0) } else { is_all(c.hour, 0, 23) })
    &&& is_all(c.dom, 1, 31)
    &&& is_all(c.mon, 1, 12)
    &&& is_all(c.dow, 0, 7)
}

/// Outcome of parsing five cron fields.
pub enum CronParse {
    Parsed(Cron),
    Fail(String),
}

proof fn lemma_bit_or_one(m: u64, w: int)
    ensures
        bit(m | 1u64, w) == (bit(m, w) || w == 0),
{
    if 0 <= w < 64 {
        assert(1u64 << 0u64 == 1u64) by (bit_vector);
        lemma_bit_or(m, 0, w as u64);
    }
}

impl FieldSet {
    /// `*` over `min..=max`.
    pub fn all(min: u32, max: u32) -> (r: FieldSet)
        requires
            min <= max < 64,
        ensures
            is_all(r, min as int, max as int),
    {
        proof {
            assert forall|w: int| #[trigger] bit(0u64, w) == false by {
                lemma_bit_zero(w);
            }
            lemma_zero_mod(1);
            assert forall|w: int| (#[trigger] (w % 1)) == 0 by {
                vstd::arithmetic::div_mod::lemma_mod_multiples_vanish(w, 0, 1);
                assert(1 * w + 0 == w);
            }
        }
        let mask = add_steps(0, min, max, 1);
        proof {
            assert forall|w: int| #[trigger] bit(mask, w) == (min <= w <= max) by {
                assert((w - min) % 1 == 0);
            }
        }
        FieldSet { mask, star: true }
    }

    /// The single value `v`.
    pub fn single(v: u32) -> (r: FieldSet)
        requires
            v < 64,
        ensures
            is_single(r, v as int),
    {
        proof {
            assert forall|w: int| #[trigger] bit(0u64, w) == false by {
                lemma_bit_zero(w);
            }
            lemma_zero_mod(1);
        }
        let mask = add_steps(0, v, v, 1);
        FieldSet { mask, star: false }
    }
}

impl Cron {
    /// Does this expression fire during the minute of `dt`? As in classic cron, when
    /// both day fields are restricted either may match; if one is `*` both must.
    pub open spec fn fires_at(self, dt: DateTime) -> bool {
        let dom_ok = self.dom.has(dt.day as int);
        let dow_ok = self.dow.has(dt.dow as int);
        &&& self.min.has(dt.m as int)
        &&& self.hour.has(dt.h as int)
        &&& self.mon.has(dt.month as int)
        &&& if self.dom.star || self.dow.star {
            dom_ok && dow_ok
        } else {
            dom_ok || dow_ok
        }
    }

    /// Does this expression fire during the minute of `dt`?
    pub fn matches(&self, dt: &DateTime) -> (r: bool)
        ensures
            r == self.fires_at(*dt),
    {
        if !self.min.contains(dt.m as u32) || !self.hour.contains(dt.h as u32) {
            return false;
        }
        if !self.mon.contains(dt.month) {
            return false;
        }
        let dom_ok = self.dom.contains(dt.day);
        let dow_ok = self.dow.contains(dt.dow);
        if self.dom.star || self.dow.star {
            dom_ok && dow_ok
        } else {
            dom_ok || dow_ok
        }
    }

    /// The cron of a keyword: 0 `@minutely`, 1 `@hourly`, 2 `@daily`.
    pub fn keyword(which: u8) -> (r: Cron)
        requires
            which <= 2,
        ensures
            keyword_denotes(r, which as int),
    {
        let min = if which == 0 { FieldSet::all(0, 59) } else { FieldSet::single(0) };
        let hour = if which == 2 { FieldSet::single(0) } else { FieldSet::all(0, 23) };
        Cron {
            min,
            hour,
            dom: FieldSet::all(1, 31),
            mon: FieldSet::all(1, 12),
            dow: FieldSet::all(0, 7),
        }
    }

    /// Parse the five fields at positions `f` of `v`: day-of-week first, then
    /// minute, hour, day-of-month and month. A 7 in day-of-week also sets Sunday (0).
    pub fn parse_fields(v: &Vec<char>, f: &Vec<(usize, usize)>) -> (r: CronParse)
        requires
            forall|i: int| #![trigger f@[i]] 0 <= i < f.len() ==> f@[i].0 <= f@[i].1 && f@[i].1 <= v.len(),
        ensures
            match cron_spec(v@, f@.map_values(|p: (usize, usize)| (p.0 as int, p.1 as int))) {
                CronSpec::Valid => r matches CronParse::Parsed(c) && cron_denotes(c, v@, f@.map_values(|p: (usize, usize)| (p.0 as int, p.1 as int))),
                CronSpec::Fail(m) => r matches CronParse::Fail(e) && e@ == m,
            },
    {
        let ghost fi = f@.map_values(|p: (usize, usize)| (p.0 as int, p.1 as int));
        if f.len() != 5 {
            let mut e = String::from_str("expected 5 cron fields, got ");
            push_dec(&mut e, f.len() as u64);
            return CronParse::Fail(e);
        }
        assert(fi[0] == (f@[0].0 as int, f@[0].1 as int));
        assert(fi[1] == (f@[1].0 as int, f@[1].1 as int));
        assert(fi[2] == (f@[2].0 as int, f@[2].1 as int));
        assert(fi[3] == (f@[3].0 as int, f@[3].1 as int));
        assert(fi[4] == (f@[4].0 as int, f@[4].1 as int));
        let ghost r4 = field_spec(v@, fi[4].0, fi[4].1, 0, 7);
        let ghost r0 = field_spec(v@, fi[0].0, fi[0].1, 0, 59);
        let ghost r1 = field_spec(v@, fi[1].0, fi[1].1, 0, 23);
        let ghost r2 = field_spec(v@, fi[2].0, fi[2].1, 1, 31);
        let ghost r3 = field_spec(v@, fi[3].0, fi[3].1, 1, 12);
        let ghost all = seq![r4, r0, r1, r2, r3];
        assert(all.drop_first() =~= seq![r0, r1, r2, r3]);
        assert(seq![r0, r1, r2, r3].drop_first() =~= seq![r1, r2, r3]);
        assert(seq![r1, r2, r3].drop_first() =~= seq![r2, r3]);
        assert(seq![r2, r3].drop_first() =~= seq![r3]);
        assert(seq![r3].drop_first() =~= Seq::<FieldSpec>::empty());
        assert(cron_spec(v@, fi) == fields_outcome(all));
        proof {
            reveal_with_fuel(fields_outcome, 6);
        }
        assert(all[0] == r4);
        assert(seq![r0, r1, r2, r3][0] == r0);
        assert(seq![r1, r2, r3][0] == r1);
        assert(seq![r2, r3][0] == r2);
        assert(seq![r3][0] == r3);
        let mut dow = match FieldSet::parse_range(v, f[4].0, f[4].1, 0, 7) {
            FieldParse::Parsed(fs) => fs,
            FieldParse::Fail(e) => { return CronParse::Fail(e); },
        };
        let ghost dow0 = dow;
        let has7 = dow.contains(7);
        assert(dow0.has(7) == in_field(v@, fi[4].0, fi[4].1, 0, 7, 7));
        if has7 {
            dow.mask = dow.mask | 1;
            proof {
                assert forall|w: int| #[trigger] dow.has(w) == (in_field(v@, fi[4].0, fi[4].1, 0, 7, w)
                    || (w == 0 && in_field(v@, fi[4].0, fi[4].1, 0, 7, 7))) by {
                    lemma_bit_or_one(dow0.mask, w);
                    assert(dow0.has(w) == in_field(v@, fi[4].0, fi[4].1, 0, 7, w));
                }
            }
        } else {
            proof {
                assert forall|w: int| #[trigger] dow.has(w) == (in_field(v@, fi[4].0, fi[4].1, 0, 7, w)
                    || (w == 0 && in_field(v@, fi[4].0, fi[4].1, 0, 7, 7))) by {
                    assert(dow0.has(w) == in_field(v@, fi[4].0, fi[4].1, 0, 7, w));
                }
            }
        }
        let min = match FieldSet::parse_range(v, f[0].0, f[0].1, 0, 59) {
            FieldParse::Parsed(fs) => fs,
            FieldParse::Fail(e) => { return CronParse::Fail(e); },
        };
        let hour = match FieldSet::parse_range(v, f[1].0, f[1].1, 0, 23) {
            FieldParse::Parsed(fs) => fs,
            FieldParse::Fail(e) => { return CronParse::Fail(e); },
        };
        let dom = match FieldSet::parse_range(v, f[2].0, f[2].1, 1, 31) {
            FieldParse::Parsed(fs) => fs,
            FieldParse::Fail(e) => { return CronParse::Fail(e); },
        };
        let mon = match FieldSet::parse_range(v, f[3].0, f[3].1, 1, 12) {
            FieldParse::Parsed(fs) => fs,
            FieldParse::Fail(e) => { return CronParse::Fail(e); },
        };
        CronParse::Parsed(Cron { min, hour, dom, mon, dow })
    }
}
/// A day field written `*` holds every day it can name: day-of-month `1..=31`,
/// day-of-week `0..=7`.
pub open spec fn stars_hold_all(c: Cron) -> bool {
    &&& c.dom.star ==> forall|w: int| 1 <= w <= 31 ==> #[trigger] c.dom.has(w)
    &&& c.dow.star ==> forall|w: int| 0 <= w <= 7 ==> #[trigger] c.dow.has(w)
}

/// When one day field is `*`, the other decides: a cron fires at `dt` exactly when
/// its minute, hour and month fields hold `dt`'s values and so does the day field
/// that is not `*`. When both are restricted, either day may match.
pub proof fn law_star_day_fields(c: Cron, dt: DateTime)
    requires
        stars_hold_all(c),
        1 <= dt.day <= 31,
        dt.dow <= 7,
    ensures
        c.dow.star ==> (c.fires_at(dt) == (c.min.has(dt.m as int) && c.hour.has(dt.h as int)
            && c.mon.has(dt.month as int) && c.dom.has(dt.day as int))),
        c.dom.star ==> (c.fires_at(dt) == (c.min.has(dt.m as int) && c.hour.has(dt.h as int)
            && c.mon.has(dt.month as int) && c.dow.has(dt.dow as int))),
        !c.dom.star && !c.dow.star ==> (c.fires_at(dt) == (c.min.has(dt.m as int) && c.hour.has(dt.h as int)
            && c.mon.has(dt.month as int) && (c.dom.has(dt.day as int) || c.dow.has(dt.dow as int)))),
{
    if c.dow.star {
        assert(c.dow.has(dt.dow as int));
    }
    if c.dom.star {
        assert(c.dom.has(dt.day as int));
    }
}

/// A field written `*` holds exactly the values `min..=max`.
pub proof fn lemma_star_field(s: Seq<char>, a: int, b: int, min: u32, max: u32, w: int)
    requires
        0 <= a <= b <= s.len(),
        s.subrange(a, b) == seq!['*'],
        min <= max,
    ensures
        in_field(s, a, b, min, max, w) == (min <= w <= max),
{
    assert(s.subrange(a, b).len() == 1);
    assert(b == a + 1);
    assert(s[a] == s.subrange(a, b)[0]);
    assert(s[a] == '*');
    assert(find_char(s, a + 1, b, ',') == a + 1);
    assert(find_char(s, a, b, ',') == b);
    assert(find_char(s, a + 1, b, '/') == a + 1);
    assert(find_char(s, a, b, '/') == b);
    assert(s.subrange(a, b) == seq!['*']);
    lemma_zero_mod(1);
    vstd::arithmetic::div_mod::lemma_mod_multiples_vanish(w - min, 0, 1);
    assert(1 * (w - min) + 0 == w - min);
}

/// In a cron read from text, a day field written `*` holds every day it can name.
pub proof fn law_parsed_stars(c: Cron, s: Seq<char>, f: Seq<(int, int)>)
    requires
        cron_denotes(c, s, f),
        forall|i: int| 0 <= i < f.len() ==> 0 <= #[trigger] f[i].0 <= f[i].1 <= s.len(),
    ensures
        stars_hold_all(c),
{
    if c.dom.star {
        assert forall|w: int| 1 <= w <= 31 implies #[trigger] c.dom.has(w) by {
            lemma_star_field(s, f[2].0, f[2].1, 1, 31, w);
        }
    }
    if c.dow.star {
        assert forall|w: int| 0 <= w <= 7 implies #[trigger] c.dow.has(w) by {
            lemma_star_field(s, f[4].0, f[4].1, 0, 7, w);
        }
    }
}

/// The weekday names of the clock's date line name the same days in the weekday
/// field: `Sun` is 0, `Mon` 1, and so on to `Sat` 6; and a 7 also means Sunday.
pub proof fn law_weekday_names_agree(k: int)
    requires
        0 <= k < 7,
    ensures
        value_spec(weekday_name_spec(k), 0, 7) == Some(k as u32),
        value_spec(weekday_name_spec(k), 0, 59) is None,
{
    reveal_strlit("Sun");
    reveal_strlit("Mon");
    reveal_strlit("Tue");
    reveal_strlit("Wed");
    reveal_strlit("Thu");
    reveal_strlit("Fri");
    reveal_strlit("Sat");
    let t = weekday_name_spec(k);
    assert(k % 7 == k);
    assert(parse_u32_spec(t) is None) by {
        assert(unsigned_body(t) == t);
        assert(!is_digit(t[0]));
    }
}

/// Month names in the month field are the months' numbers, January 1 to December 12.
pub proof fn law_month_names()
    ensures
        value_spec("jan"@, 1, 12) == Some(1u32),
        value_spec("feb"@, 1, 12) == Some(2u32),
        value_spec("mar"@, 1, 12) == Some(3u32),
        value_spec("apr"@, 1, 12) == Some(4u32),
        value_spec("may"@, 1, 12) == Some(5u32),
        value_spec("jun"@, 1, 12) == Some(6u32),
        value_spec("jul"@, 1, 12) == Some(7u32),
        value_spec("aug"@, 1, 12) == Some(8u32),
        value_spec("sep"@, 1, 12) == Some(9u32),
        value_spec("oct"@, 1, 12) == Some(10u32),
        value_spec("nov"@, 1, 12) == Some(11u32),
        value_spec("dec"@, 1, 12) == Some(12u32),
{
    reveal_strlit("jan");
    reveal_strlit("feb");
    reveal_strlit("mar");
    reveal_strlit("apr");
    reveal_strlit("may");
    reveal_strlit("jun");
    reveal_strlit("jul");
    reveal_strlit("aug");
    reveal_strlit("sep");
    reveal_strlit("oct");
    reveal_strlit("nov");
    reveal_strlit("dec");
    assert(!is_digit("jan"@[0]) && unsigned_body("jan"@) == "jan"@);
    assert(!is_digit("feb"@[0]) && unsigned_body("feb"@) == "feb"@);
    assert(!is_digit("mar"@[0]) && unsigned_body("mar"@) == "mar"@);
    assert(!is_digit("apr"@[0]) && unsigned_body("apr"@) == "apr"@);
    assert(!is_digit("may"@[0]) && unsigned_body("may"@) == "may"@);
    assert(!is_digit("jun"@[0]) && unsigned_body("jun"@) == "jun"@);
    assert(!is_digit("jul"@[0]) && unsigned_body("jul"@) == "jul"@);
    assert(!is_digit("aug"@[0]) && unsigned_body("aug"@) == "aug"@);
    assert(!is_digit("sep"@[0]) && unsigned_body("sep"@) == "sep"@);
    assert(!is_digit("oct"@[0]) && unsigned_body("oct"@) == "oct"@);
    assert(!is_digit("nov"@[0]) && unsigned_body("nov"@) == "nov"@);
    assert(!is_digit("dec"@[0]) && unsigned_body("dec"@) == "dec"@);
}

/// In a cron read from text, a 7 in the weekday field also means Sunday (0).
pub proof fn law_sunday_seven(c: Cron, s: Seq<char>, f: Seq<(int, int)>)
    requires
        cron_denotes(c, s, f),
    ensures
        c.dow.has(7) ==> c.dow.has(0),
{
}

} // verus!
