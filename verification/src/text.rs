//! Character-level helpers shared by the parsers: whitespace as `char::is_whitespace`
//! defines it, trimming, searching, integer parsing as `str::parse` does it, and
//! decimal rendering. Positions are indices into one character sequence.
use vstd::prelude::*;

verus! {

/// `char::is_whitespace`: the Unicode `White_Space` property.
pub open spec fn is_ws(c: char) -> bool {
    let u = c as u32;
    ||| (0x09 <= u && u <= 0x0d)
    ||| u == 0x20
    ||| u == 0x85
    ||| u == 0xa0
    ||| u == 0x1680
    ||| (0x2000 <= u && u <= 0x200a)
    ||| u == 0x2028
    ||| u == 0x2029
    ||| u == 0x202f
    ||| u == 0x205f
    ||| u == 0x3000
}

pub open spec fn is_digit(c: char) -> bool {
    '0' <= c && c <= '9'
}

/// First index `j` in `[i, hi)` whose character is not whitespace, or `hi`.
pub open spec fn skip_ws(s: Seq<char>, i: int, hi: int) -> int
    decreases hi - i,
{
    if i >= hi {
        i
    } else if is_ws(s[i]) {
        skip_ws(s, i + 1, hi)
    } else {
        i
    }
}

/// Largest `j` in `[lo, hi]` such that `[lo, j)` ends in a non-whitespace character
/// (or `j == lo`): the end of `s[lo..hi]` with trailing whitespace removed.
pub open spec fn rskip_ws(s: Seq<char>, lo: int, hi: int) -> int
    decreases hi - lo,
{
    if hi <= lo {
        lo
    } else if is_ws(s[hi - 1]) {
        rskip_ws(s, lo, hi - 1)
    } else {
        hi
    }
}

/// First index in `[i, hi)` holding whitespace, or `hi`.
pub open spec fn find_ws(s: Seq<char>, i: int, hi: int) -> int
    decreases hi - i,
{
    if i >= hi {
        i
    } else if is_ws(s[i]) {
        i
    } else {
        find_ws(s, i + 1, hi)
    }
}

/// First index in `[i, hi)` holding `c`, or `hi`.
pub open spec fn find_char(s: Seq<char>, i: int, hi: int, c: char) -> int
    decreases hi - i,
{
    if i >= hi {
        i
    } else if s[i] == c {
        i
    } else {
        find_char(s, i + 1, hi, c)
    }
}

/// `str::trim` of the whole sequence.
pub open spec fn trim(s: Seq<char>) -> Seq<char> {
    let a = skip_ws(s, 0, s.len() as int);
    s.subrange(a, rskip_ws(s, a, s.len() as int))
}

/// True when every character in `[lo, hi)` is whitespace.
pub open spec fn all_ws(s: Seq<char>, lo: int, hi: int) -> bool {
    forall|k: int| lo <= k < hi ==> is_ws(#[trigger] s[k])
}

pub proof fn lemma_skip_ws(s: Seq<char>, i: int, hi: int)
    requires
        0 <= i <= hi <= s.len(),
    ensures
        i <= skip_ws(s, i, hi) <= hi,
        all_ws(s, i, skip_ws(s, i, hi)),
        skip_ws(s, i, hi) < hi ==> !is_ws(s[skip_ws(s, i, hi)]),
    decreases hi - i,
{
    if i < hi && is_ws(s[i]) {
        lemma_skip_ws(s, i + 1, hi);
    }
}

pub proof fn lemma_rskip_ws(s: Seq<char>, lo: int, hi: int)
    requires
        0 <= lo <= hi <= s.len(),
    ensures
        lo <= rskip_ws(s, lo, hi) <= hi,
        all_ws(s, rskip_ws(s, lo, hi), hi),
        rskip_ws(s, lo, hi) > lo ==> !is_ws(s[rskip_ws(s, lo, hi) - 1]),
    decreases hi - lo,
{
    if lo < hi && is_ws(s[hi - 1]) {
        lemma_rskip_ws(s, lo, hi - 1);
    }
}

pub proof fn lemma_find_ws(s: Seq<char>, i: int, hi: int)
    requires
        0 <= i <= hi <= s.len(),
    ensures
        i <= find_ws(s, i, hi) <= hi,
        forall|k: int| i <= k < find_ws(s, i, hi) ==> !is_ws(#[trigger] s[k]),
        find_ws(s, i, hi) < hi ==> is_ws(s[find_ws(s, i, hi)]),
    decreases hi - i,
{
    if i < hi && !is_ws(s[i]) {
        lemma_find_ws(s, i + 1, hi);
    }
}

pub proof fn lemma_find_char(s: Seq<char>, i: int, hi: int, c: char)
    requires
        0 <= i <= hi <= s.len(),
    ensures
        i <= find_char(s, i, hi, c) <= hi,
        forall|k: int| i <= k < find_char(s, i, hi, c) ==> #[trigger] s[k] != c,
        find_char(s, i, hi, c) < hi ==> s[find_char(s, i, hi, c)] == c,
    decreases hi - i,
{
    if i < hi && s[i] != c {
        lemma_find_char(s, i + 1, hi, c);
    }
}

/// Value of a run of ASCII digits read left to right.
pub open spec fn digits_value(s: Seq<char>) -> nat
    decreases s.len(),
{
    if s.len() == 0 {
        0
    } else {
        digits_value(s.drop_last()) * 10 + ((s.last() as u32) - ('0' as u32)) as nat
    }
}

pub open spec fn all_digits(s: Seq<char>) -> bool {
    forall|k: int| 0 <= k < s.len() ==> is_digit(#[trigger] s[k])
}

/// The digits that `str::parse` reads for an integer type: one leading `+` (or `-`
/// for a signed type) is a sign, the rest must be one or more ASCII digits.
pub open spec fn unsigned_body(s: Seq<char>) -> Seq<char> {
    if s.len() > 0 && s[0] == '+' {
        s.drop_first()
    } else {
        s
    }
}

/// `s.parse::<u32>()`.
pub open spec fn parse_u32_spec(s: Seq<char>) -> Option<u32> {
    let d = unsigned_body(s);
    if d.len() > 0 && all_digits(d) && digits_value(d) <= u32::MAX {
        Some(digits_value(d) as u32)
    } else {
        None
    }
}

/// `s.parse::<i64>()` of a run of ASCII digits.
pub open spec fn parse_digits_i64_spec(s: Seq<char>) -> Option<i64> {
    if s.len() > 0 && digits_value(s) <= i64::MAX {
        Some(digits_value(s) as i64)
    } else {
        None
    }
}

pub open spec fn digit_char(d: nat) -> char {
    ((d + ('0' as u32)) as u32) as char
}

/// Decimal rendering of `n`, as `format!("{n}")` gives it.
pub open spec fn dec(n: nat) -> Seq<char>
    decreases n,
{
    if n < 10 {
        seq![digit_char(n)]
    } else {
        dec(n / 10).push(digit_char(n % 10))
    }
}

/// `format!("{:?}", s)` for a string: the quoted, escaped form.
pub uninterp spec fn debug_str_spec(s: Seq<char>) -> Seq<char>;

/// `format!("{:?}", c)` for a character: the quoted, escaped form.
pub uninterp spec fn debug_char_spec(c: char) -> Seq<char>;

/// Appends one character to a string: std's `String::push`, which adds `c`
/// at the end and changes nothing else.
#[verifier::external_body]
pub(crate) fn push_char(s: &mut String, c: char)
    ensures
        final(s)@ == old(s)@.push(c),
{
    s.push(c);
}

/// The `Debug` form of a string: std's `format!("{:?}", s)`. Its text (quotes and
/// escapes) is named, not spelled out, here.
#[verifier::external_body]
pub(crate) fn debug_str(s: &str) -> (r: String)
    ensures
        r@ == debug_str_spec(s@),
{
    format!("{s:?}")
}

/// The `Debug` form of a character: std's `format!("{:?}", c)`. Its text is named,
/// not spelled out, here.
#[verifier::external_body]
pub(crate) fn debug_char(c: char) -> (r: String)
    ensures
        r@ == debug_char_spec(c),
{
    format!("{c:?}")
}

/// `char::is_whitespace`.
pub fn is_whitespace(c: char) -> (r: bool)
    ensures
        r == is_ws(c),
{
    let u = c as u32;
    (0x09 <= u && u <= 0x0d) || u == 0x20 || u == 0x85 || u == 0xa0 || u == 0x1680 || (0x2000
        <= u && u <= 0x200a) || u == 0x2028 || u == 0x2029 || u == 0x202f || u == 0x205f || u
        == 0x3000
}

/// The characters of a string slice, in order.
pub fn chars_of(s: &str) -> (r: Vec<char>)
    ensures
        r@ == s@,
{
    let mut r: Vec<char> = Vec::new();
    for c in it: s.chars()
        invariant
            r@ == it.seq().take(it.index() as int),
            it.seq() == s@,
    {
        r.push(c);
    }
    r
}

/// The string made of `v[lo..hi]`.
pub fn string_of(v: &Vec<char>, lo: usize, hi: usize) -> (r: String)
    requires
        lo <= hi <= v.len(),
    ensures
        r@ == v@.subrange(lo as int, hi as int),
{
    let mut r = String::new();
    append_range(&mut r, v, lo, hi);
    r
}

/// Appends `v[lo..hi]` to `s`.
pub fn append_range(s: &mut String, v: &Vec<char>, lo: usize, hi: usize)
    requires
        lo <= hi <= v.len(),
    ensures
        final(s)@ == old(s)@ + v@.subrange(lo as int, hi as int),
{
    let ghost s0 = s@;
    let mut i = lo;
    while i < hi
        invariant
            lo <= i <= hi <= v.len(),
            s@ == s0 + v@.subrange(lo as int, i as int),
        decreases hi - i,
    {
        push_char(s, v[i]);
        assert(v@.subrange(lo as int, i + 1) == v@.subrange(lo as int, i as int).push(v@[i as int]));
        i = i + 1;
    }
}

/// Appends the decimal digits of `n`.
pub fn push_dec(s: &mut String, n: u64)
    ensures
        final(s)@ == old(s)@ + dec(n as nat),
    decreases n,
{
    if n >= 10 {
        push_dec(s, n / 10);
    }
    let d = (n % 10) as u32;
    let c = char_from_digit(d);
    push_char(s, c);
    assert(dec(n as nat) == (if n < 10 { seq![digit_char(n as nat)] } else { dec((n / 10) as nat).push(digit_char((n % 10) as nat)) }));
    if n < 10 {
        assert(n % 10 == n);
    }
}

fn char_from_digit(d: u32) -> (c: char)
    requires
        d < 10,
    ensures
        c == digit_char(d as nat),
{
    if d == 0 { '0' }
    else if d == 1 { '1' }
    else if d == 2 { '2' }
    else if d == 3 { '3' }
    else if d == 4 { '4' }
    else if d == 5 { '5' }
    else if d == 6 { '6' }
    else if d == 7 { '7' }
    else if d == 8 { '8' }
    else { '9' }
}

/// `skip_ws` computed.
pub fn skip_ws_exec(v: &Vec<char>, i: usize, hi: usize) -> (r: usize)
    requires
        i <= hi <= v.len(),
    ensures
        r == skip_ws(v@, i as int, hi as int),
    decreases hi - i,
{
    if i >= hi {
        i
    } else if is_whitespace(v[i]) {
        skip_ws_exec(v, i + 1, hi)
    } else {
        i
    }
}

/// `rskip_ws` computed.
pub fn rskip_ws_exec(v: &Vec<char>, lo: usize, hi: usize) -> (r: usize)
    requires
        lo <= hi <= v.len(),
    ensures
        r == rskip_ws(v@, lo as int, hi as int),
    decreases hi - lo,
{
    if hi <= lo {
        lo
    } else if is_whitespace(v[hi - 1]) {
        rskip_ws_exec(v, lo, hi - 1)
    } else {
        hi
    }
}

/// `find_ws` computed.
pub fn find_ws_exec(v: &Vec<char>, i: usize, hi: usize) -> (r: usize)
    requires
        i <= hi <= v.len(),
    ensures
        r == find_ws(v@, i as int, hi as int),
    decreases hi - i,
{
    if i >= hi {
        i
    } else if is_whitespace(v[i]) {
        i
    } else {
        find_ws_exec(v, i + 1, hi)
    }
}

/// `find_char` computed.
pub fn find_char_exec(v: &Vec<char>, i: usize, hi: usize, c: char) -> (r: usize)
    requires
        i <= hi <= v.len(),
    ensures
        r == find_char(v@, i as int, hi as int, c),
    decreases hi - i,
{
    if i >= hi {
        i
    } else if v[i] == c {
        i
    } else {
        find_char_exec(v, i + 1, hi, c)
    }
}

/// True when `v[lo..hi]` equals `w`.
pub fn range_eq(v: &Vec<char>, lo: usize, hi: usize, w: &str) -> (r: bool)
    requires
        lo <= hi <= v.len(),
    ensures
        r == (v@.subrange(lo as int, hi as int) == w@),
{
    let wc = chars_of(w);
    if hi - lo != wc.len() {
        return false;
    }
    let mut k: usize = 0;
    while k < wc.len()
        invariant
            hi - lo == wc.len(),
            lo <= hi <= v.len(),
            wc@ == w@,
            k <= wc.len(),
            forall|j: int| 0 <= j < k ==> v@[lo + j] == wc@[j],
        decreases wc.len() - k,
    {
        if v[lo + k] != wc[k] {
            assert(v@.subrange(lo as int, hi as int)[k as int] != w@[k as int]);
            return false;
        }
        k = k + 1;
    }
    assert(v@.subrange(lo as int, hi as int) =~= w@);
    true
}

proof fn lemma_digits_value_push(s: Seq<char>, c: char)
    ensures
        digits_value(s.push(c)) == digits_value(s) * 10 + ((c as u32) - ('0' as u32)) as nat,
{
    assert(s.push(c).drop_last() =~= s);
}

/// Parses `v[lo..hi]`, all ASCII digits, as a `u64` if its value is at most `limit`.
fn parse_digits_upto(v: &Vec<char>, lo: usize, hi: usize, limit: u64) -> (r: Option<u64>)
    requires
        lo <= hi <= v.len(),
        all_digits(v@.subrange(lo as int, hi as int)),
        limit >= 9,
    ensures
        r == (if digits_value(v@.subrange(lo as int, hi as int)) <= limit {
            Some(digits_value(v@.subrange(lo as int, hi as int)) as u64)
        } else {
            None::<u64>
        }),
{
    let mut acc: u64 = 0;
    let mut i = lo;
    while i < hi
        invariant
            lo <= i <= hi <= v.len(),
            all_digits(v@.subrange(lo as int, hi as int)),
            acc as nat == digits_value(v@.subrange(lo as int, i as int)),
            acc <= limit,
            limit >= 9,
        decreases hi - i,
    {
        let c = v[i];
        assert(v@.subrange(lo as int, hi as int)[i - lo] == c);
        assert(is_digit(c));
        let d = (c as u32 - '0' as u32) as u64;
        proof {
            assert(v@.subrange(lo as int, i + 1) == v@.subrange(lo as int, i as int).push(c));
            lemma_digits_value_push(v@.subrange(lo as int, i as int), c);
        }
        if acc > (limit - d) / 10 {
            proof {
                lemma_digits_prefix_monotone(v@.subrange(lo as int, hi as int), (i + 1 - lo) as int);
                assert(v@.subrange(lo as int, hi as int).subrange(0, i + 1 - lo) == v@.subrange(lo as int, i + 1));
                assert(acc * 10 + d > limit) by (nonlinear_arith)
                    requires acc > (limit - d) / 10, d <= 9, limit >= 9;
            }
            return None;
        }
        proof {
            assert(acc * 10 + d <= limit) by (nonlinear_arith)
                requires acc <= (limit - d) / 10, d <= 9;
        }
        acc = acc * 10 + d;
        i = i + 1;
    }
    Some(acc)
}

proof fn lemma_digits_prefix_monotone(s: Seq<char>, k: int)
    requires
        0 <= k <= s.len(),
        all_digits(s),
    ensures
        digits_value(s.subrange(0, k)) <= digits_value(s),
    decreases s.len(),
{
    if k < s.len() {
        assert(s.drop_last() =~= s.subrange(0, s.len() - 1));
        assert(s.drop_last().subrange(0, k) =~= s.subrange(0, k));
        lemma_digits_prefix_monotone(s.drop_last(), k);
    } else {
        assert(s.subrange(0, k) =~= s);
    }
}

/// True when `v[lo..hi]` is all ASCII digits.
fn all_digits_exec(v: &Vec<char>, lo: usize, hi: usize) -> (r: bool)
    requires
        lo <= hi <= v.len(),
    ensures
        r == all_digits(v@.subrange(lo as int, hi as int)),
{
    let mut i = lo;
    while i < hi
        invariant
            lo <= i <= hi <= v.len(),
            forall|k: int| lo <= k < i ==> is_digit(#[trigger] v@[k]),
        decreases hi - i,
    {
        if !('0' <= v[i] && v[i] <= '9') {
            assert(!is_digit(v@.subrange(lo as int, hi as int)[i - lo]));
            return false;
        }
        i = i + 1;
    }
    assert forall|k: int| 0 <= k < hi - lo implies is_digit(#[trigger] v@.subrange(lo as int, hi as int)[k]) by {
        assert(v@.subrange(lo as int, hi as int)[k] == v@[lo + k]);
    }
    true
}

/// `v[lo..hi].parse::<u32>()`.
pub fn parse_u32(v: &Vec<char>, lo: usize, hi: usize) -> (r: Option<u32>)
    requires
        lo <= hi <= v.len(),
    ensures
        r == parse_u32_spec(v@.subrange(lo as int, hi as int)),
{
    let ghost s = v@.subrange(lo as int, hi as int);
    let start = if lo < hi && v[lo] == '+' { lo + 1 } else { lo };
    assert(v@.subrange(start as int, hi as int) == unsigned_body(s));
    if start == hi || !all_digits_exec(v, start, hi) {
        return None;
    }
    match parse_digits_upto(v, start, hi, 0xffff_ffff) {
        Some(n) => Some(n as u32),
        None => None,
    }
}

/// `v[lo..hi].parse::<i64>()` where `v[lo..hi]` is all ASCII digits.
pub fn parse_digits_i64(v: &Vec<char>, lo: usize, hi: usize) -> (r: Option<i64>)
    requires
        lo <= hi <= v.len(),
        all_digits(v@.subrange(lo as int, hi as int)),
    ensures
        r == parse_digits_i64_spec(v@.subrange(lo as int, hi as int)),
{
    if lo == hi {
        return None;
    }
    match parse_digits_upto(v, lo, hi, 0x7fff_ffff_ffff_ffff) {
        Some(n) => Some(n as i64),
        None => None,
    }
}

/// The lines of `s[i..]` as `str::lines` gives them: split after each `\n`, which is
/// dropped together with a `\r` just before it; a final line ending is optional.
pub open spec fn lines_from(s: Seq<char>, i: int) -> Seq<Seq<char>>
    decreases s.len() - i,
{
    if i >= s.len() || i < 0 {
        seq![]
    } else {
        let e = find_char(s, i, s.len() as int, '\n');
        if e < s.len() {
            let end = if e > i && s[e - 1] == '\r' { e - 1 } else { e };
            proof {
                lemma_find_char(s, i, s.len() as int, '\n');
            }
            seq![s.subrange(i, end)] + lines_from(s, e + 1)
        } else {
            seq![s.subrange(i, s.len() as int)]
        }
    }
}

/// `find_ws` is the first index holding whitespace, or `hi` when none does.
pub proof fn lemma_find_ws_at(s: Seq<char>, i: int, hi: int, e: int)
    requires
        0 <= i <= e <= hi <= s.len(),
        forall|k: int| i <= k < e ==> !is_ws(#[trigger] s[k]),
        e < hi ==> is_ws(s[e]),
    ensures
        find_ws(s, i, hi) == e,
    decreases e - i,
{
    if i < e {
        lemma_find_ws_at(s, i + 1, hi, e);
    }
}

/// `find_char` is the first index holding `c`, or `hi` when none does.
pub proof fn lemma_find_char_at(s: Seq<char>, i: int, hi: int, c: char, e: int)
    requires
        0 <= i <= e <= hi <= s.len(),
        forall|k: int| i <= k < e ==> #[trigger] s[k] != c,
        e < hi ==> s[e] == c,
    ensures
        find_char(s, i, hi, c) == e,
    decreases e - i,
{
    if i < e {
        lemma_find_char_at(s, i + 1, hi, c, e);
    }
}

/// True when `l` ends with a carriage return.
pub open spec fn ends_with_cr(l: Seq<char>) -> bool {
    l.len() > 0 && l.last() == '\r'
}

/// No line that `lines_from` gives holds a newline.
pub proof fn lemma_lines_have_no_newline(s: Seq<char>, i: int)
    ensures
        forall|j: int| 0 <= j < lines_from(s, i).len() ==> !(#[trigger] lines_from(s, i)[j]).contains('\n'),
    decreases s.len() - i,
{
    if 0 <= i < s.len() {
        lemma_find_char(s, i, s.len() as int, '\n');
        let e = find_char(s, i, s.len() as int, '\n');
        let end = if e < s.len() && e > i && s[e - 1] == '\r' { e - 1 } else { e };
        let first = s.subrange(i, end);
        assert(!first.contains('\n')) by {
            if first.contains('\n') {
                let k = choose|k: int| 0 <= k < first.len() && first[k] == '\n';
                assert(s[i + k] == '\n');
            }
        }
        if e < s.len() {
            lemma_lines_have_no_newline(s, e + 1);
            assert(lines_from(s, i) == seq![first] + lines_from(s, e + 1));
            assert forall|j: int| 0 <= j < lines_from(s, i).len() implies !(#[trigger] lines_from(s, i)[j]).contains('\n') by {
                if j > 0 {
                    assert(lines_from(s, i)[j] == lines_from(s, e + 1)[j - 1]);
                }
            }
        }
    }
}

/// Reading lines from `s + t` at a position inside `t` reads `t` alone.
proof fn lemma_lines_shift(s: Seq<char>, t: Seq<char>, j: int)
    requires
        0 <= j,
    ensures
        lines_from(s + t, s.len() + j) == lines_from(t, j),
    decreases t.len() - j,
{
    let u = s + t;
    let i = s.len() + j;
    if j < t.len() {
        lemma_find_char(t, j, t.len() as int, '\n');
        let et = find_char(t, j, t.len() as int, '\n');
        assert forall|k: int| i <= k < s.len() + et implies #[trigger] u[k] != '\n' by {
            assert(u[k] == t[k - s.len()]);
        }
        lemma_find_char_at(u, i, u.len() as int, '\n', s.len() + et);
        if et < t.len() {
            lemma_lines_shift(s, t, et + 1);
            let endt = if et > j && t[et - 1] == '\r' { et - 1 } else { et };
            assert(u.subrange(i, s.len() + endt) =~= t.subrange(j, endt));
        } else {
            assert(u.subrange(i, u.len() as int) =~= t.subrange(j, t.len() as int));
        }
    }
}

/// Lines of `s + t`, where `s` is empty or ends with a newline, are the lines of
/// `s` followed by those of `t`.
proof fn lemma_lines_concat(s: Seq<char>, t: Seq<char>, i: int)
    requires
        0 <= i <= s.len(),
        s.len() == 0 || s.last() == '\n',
    ensures
        lines_from(s + t, i) == lines_from(s, i) + lines_from(t, 0),
    decreases s.len() - i,
{
    let u = s + t;
    if i == s.len() {
        lemma_lines_shift(s, t, 0);
        assert(lines_from(s, i) =~= Seq::<Seq<char>>::empty());
        assert(lines_from(s, i) + lines_from(t, 0) =~= lines_from(t, 0));
    } else {
        lemma_find_char(s, i, s.len() as int, '\n');
        let e = find_char(s, i, s.len() as int, '\n');
        if e == s.len() {
            assert(s[s.len() - 1] != '\n');
        }
        assert forall|k: int| i <= k < e implies #[trigger] u[k] != '\n' by {
            assert(u[k] == s[k]);
        }
        lemma_find_char_at(u, i, u.len() as int, '\n', e);
        lemma_lines_concat(s, t, e + 1);
        let end = if e > i && s[e - 1] == '\r' { e - 1 } else { e };
        assert(u.subrange(i, end) =~= s.subrange(i, end));
        assert(lines_from(u, i) == seq![s.subrange(i, end)] + lines_from(u, e + 1));
        assert(lines_from(s, i) == seq![s.subrange(i, end)] + lines_from(s, e + 1));
        assert(lines_from(u, i) =~= lines_from(s, i) + lines_from(t, 0));
    }
}

/// A line and its newline read back as that one line.
pub proof fn lemma_lines_of_one(l: Seq<char>)
    requires
        !l.contains('\n'),
        !ends_with_cr(l),
    ensures
        lines_from(l.push('\n'), 0) == seq![l],
{
    let u = l.push('\n');
    assert forall|k: int| 0 <= k < l.len() implies #[trigger] u[k] != '\n' by {
        assert(u[k] == l[k]);
        assert(!l.contains('\n'));
        if l[k] == '\n' {
            assert(l.contains('\n'));
        }
    }
    lemma_find_char_at(u, 0, u.len() as int, '\n', l.len() as int);
    assert(u.subrange(0, l.len() as int) =~= l);
    if l.len() > 0 {
        assert(u[l.len() - 1] == l.last());
    }
    assert(lines_from(u, l.len() as int + 1) =~= Seq::<Seq<char>>::empty());
    assert(lines_from(u, 0) =~= seq![l]);
}

/// Adding a final newline to a text that lacks one (and does not end with `\r`)
/// leaves its lines unchanged.
proof fn lemma_lines_newline_end(s: Seq<char>, i: int)
    requires
        0 <= i < s.len(),
        s.last() != '\n',
        s.last() != '\r',
    ensures
        lines_from(s.push('\n'), i) == lines_from(s, i),
    decreases s.len() - i,
{
    let u = s.push('\n');
    lemma_find_char(s, i, s.len() as int, '\n');
    let e = find_char(s, i, s.len() as int, '\n');
    assert forall|k: int| i <= k < e implies #[trigger] u[k] != '\n' by {
        assert(u[k] == s[k]);
    }
    if e < s.len() {
        assert(u[e] == s[e]);
        lemma_find_char_at(u, i, u.len() as int, '\n', e);
        assert(e + 1 < s.len());
        lemma_lines_newline_end(s, e + 1);
        let end = if e > i && s[e - 1] == '\r' { e - 1 } else { e };
        assert(u.subrange(i, end) =~= s.subrange(i, end));
        assert(lines_from(u, i) == seq![u.subrange(i, end)] + lines_from(u, e + 1));
    } else {
        lemma_find_char_at(u, i, u.len() as int, '\n', s.len() as int);
        assert(u[s.len() - 1] == s.last());
        assert(u.subrange(i, s.len() as int) =~= s.subrange(i, s.len() as int));
        assert(lines_from(u, s.len() as int + 1) =~= Seq::<Seq<char>>::empty());
        assert(lines_from(u, i) =~= seq![s.subrange(i, s.len() as int)]);
    }
}

/// Text ending in `line` and a newline, after text that is empty or ends with a
/// newline, reads as the earlier lines followed by `line`.
pub proof fn lemma_lines_then_line(s: Seq<char>, line: Seq<char>)
    requires
        s.len() == 0 || s.last() == '\n',
        !line.contains('\n'),
        !ends_with_cr(line),
    ensures
        lines_from(s + line.push('\n'), 0) == lines_from(s, 0).push(line),
{
    lemma_lines_concat(s, line.push('\n'), 0);
    lemma_lines_of_one(line);
    assert(lines_from(s, 0) + seq![line] =~= lines_from(s, 0).push(line));
}

/// A text that lacks a final newline reads the same with one added.
pub proof fn lemma_lines_add_newline(s: Seq<char>)
    requires
        s.len() > 0,
        s.last() != '\n',
        s.last() != '\r',
    ensures
        lines_from(s.push('\n'), 0) == lines_from(s, 0),
{
    lemma_lines_newline_end(s, 0);
}

/// `s.trim()` as a `String`.
pub fn trim_string(s: &str) -> (r: String)
    ensures
        r@ == trim(s@),
{
    let v = chars_of(s);
    proof {
        lemma_skip_ws(v@, 0, v@.len() as int);
    }
    let a = skip_ws_exec(&v, 0, v.len());
    proof {
        lemma_rskip_ws(v@, a as int, v@.len() as int);
    }
    let b = rskip_ws_exec(&v, a, v.len());
    string_of(&v, a, b)
}

/// Trimming a trimmed text changes nothing.
pub proof fn lemma_trim_idempotent(s: Seq<char>)
    ensures
        trim(trim(s)) == trim(s),
{
    let n = s.len() as int;
    lemma_skip_ws(s, 0, n);
    let a = skip_ws(s, 0, n);
    lemma_rskip_ws(s, a, n);
    let b = rskip_ws(s, a, n);
    let t = s.subrange(a, b);
    assert(t == trim(s));
    if t.len() > 0 {
        assert(t[0] == s[a]);
        assert(t[t.len() - 1] == s[b - 1]);
        assert(skip_ws(t, 0, t.len() as int) == 0);
        assert(rskip_ws(t, 0, t.len() as int) == t.len());
    }
    assert(trim(t) =~= t);
}

/// `text.lines()`, each line as a `String`.
pub fn split_lines(text: &str) -> (r: Vec<String>)
    ensures
        r@.map_values(|l: String| l@) == lines_from(text@, 0),
{
    let v = chars_of(text);
    let n = v.len();
    let mut out: Vec<String> = Vec::new();
    let mut i: usize = 0;
    while i < n
        invariant
            i <= n,
            n == v@.len(),
            v@ == text@,
            out@.map_values(|l: String| l@) + lines_from(v@, i as int) == lines_from(v@, 0),
        decreases n - i,
    {
        proof {
            lemma_find_char(v@, i as int, n as int, '\n');
        }
        let e = find_char_exec(&v, i, n, '\n');
        let ghost out0 = out@;
        if e < n {
            let end = if e > i && v[e - 1] == '\r' { e - 1 } else { e };
            let line = string_of(&v, i, end);
            out.push(line);
            assert(out@.map_values(|l: String| l@) =~= out0.map_values(|l: String| l@).push(line@));
            assert(lines_from(v@, i as int) == seq![v@.subrange(i as int, end as int)] + lines_from(v@, e + 1));
            assert(out@.map_values(|l: String| l@) + lines_from(v@, e + 1) =~= out0.map_values(|l: String| l@) + lines_from(v@, i as int));
            i = e + 1;
        } else {
            let line = string_of(&v, i, n);
            out.push(line);
            assert(out@.map_values(|l: String| l@) =~= out0.map_values(|l: String| l@).push(line@));
            assert(lines_from(v@, n as int) =~= Seq::<Seq<char>>::empty());
            assert(out@.map_values(|l: String| l@) + lines_from(v@, n as int) =~= out0.map_values(|l: String| l@) + lines_from(v@, i as int));
            i = n;
        }
    }
    assert(lines_from(v@, i as int) =~= Seq::<Seq<char>>::empty());
    assert(out@.map_values(|l: String| l@) + lines_from(v@, i as int) =~= out@.map_values(|l: String| l@));
    out
}

/// `s.parse::<usize>()`.
pub open spec fn parse_usize_spec(s: Seq<char>) -> Option<usize> {
    let d = unsigned_body(s);
    if d.len() > 0 && all_digits(d) && digits_value(d) <= usize::MAX {
        Some(digits_value(d) as usize)
    } else {
        None
    }
}

/// `v[lo..hi].parse::<usize>()`.
pub fn parse_usize(v: &Vec<char>, lo: usize, hi: usize) -> (r: Option<usize>)
    requires
        lo <= hi <= v.len(),
    ensures
        r == parse_usize_spec(v@.subrange(lo as int, hi as int)),
{
    let ghost s = v@.subrange(lo as int, hi as int);
    let start = if lo < hi && v[lo] == '+' { lo + 1 } else { lo };
    assert(v@.subrange(start as int, hi as int) == unsigned_body(s));
    if start == hi || !all_digits_exec(v, start, hi) {
        return None;
    }
    match parse_digits_upto(v, start, hi, usize::MAX as u64) {
        Some(n) => Some(n as usize),
        None => None,
    }
}

/// True when the string `a` equals `w`.
pub fn str_is(a: &str, w: &str) -> (r: bool)
    ensures
        r == (a@ == w@),
{
    let v = chars_of(a);
    let r = range_eq(&v, 0, v.len(), w);
    assert(v@.subrange(0, v@.len() as int) =~= v@);
    r
}

/// `parts` joined with `sep` between them.
pub open spec fn join(parts: Seq<Seq<char>>, sep: Seq<char>) -> Seq<char>
    decreases parts.len(),
{
    if parts.len() == 0 {
        seq![]
    } else if parts.len() == 1 {
        parts[0]
    } else {
        join(parts.drop_last(), sep) + sep + parts.last()
    }
}

/// `parts.join(sep)`.
pub fn join_strings(parts: &Vec<String>, sep: &str) -> (r: String)
    ensures
        r@ == join(parts@.map_values(|p: String| p@), sep@),
{
    let ghost pv = parts@.map_values(|p: String| p@);
    let mut r = String::new();
    let mut i: usize = 0;
    while i < parts.len()
        invariant
            i <= parts@.len(),
            pv == parts@.map_values(|p: String| p@),
            r@ == join(pv.take(i as int), sep@),
        decreases parts.len() - i,
    {
        let ghost pre = pv.take(i as int);
        assert(pv.take(i + 1).drop_last() =~= pre);
        assert(pv.take(i + 1).last() == parts@[i as int]@);
        if i > 0 {
            r.append(sep);
        } else {
            assert(pv.take(1) =~= seq![parts@[0]@]);
            assert(r@ =~= Seq::<char>::empty());
        }
        r.append(parts[i].as_str());
        if i == 0 {
            assert(r@ =~= parts@[0]@);
        }
        i = i + 1;
    }
    assert(pv.take(parts@.len() as int) =~= pv);
    r
}

} // verus!
