//! The fat-cat mascot shown when a reminder pops.
//!
//! Pick a built-in cat by name or supply your own ASCII art (one art row per
//! line of text).
use vstd::prelude::*;
use crate::text::{chars_of, is_ws, lines_from, lemma_skip_ws, range_eq, skip_ws_exec, split_lines};

verus! {

/// All built-in cat names, in menu order. `chonk` is the default.
pub fn names() -> (r: Vec<&'static str>)
    ensures
        r@.len() == 5,
        r@[0]@ == "chonk"@,
        r@[1]@ == "kitten"@,
        r@[2]@ == "loaf"@,
        r@[3]@ == "sleepy"@,
        r@[4]@ == "peek"@,
{
    let mut r: Vec<&'static str> = Vec::new();
    r.push("chonk");
    r.push("kitten");
    r.push("loaf");
    r.push("sleepy");
    r.push("peek");
    r
}

/// The default cat used when none is chosen.
pub fn default_name() -> (r: &'static str)
    ensures
        r@ == "chonk"@,
{
    "chonk"
}

/// The art rows of the built-in cat `name`, if there is one.
pub open spec fn builtin_art(name: Seq<char>) -> Option<Seq<Seq<char>>> {
    if name == "chonk"@ {
        Some(seq![" /\\_/\\"@, "( o.o )"@, "(  w  )"@, "(     )"@, "(_____)"@])
    } else if name == "kitten"@ {
        Some(seq![" /\\_/\\"@, "( ^.^ )"@, " (u_u) "@])
    } else if name == "loaf"@ {
        Some(seq![" ╱|、"@, "(˚ˎ 。7"@, " |、˜〵"@, " じしˍ,)ノ"@])
    } else if name == "sleepy"@ {
        Some(seq![
            "      |\\      _,,,---,,_"@,
            "      /,`.-'`'    -.  ;-;;,_"@,
            "     |,4-  ) )-,_..;\\ (  `'-'"@,
            "    '---''(_/--'  `-'\\_)"@,
        ])
    } else if name == "peek"@ {
        Some(seq!["  /\\     /\\"@, " (  . _ .  )"@, "  o  ___  o"@, " /|_|___|_|\\"@])
    } else {
        None
    }
}

fn strings_of(parts: &[&str]) -> (r: Vec<String>)
    ensures
        r@.len() == parts@.len(),
        forall|i: int| 0 <= i < parts@.len() ==> (#[trigger] r@[i])@ == parts@[i]@,
{
    let mut r: Vec<String> = Vec::new();
    let mut i: usize = 0;
    while i < parts.len()
        invariant
            i <= parts@.len(),
            r@.len() == i,
            forall|k: int| 0 <= k < i ==> (#[trigger] r@[k])@ == parts@[k]@,
        decreases parts.len() - i,
    {
        r.push(String::from_str(parts[i]));
        i = i + 1;
    }
    r
}

/// True when `name` equals `w`.
fn name_is(name: &str, w: &str) -> (r: bool)
    ensures
        r == (name@ == w@),
{
    let v = chars_of(name);
    let r = range_eq(&v, 0, v.len(), w);
    assert(v@.subrange(0, v@.len() as int) =~= v@);
    r
}

/// Art rows for a built-in cat, or `None` if the name is unknown.
pub fn builtin(name: &str) -> (r: Option<Vec<String>>)
    ensures
        match builtin_art(name@) {
            None => r is None,
            Some(art) => r matches Some(v) && v@.map_values(|l: String| l@) == art,
        },
{
    let art: &[&str] = if name_is(name, "chonk") {
        &[" /\\_/\\", "( o.o )", "(  w  )", "(     )", "(_____)"]
    } else if name_is(name, "kitten") {
        &[" /\\_/\\", "( ^.^ )", " (u_u) "]
    } else if name_is(name, "loaf") {
        &[" ╱|、", "(˚ˎ 。7", " |、˜〵", " じしˍ,)ノ"]
    } else if name_is(name, "sleepy") {
        &[
            "      |\\      _,,,---,,_",
            "      /,`.-'`'    -.  ;-;;,_",
            "     |,4-  ) )-,_..;\\ (  `'-'",
            "    '---''(_/--'  `-'\\_)",
        ]
    } else if name_is(name, "peek") {
        &["  /\\     /\\", " (  . _ .  )", "  o  ___  o", " /|_|___|_|\\"]
    } else {
        return None;
    };
    let v = strings_of(art);
    assert(v@.map_values(|l: String| l@) =~= builtin_art(name@)->Some_0);
    Some(v)
}

/// The message for an unknown cat name.
pub open spec fn unknown_cat_message(name: Seq<char>) -> Seq<char> {
    "unknown cat: "@ + name + " (try: chonk, kitten, loaf, sleepy, peek)"@
}

/// Resolve a built-in cat: the given name, else the default.
pub fn resolve_named(name: Option<&str>) -> (r: Result<Vec<String>, String>)
    ensures
        ({
            let n = match name {
                Some(s) => s@,
                None => "chonk"@,
            };
            match builtin_art(n) {
                Some(art) => r matches Ok(v) && v@.map_values(|l: String| l@) == art,
                None => r matches Err(e) && e@ == unknown_cat_message(n),
            }
        }),
{
    let n = match name {
        Some(s) => s,
        None => default_name(),
    };
    match builtin(n) {
        Some(v) => Ok(v),
        None => {
            let mut e = String::from_str("unknown cat: ");
            e.append(n);
            e.append(" (try: chonk, kitten, loaf, sleepy, peek)");
            Err(e)
        },
    }
}

/// `l` without trailing `\r` and `\n` characters.
pub open spec fn strip_line_end(l: Seq<char>) -> Seq<char>
    decreases l.len(),
{
    if l.len() > 0 && (l.last() == '\r' || l.last() == '\n') {
        strip_line_end(l.drop_last())
    } else {
        l
    }
}

/// True when every character of `l` is whitespace.
pub open spec fn is_blank(l: Seq<char>) -> bool {
    forall|k: int| 0 <= k < l.len() ==> is_ws(#[trigger] l[k])
}

/// The art rows of a cat file's text: its lines, each without trailing line-end
/// characters.
pub open spec fn art_rows(text: Seq<char>) -> Seq<Seq<char>> {
    lines_from(text, 0).map_values(|l: Seq<char>| strip_line_end(l))
}

/// The message for a cat file with no art.
pub open spec fn no_art_message(path: Seq<char>) -> Seq<char> {
    "cat file "@ + path + " has no art"@
}

fn strip_line_end_exec(l: &String) -> (r: String)
    ensures
        r@ == strip_line_end(l@),
{
    let v = chars_of(l.as_str());
    let mut end = v.len();
    assert(v@.subrange(0, v@.len() as int) =~= v@);
    while end > 0 && (v[end - 1] == '\r' || v[end - 1] == '\n')
        invariant
            end <= v@.len(),
            strip_line_end(v@.subrange(0, end as int)) == strip_line_end(l@),
            v@ == l@,
        decreases end,
    {
        assert(v@.subrange(0, end as int).drop_last() =~= v@.subrange(0, end - 1));
        end = end - 1;
    }
    assert(v@.subrange(0, v@.len() as int) =~= v@);
    crate::text::string_of(&v, 0, end)
}

fn is_blank_exec(l: &String) -> (r: bool)
    ensures
        r == is_blank(l@),
{
    let v = chars_of(l.as_str());
    proof {
        lemma_skip_ws(v@, 0, v@.len() as int);
    }
    let k = skip_ws_exec(&v, 0, v.len());
    k == v.len()
}

/// A custom cat from the text of the file at `path`: one art row per line; a
/// file whose rows are all blank is an error.
pub fn cat_from_text(path: &str, text: &str) -> (r: Result<Vec<String>, String>)
    ensures
        ({
            let rows = art_rows(text@);
            if forall|k: int| 0 <= k < rows.len() ==> is_blank(#[trigger] rows[k]) {
                r matches Err(e) && e@ == no_art_message(path@)
            } else {
                r matches Ok(v) && v@.map_values(|l: String| l@) == rows
            }
        }),
{
    let raw = split_lines(text);
    let ghost lines = lines_from(text@, 0);
    let mut rows: Vec<String> = Vec::new();
    let mut all_blank = true;
    let mut i: usize = 0;
    while i < raw.len()
        invariant
            i <= raw@.len(),
            raw@.map_values(|l: String| l@) == lines,
            lines == lines_from(text@, 0),
            rows@.len() == i,
            forall|k: int| 0 <= k < i ==> (#[trigger] rows@[k])@ == strip_line_end(lines[k]),
            all_blank == (forall|k: int| 0 <= k < i ==> is_blank(#[trigger] strip_line_end(lines[k]))),
        decreases raw.len() - i,
    {
        assert(raw@[i as int]@ == lines[i as int]);
        let row = strip_line_end_exec(&raw[i]);
        if !is_blank_exec(&row) {
            all_blank = false;
        }
        rows.push(row);
        i = i + 1;
    }
    let ghost art = art_rows(text@);
    assert(rows@.map_values(|l: String| l@) =~= art);
    assert(art.len() == lines.len());
    assert forall|k: int| 0 <= k < art.len() implies #[trigger] art[k] == strip_line_end(lines[k]) by {}
    if all_blank {
        assert forall|k: int| 0 <= k < art.len() implies is_blank(#[trigger] art[k]) by {
            assert(art[k] == strip_line_end(lines[k]));
        }
        let mut e = String::from_str("cat file ");
        e.append(path);
        e.append(" has no art");
        Err(e)
    } else {
        assert(exists|k: int| 0 <= k < lines.len() && !is_blank(#[trigger] strip_line_end(lines[k])));
        let ghost k = choose|k: int| 0 <= k < lines.len() && !is_blank(#[trigger] strip_line_end(lines[k]));
        assert(!is_blank(art[k]));
        Ok(rows)
    }
}

/// Approximate display width of a character: 2 above U+1100 (CJK and other
/// full-width glyphs), else 1.
pub open spec fn char_width(c: char) -> int {
    if (c as u32) > 0x1100 { 2 } else { 1 }
}

/// Display width of `s` in terminal columns.
pub open spec fn disp_width_spec(s: Seq<char>) -> int
    decreases s.len(),
{
    if s.len() == 0 {
        0
    } else {
        disp_width_spec(s.drop_last()) + char_width(s.last())
    }
}

proof fn lemma_disp_width_bound(s: Seq<char>)
    ensures
        s.len() <= disp_width_spec(s) <= 2 * s.len(),
    decreases s.len(),
{
    if s.len() > 0 {
        lemma_disp_width_bound(s.drop_last());
    }
}

proof fn lemma_disp_width_concat(a: Seq<char>, b: Seq<char>)
    ensures
        disp_width_spec(a + b) == disp_width_spec(a) + disp_width_spec(b),
    decreases b.len(),
{
    if b.len() > 0 {
        lemma_disp_width_concat(a, b.drop_last());
        assert((a + b).drop_last() =~= a + b.drop_last());
        assert((a + b).last() == b.last());
    } else {
        assert(a + b =~= a);
    }
}

proof fn lemma_disp_width_ascii(a: Seq<char>)
    requires
        forall|k: int| 0 <= k < a.len() ==> (#[trigger] a[k] as u32) < 128,
    ensures
        disp_width_spec(a) == a.len(),
    decreases a.len(),
{
    if a.len() > 0 {
        assert(a.last() == a[a.len() - 1]);
        lemma_disp_width_ascii(a.drop_last());
    }
}

/// Display widths add up over concatenation; every character counts once or
/// twice; ASCII text is as wide as it is long.
pub proof fn law_disp_width(a: Seq<char>, b: Seq<char>)
    ensures
        disp_width_spec(a + b) == disp_width_spec(a) + disp_width_spec(b),
        a.len() <= disp_width_spec(a) <= 2 * a.len(),
        (forall|k: int| 0 <= k < a.len() ==> (#[trigger] a[k] as u32) < 128) ==> disp_width_spec(a) == a.len(),
{
    lemma_disp_width_concat(a, b);
    lemma_disp_width_bound(a);
    if forall|k: int| 0 <= k < a.len() ==> (#[trigger] a[k] as u32) < 128 {
        lemma_disp_width_ascii(a);
    }
}

/// Approximate display width of `s` in terminal columns (CJK/full-width glyphs
/// count as two). Good enough for sizing the popup box.
pub fn disp_width(s: &str) -> (r: usize)
    requires
        disp_width_spec(s@) <= usize::MAX,
    ensures
        r == disp_width_spec(s@),
{
    let v = chars_of(s);
    let mut w: usize = 0;
    let mut i: usize = 0;
    while i < v.len()
        invariant
            i <= v@.len(),
            v@ == s@,
            disp_width_spec(s@) <= usize::MAX,
            w == disp_width_spec(v@.take(i as int)),
        decreases v.len() - i,
    {
        assert(v@.take(i + 1).drop_last() =~= v@.take(i as int));
        proof {
            lemma_disp_width_prefix(v@, i + 1);
        }
        let c = v[i];
        if (c as u32) > 0x1100 && !((c as u32) < 0x80) {
            w = w + 2;
        } else {
            w = w + 1;
        }
        i = i + 1;
    }
    assert(v@.take(v@.len() as int) =~= v@);
    w
}

proof fn lemma_disp_width_prefix(s: Seq<char>, k: int)
    requires
        0 <= k <= s.len(),
    ensures
        disp_width_spec(s.take(k)) <= disp_width_spec(s),
    decreases s.len(),
{
    if k < s.len() {
        assert(s.drop_last().take(k) =~= s.take(k));
        lemma_disp_width_prefix(s.drop_last(), k);
    } else {
        assert(s.take(k) =~= s);
    }
}

/// The widest of `rows`, 0 when there are none.
pub open spec fn max_width(rows: Seq<Seq<char>>) -> int
    decreases rows.len(),
{
    if rows.len() == 0 {
        0
    } else {
        let w = disp_width_spec(rows.last());
        let m = max_width(rows.drop_last());
        if w > m { w } else { m }
    }
}

/// Widest row of `cat`, in display columns.
pub fn width(cat: &[String]) -> (r: usize)
    requires
        forall|k: int| 0 <= k < cat@.len() ==> disp_width_spec((#[trigger] cat@[k])@) <= usize::MAX,
    ensures
        r == max_width(cat@.map_values(|l: String| l@)),
{
    let ghost rows = cat@.map_values(|l: String| l@);
    let mut w: usize = 0;
    let mut i: usize = 0;
    while i < cat.len()
        invariant
            i <= cat@.len(),
            rows == cat@.map_values(|l: String| l@),
            forall|k: int| 0 <= k < cat@.len() ==> disp_width_spec((#[trigger] cat@[k])@) <= usize::MAX,
            w == max_width(rows.take(i as int)),
        decreases cat.len() - i,
    {
        assert(rows.take(i + 1).drop_last() =~= rows.take(i as int));
        assert(rows.take(i + 1).last() == cat@[i as int]@);
        let d = disp_width(cat[i].as_str());
        if d > w {
            w = d;
        }
        i = i + 1;
    }
    assert(rows.take(cat@.len() as int) =~= rows);
    w
}

/// A cat, or the error, as values.
pub open spec fn cat_view(r: Result<Vec<String>, String>) -> Result<Seq<Seq<char>>, Seq<char>> {
    match r {
        Ok(v) => Ok(v@.map_values(|l: String| l@)),
        Err(e) => Err(e@),
    }
}

/// The built-in cat of that name (the default when none is given), or the error.
pub open spec fn named_cat_spec(name: Option<Seq<char>>) -> Result<Seq<Seq<char>>, Seq<char>> {
    let n = match name {
        Some(s) => s,
        None => "chonk"@,
    };
    match builtin_art(n) {
        Some(art) => Ok(art),
        None => Err(unknown_cat_message(n)),
    }
}

/// The cat in the text of the file at `path`, or the error.
pub open spec fn file_cat_spec(path: Seq<char>, text: Seq<char>) -> Result<Seq<Seq<char>>, Seq<char>> {
    let rows = art_rows(text);
    if forall|k: int| 0 <= k < rows.len() ==> is_blank(#[trigger] rows[k]) {
        Err(no_art_message(path))
    } else {
        Ok(rows)
    }
}

/// Resolve a cat: an explicit file wins (given with what reading it gave: its text,
/// or the reason it could not be read), then a built-in name, then the default.
pub fn resolve(name: Option<&str>, file: Option<(&str, Result<String, String>)>) -> (r: Result<Vec<String>, String>)
    ensures
        cat_view(r) == match file {
            Some((p, Ok(text))) => file_cat_spec(p@, text@),
            Some((p, Err(e))) => Err("cannot read cat file "@ + p@ + ": "@ + e@),
            None => named_cat_spec(match name {
                Some(s) => Some(s@),
                None => None,
            }),
        },
{
    match file {
        Some((p, Ok(text))) => cat_from_text(p, text.as_str()),
        Some((p, Err(e))) => {
            let mut m = String::from_str("cannot read cat file ");
            m.append(p);
            m.append(": ");
            m.append(e.as_str());
            Err(m)
        },
        None => resolve_named(name),
    }
}

} // verus!
