//! Turn a `HH:MM:SS` string into big block rows.
//!
//! Each glyph pixel is scaled to `px_w` columns x `px_h` rows of solid block
//! characters. A row is split into runs: every lit pixel is a run of blocks of
//! its own, and the blank columns between lit pixels form unlit runs. Colouring
//! the lit runs (a vertical gradient) is left to the caller.
use vstd::prelude::*;
use crate::font::{glyph, glyph_rows, glyph_width, law_glyph_shape, GLYPH_H};
use crate::text::{chars_of, push_char, rskip_ws, rskip_ws_exec, lemma_rskip_ws, string_of};

verus! {

/// Solid cell for a lit pixel.
pub const CELL: char = '\u{2588}';

/// How much to magnify one glyph pixel into terminal cells.
#[derive(Clone, Copy, Debug, PartialEq, Eq)]
pub struct Scale {
    /// Columns of blocks per lit pixel.
    pub px_w: usize,
    /// Rows of blocks per lit pixel.
    pub px_h: usize,
    /// Blank pixel-columns between adjacent glyphs.
    pub gap: usize,
}

/// Default scale used by non-interactive modes (snapshot/gallery/plain).
pub fn default_scale() -> (r: Scale)
    ensures
        r == (Scale { px_w: 2, px_h: 2, gap: 1 }),
{
    Scale { px_w: 2, px_h: 2, gap: 1 }
}

/// The candidate scales, largest first.
pub open spec fn candidate_list() -> Seq<Scale> {
    seq![
        Scale { px_w: 2, px_h: 2, gap: 1 },
        Scale { px_w: 2, px_h: 1, gap: 1 },
        Scale { px_w: 1, px_h: 2, gap: 1 },
        Scale { px_w: 1, px_h: 1, gap: 1 },
    ]
}

/// Candidate scales, largest first. `best_scale` walks these to find the
/// biggest one that fits the available area.
pub fn candidates() -> (r: Vec<Scale>)
    ensures
        r@ == candidate_list(),
{
    let mut r: Vec<Scale> = Vec::new();
    r.push(Scale { px_w: 2, px_h: 2, gap: 1 });
    r.push(Scale { px_w: 2, px_h: 1, gap: 1 });
    r.push(Scale { px_w: 1, px_h: 2, gap: 1 });
    r.push(Scale { px_w: 1, px_h: 1, gap: 1 });
    assert(r@ =~= candidate_list());
    r
}

pub open spec fn height_spec(scale: Scale) -> int {
    GLYPH_H * scale.px_h
}

/// Total rendered height in terminal rows for `scale`.
pub fn render_height(scale: Scale) -> (r: usize)
    requires
        height_spec(scale) <= usize::MAX,
    ensures
        r == height_spec(scale),
{
    GLYPH_H * scale.px_h
}

/// Rendered width of the characters `cs` in columns: each glyph is its pixel
/// width times `px_w`, with `px_w * gap` blank columns between adjacent glyphs.
pub open spec fn width_spec(cs: Seq<char>, scale: Scale) -> int
    decreases cs.len(),
{
    if cs.len() == 0 {
        0
    } else {
        width_spec(cs.drop_last(), scale) + (if cs.len() >= 2 { scale.px_w * scale.gap } else { 0int })
            + glyph_width(cs.last()) * scale.px_w
    }
}

proof fn lemma_width_monotone(cs: Seq<char>, k: int, scale: Scale)
    requires
        0 <= k <= cs.len(),
    ensures
        width_spec(cs.take(k), scale) <= width_spec(cs, scale),
        width_spec(cs, scale) >= 0,
    decreases cs.len(),
{
    if cs.len() > 0 {
        if k < cs.len() {
            assert(cs.drop_last().take(k) =~= cs.take(k));
            lemma_width_monotone(cs.drop_last(), k, scale);
        } else {
            assert(cs.take(k) =~= cs);
            lemma_width_monotone(cs.drop_last(), k - 1, scale);
        }
        assert(glyph_width(cs.last()) * scale.px_w >= 0) by (nonlinear_arith)
            requires glyph_width(cs.last()) >= 1;
        assert(scale.px_w * scale.gap >= 0) by (nonlinear_arith);
    }
}

/// Rendered pixel width of `text` in terminal columns at `scale`.
pub fn clock_width(text: &str, scale: Scale) -> (r: usize)
    requires
        width_spec(text@, scale) <= usize::MAX,
    ensures
        r == width_spec(text@, scale),
{
    let chars = chars_of(text);
    let mut w: usize = 0;
    let mut i: usize = 0;
    while i < chars.len()
        invariant
            i <= chars.len(),
            chars@ == text@,
            width_spec(text@, scale) <= usize::MAX,
            w == width_spec(chars@.take(i as int), scale),
        decreases chars.len() - i,
    {
        let ghost pre = chars@.take(i as int);
        let ghost next = chars@.take(i + 1);
        assert(next.drop_last() =~= pre);
        proof {
            lemma_width_monotone(chars@, i + 1, scale);
            lemma_width_monotone(pre, i as int, scale);
            law_glyph_shape(chars@[i as int]);
            assert(pre.take(i as int) =~= pre);
        }
        let g = glyph(chars[i]);
        assert(g@[0]@ == glyph_rows(chars@[i as int])[0]);
        let gw = chars_of(g[0]).len();
        if i > 0 {
            w = w + scale.px_w * scale.gap;
        }
        w = w + gw * scale.px_w;
        i = i + 1;
    }
    assert(chars@.take(chars.len() as int) =~= chars@);
    w
}

/// Largest candidate scale whose rendered `text` fits within `max_w` columns
/// and `max_h` rows. Falls back to the smallest candidate if none fit.
pub open spec fn fits(text: Seq<char>, scale: Scale, max_w: int, max_h: int) -> bool {
    width_spec(text, scale) <= max_w && height_spec(scale) <= max_h
}

/// The first candidate from `i` on that fits, or the smallest candidate.
pub open spec fn best_from(text: Seq<char>, max_w: int, max_h: int, i: int) -> Scale
    decreases 4 - i,
{
    if i >= 4 || i < 0 {
        candidate_list()[3]
    } else if fits(text, candidate_list()[i], max_w, max_h) {
        candidate_list()[i]
    } else {
        best_from(text, max_w, max_h, i + 1)
    }
}

proof fn lemma_width_scales(cs: Seq<char>, a: Scale, b: Scale)
    requires
        a.px_w <= b.px_w,
        a.gap == b.gap,
    ensures
        width_spec(cs, a) <= width_spec(cs, b),
    decreases cs.len(),
{
    if cs.len() > 0 {
        lemma_width_scales(cs.drop_last(), a, b);
        assert(glyph_width(cs.last()) * a.px_w <= glyph_width(cs.last()) * b.px_w) by (nonlinear_arith)
            requires a.px_w <= b.px_w, glyph_width(cs.last()) >= 0;
        assert(a.px_w * a.gap <= b.px_w * b.gap) by (nonlinear_arith)
            requires a.px_w <= b.px_w, a.gap == b.gap;
    }
}

/// Largest candidate scale whose rendered `text` fits within `max_w` columns
/// and `max_h` rows. Falls back to the smallest candidate if none fit.
pub fn best_scale(text: &str, max_w: usize, max_h: usize) -> (r: Scale)
    requires
        width_spec(text@, Scale { px_w: 2, px_h: 2, gap: 1 }) <= usize::MAX,
    ensures
        r == best_from(text@, max_w as int, max_h as int, 0),
{
    let cands = candidates();
    let mut i: usize = 0;
    while i < cands.len()
        invariant
            cands@ == candidate_list(),
            i <= 4,
            width_spec(text@, Scale { px_w: 2, px_h: 2, gap: 1 }) <= usize::MAX,
            best_from(text@, max_w as int, max_h as int, 0) == best_from(text@, max_w as int, max_h as int, i as int),
        decreases 4 - i,
    {
        let s = cands[i];
        proof {
            lemma_width_scales(text@, s, Scale { px_w: 2, px_h: 2, gap: 1 });
        }
        if clock_width(text, s) <= max_w && render_height(s) <= max_h {
            return s;
        }
        i = i + 1;
    }
    cands[3]
}

/// The chosen scale always keeps a gap between glyphs, and it fits whenever some
/// candidate fits.
pub proof fn law_best_scale(text: Seq<char>, max_w: int, max_h: int)
    ensures
        best_from(text, max_w, max_h, 0).gap >= 1,
        (exists|k: int| 0 <= k < 4 && fits(text, #[trigger] candidate_list()[k], max_w, max_h))
            ==> fits(text, best_from(text, max_w, max_h, 0), max_w, max_h),
        forall|k: int| 0 <= k < 4 ==> (#[trigger] candidate_list()[k]).gap >= 1,
{
    reveal_with_fuel(best_from, 5);
}

/// The candidates run from the default scale (two columns and two rows per pixel)
/// down to one cell per pixel, never growing; the chosen scale is a candidate, and
/// no candidate before it fits. When none fits, the smallest is taken.
pub proof fn law_largest_fitting_scale(text: Seq<char>, max_w: int, max_h: int)
    ensures
        candidate_list().len() == 4,
        candidate_list()[0] == (Scale { px_w: 2, px_h: 2, gap: 1 }),
        candidate_list()[3] == (Scale { px_w: 1, px_h: 1, gap: 1 }),
        forall|k: int, j: int| 0 <= k < j < 4 ==> candidate_list()[k].px_w * candidate_list()[k].px_h
            >= #[trigger] candidate_list()[j].px_w * candidate_list()[j].px_h
            && #[trigger] candidate_list()[k].px_w >= 1,
        exists|j: int| 0 <= j < 4 && best_from(text, max_w, max_h, 0) == #[trigger] candidate_list()[j]
            && (fits(text, candidate_list()[j], max_w, max_h) || j == 3)
            && forall|k: int| 0 <= k < j ==> !fits(text, #[trigger] candidate_list()[k], max_w, max_h),
{
    reveal_with_fuel(best_from, 5);
    let c = candidate_list();
    assert(c[0].px_w == 2 && c[0].px_h == 2);
    assert(c[1].px_w == 2 && c[1].px_h == 1);
    assert(c[2].px_w == 1 && c[2].px_h == 2);
    assert(c[3].px_w == 1 && c[3].px_h == 1);
    assert(c[0].px_w * c[0].px_h == 4);
    assert(c[1].px_w * c[1].px_h == 2);
    assert(c[2].px_w * c[2].px_h == 2);
    assert(c[3].px_w * c[3].px_h == 1);
    assert forall|k: int, j: int| 0 <= k < j < 4 implies c[k].px_w * c[k].px_h
        >= #[trigger] c[j].px_w * c[j].px_h && #[trigger] c[k].px_w >= 1 by {
        assert(k == 0 || k == 1 || k == 2);
        assert(j == 1 || j == 2 || j == 3);
    }
    if fits(text, c[0], max_w, max_h) {
        assert(best_from(text, max_w, max_h, 0) == c[0]);
    } else if fits(text, c[1], max_w, max_h) {
        assert(best_from(text, max_w, max_h, 0) == c[1]);
    } else if fits(text, c[2], max_w, max_h) {
        assert(best_from(text, max_w, max_h, 0) == c[2]);
    } else {
        assert(best_from(text, max_w, max_h, 0) == c[3]);
    }
}

/// A named colour scheme: a top→bottom RGB gradient over the digits.
#[derive(Clone, Copy)]
pub struct Theme {
    pub name: &'static str,
    pub top: (u8, u8, u8),
    pub bottom: (u8, u8, u8),
    /// Dark canvas colour behind the digits.
    pub bg: (u8, u8, u8),
}

/// The names of the built-in themes, in order.
pub open spec fn theme_names() -> Seq<Seq<char>> {
    seq!["aurora"@, "sunset"@, "matrix"@, "ice"@]
}

/// Built-in themes; cycle through them to compare beautification options.
pub fn themes() -> (r: Vec<Theme>)
    ensures
        r@.len() == 4,
        forall|k: int| 0 <= k < 4 ==> (#[trigger] r@[k]).name@ == theme_names()[k],
        r@[0].name@ == "aurora"@ && r@[0].top == (128u8, 245u8, 224u8) && r@[0].bottom == (46u8, 96u8, 224u8) && r@[0].bg == (12u8, 14u8, 20u8),
        r@[1].name@ == "sunset"@ && r@[1].top == (255u8, 214u8, 120u8) && r@[1].bottom == (232u8, 62u8, 122u8) && r@[1].bg == (20u8, 12u8, 18u8),
        r@[2].name@ == "matrix"@ && r@[2].top == (190u8, 255u8, 190u8) && r@[2].bottom == (18u8, 122u8, 44u8) && r@[2].bg == (8u8, 14u8, 8u8),
        r@[3].name@ == "ice"@ && r@[3].top == (238u8, 242u8, 248u8) && r@[3].bottom == (108u8, 132u8, 176u8) && r@[3].bg == (12u8, 14u8, 20u8),
{
    let mut r: Vec<Theme> = Vec::new();
    r.push(Theme { name: "aurora", top: (128, 245, 224), bottom: (46, 96, 224), bg: (12, 14, 20) });
    r.push(Theme { name: "sunset", top: (255, 214, 120), bottom: (232, 62, 122), bg: (20, 12, 18) });
    r.push(Theme { name: "matrix", top: (190, 255, 190), bottom: (18, 122, 44), bg: (8, 14, 8) });
    r.push(Theme { name: "ice", top: (238, 242, 248), bottom: (108, 132, 176), bg: (12, 14, 20) });
    r
}

/// One run of a rendered row: lit blocks or blank columns.
pub struct Run {
    pub lit: bool,
    pub text: String,
}

/// `n` copies of `c`.
pub open spec fn repeat(c: char, n: int) -> Seq<char> {
    Seq::new(n as nat, |_i: int| c)
}

/// A pixel row `bits` scaled by `px_w`: a block per lit pixel, spaces otherwise.
pub open spec fn expand(bits: Seq<char>, px_w: int) -> Seq<char>
    decreases bits.len(),
{
    if bits.len() == 0 {
        seq![]
    } else {
        expand(bits.drop_last(), px_w) + repeat(if bits.last() == '1' { CELL } else { ' ' }, px_w)
    }
}

/// Pixel row `row` of the characters `cs` rendered at `scale`, gaps included.
pub open spec fn row_text(cs: Seq<char>, scale: Scale, row: int) -> Seq<char>
    decreases cs.len(),
{
    if cs.len() == 0 {
        seq![]
    } else {
        row_text(cs.drop_last(), scale, row) + (if cs.len() >= 2 {
            repeat(' ', scale.px_w * scale.gap)
        } else {
            seq![]
        }) + expand(glyph_rows(cs.last())[row], scale.px_w as int)
    }
}

/// The text of runs, in order.
pub open spec fn runs_text(runs: Seq<Run>) -> Seq<char>
    decreases runs.len(),
{
    if runs.len() == 0 {
        seq![]
    } else {
        runs_text(runs.drop_last()) + runs.last().text@
    }
}

/// `runs` splits a row into spans: every lit run is one pixel (`px_w` blocks),
/// every unlit run is a non-empty stretch of spaces, and no two unlit runs touch.
pub open spec fn well_split(runs: Seq<Run>, px_w: int) -> bool {
    &&& forall|k: int| 0 <= k < runs.len() && (#[trigger] runs[k]).lit ==> runs[k].text@ == repeat(CELL, px_w)
    &&& forall|k: int| 0 <= k < runs.len() && !(#[trigger] runs[k]).lit ==> runs[k].text@.len() > 0
        && runs[k].text@ == repeat(' ', runs[k].text@.len() as int)
    &&& forall|k: int| 0 <= k < runs.len() - 1 ==> (#[trigger] runs[k]).lit || runs[k + 1].lit
}

/// The number of lit runs.
pub open spec fn lit_runs(runs: Seq<Run>) -> int
    decreases runs.len(),
{
    if runs.len() == 0 {
        0
    } else {
        lit_runs(runs.drop_last()) + if runs.last().lit { 1int } else { 0 }
    }
}

/// The number of lit pixels (`1`s) in `bits`.
pub open spec fn ones(bits: Seq<char>) -> int
    decreases bits.len(),
{
    if bits.len() == 0 {
        0
    } else {
        ones(bits.drop_last()) + if bits.last() == '1' { 1int } else { 0 }
    }
}

/// The number of lit pixels in pixel row `row` of the characters `cs`.
pub open spec fn row_lit(cs: Seq<char>, row: int) -> int
    decreases cs.len(),
{
    if cs.len() == 0 {
        0
    } else {
        row_lit(cs.drop_last(), row) + ones(glyph_rows(cs.last())[row])
    }
}

/// The runs of a row: they spell the row, are split as `well_split` says, and
/// there is one lit run per lit pixel.
pub open spec fn row_runs_spec(runs: Seq<Run>, cs: Seq<char>, scale: Scale, row: int) -> bool {
    &&& runs_text(runs) == row_text(cs, scale, row)
    &&& well_split(runs, scale.px_w as int)
    &&& lit_runs(runs) == row_lit(cs, row)
}

proof fn lemma_lit_runs_push(runs: Seq<Run>, r: Run)
    ensures
        lit_runs(runs.push(r)) == lit_runs(runs) + if r.lit { 1int } else { 0 },
{
    assert(runs.push(r).drop_last() =~= runs);
}

/// The text of a row's runs as the same row with each run's text.
proof fn lemma_runs_text_push(runs: Seq<Run>, r: Run)
    ensures
        runs_text(runs.push(r)) == runs_text(runs) + r.text@,
{
    assert(runs.push(r).drop_last() =~= runs);
}

fn push_repeat(s: &mut String, c: char, n: usize)
    ensures
        final(s)@ == old(s)@ + repeat(c, n as int),
{
    let ghost s0 = s@;
    let mut i: usize = 0;
    while i < n
        invariant
            i <= n,
            s@ == s0 + repeat(c, i as int),
        decreases n - i,
    {
        push_char(s, c);
        i = i + 1;
        assert(s@ =~= s0 + repeat(c, i as int));
    }
}

proof fn lemma_repeat_add(c: char, a: int, b: int)
    requires
        a >= 0,
        b >= 0,
    ensures
        repeat(c, a) + repeat(c, b) == repeat(c, a + b),
{
    assert(repeat(c, a) + repeat(c, b) =~= repeat(c, a + b));
}

/// The runs of pixel row `pix_row` of `cs` at `scale`.
pub fn row_runs(cs: &Vec<char>, scale: Scale, pix_row: usize) -> (r: Vec<Run>)
    requires
        pix_row < GLYPH_H,
        width_spec(cs@, scale) <= usize::MAX,
    ensures
        row_runs_spec(r@, cs@, scale, pix_row as int),
{
    let mut runs: Vec<Run> = Vec::new();
    let mut pending = String::new();
    let mut i: usize = 0;
    while i < cs.len()
        invariant
            i <= cs.len(),
            pix_row < GLYPH_H,
            width_spec(cs@, scale) <= usize::MAX,
            runs_text(runs@) + pending@ == row_text(cs@.take(i as int), scale, pix_row as int),
            well_split(runs@, scale.px_w as int),
            lit_runs(runs@) == row_lit(cs@.take(i as int), pix_row as int),
            pending@ == repeat(' ', pending@.len() as int),
            runs@.len() > 0 ==> runs@.last().lit,
        decreases cs.len() - i,
    {
        let ghost pre = cs@.take(i as int);
        let ghost next = cs@.take(i + 1);
        assert(next.drop_last() =~= pre);
        assert(next.last() == cs@[i as int]);
        proof {
            law_glyph_shape(cs@[i as int]);
        }
        if i > 0 {
            proof {
                lemma_width_monotone(cs@, i + 1, scale);
                assert(width_spec(next, scale) >= width_spec(pre, scale) + scale.px_w * scale.gap) by {
                    assert(glyph_width(cs@[i as int]) * scale.px_w >= 0) by (nonlinear_arith)
                        requires glyph_width(cs@[i as int]) >= 1;
                }
                lemma_width_monotone(pre, i as int, scale);
                assert(pre.take(i as int) =~= pre);
            }
            let ghost p0 = pending@;
            push_repeat(&mut pending, ' ', scale.px_w * scale.gap);
            proof {
                lemma_repeat_add(' ', p0.len() as int, (scale.px_w * scale.gap) as int);
                assert(runs_text(runs@) + pending@ =~= row_text(pre, scale, pix_row as int) + repeat(' ', scale.px_w * scale.gap));
            }
        }
        let g = glyph(cs[i]);
        let bits = chars_of(g[pix_row]);
        let ghost base = runs_text(runs@) + pending@;
        assert(base == row_text(pre, scale, pix_row as int) + (if next.len() >= 2 { repeat(' ', scale.px_w * scale.gap) } else { seq![] }));
        let mut j: usize = 0;
        while j < bits.len()
            invariant
                j <= bits.len(),
                bits@ == glyph_rows(cs@[i as int])[pix_row as int],
                runs_text(runs@) + pending@ == base + expand(bits@.take(j as int), scale.px_w as int),
                well_split(runs@, scale.px_w as int),
                lit_runs(runs@) == row_lit(pre, pix_row as int) + ones(bits@.take(j as int)),
                pending@ == repeat(' ', pending@.len() as int),
                runs@.len() > 0 ==> runs@.last().lit,
            decreases bits.len() - j,
        {
            let ghost bpre = bits@.take(j as int);
            let ghost bnext = bits@.take(j + 1);
            assert(bnext.drop_last() =~= bpre);
            if bits[j] == '1' {
                let mut block = String::new();
                push_repeat(&mut block, CELL, scale.px_w);
                let ghost rs_start = runs@;
                let ghost p_start = pending@;
                assert(bnext.last() == '1');
                assert(expand(bnext, scale.px_w as int) == expand(bpre, scale.px_w as int) + repeat(CELL, scale.px_w as int));
                if !pending.as_str().is_empty() {
                    let ghost rs0 = runs@;
                    let ghost pv = pending@;
                    let p = pending;
                    pending = String::new();
                    runs.push(Run { lit: false, text: p });
                    proof {
                        lemma_runs_text_push(rs0, Run { lit: false, text: p });
                        lemma_lit_runs_push(rs0, Run { lit: false, text: p });
                        assert(p@ == pv);
                    }
                }
                let ghost rs1 = runs@;
                runs.push(Run { lit: true, text: block });
                proof {
                    lemma_runs_text_push(rs1, Run { lit: true, text: block });
                    lemma_lit_runs_push(rs1, Run { lit: true, text: block });
                    if p_start.len() == 0 {
                        assert(runs_text(rs_start) + p_start =~= runs_text(rs_start));
                    }
                    assert(pending@ =~= Seq::<char>::empty());
                    assert(runs_text(runs@) =~= runs_text(rs_start) + p_start + repeat(CELL, scale.px_w as int));
                    assert(runs_text(rs_start) + p_start == base + expand(bpre, scale.px_w as int));
                    assert((base + expand(bpre, scale.px_w as int)) + repeat(CELL, scale.px_w as int)
                        =~= base + (expand(bpre, scale.px_w as int) + repeat(CELL, scale.px_w as int)));
                    assert(runs_text(runs@) + pending@ =~= runs_text(runs@));
                    assert(runs_text(runs@) == base + expand(bnext, scale.px_w as int));
                }
            } else {
                let ghost p0 = pending@;
                push_repeat(&mut pending, ' ', scale.px_w);
                proof {
                    lemma_repeat_add(' ', p0.len() as int, scale.px_w as int);
                    assert(bnext.last() != '1');
                    assert(expand(bnext, scale.px_w as int) == expand(bpre, scale.px_w as int) + repeat(' ', scale.px_w as int));
                    assert(runs_text(runs@) + pending@ =~= (runs_text(runs@) + p0) + repeat(' ', scale.px_w as int));
                    assert((base + expand(bpre, scale.px_w as int)) + repeat(' ', scale.px_w as int)
                        =~= base + (expand(bpre, scale.px_w as int) + repeat(' ', scale.px_w as int)));
                }
            }
            j = j + 1;
        }
        assert(bits@.take(bits.len() as int) =~= bits@);
        assert(row_lit(next, pix_row as int) == row_lit(pre, pix_row as int) + ones(bits@));
        i = i + 1;
    }
    if !pending.as_str().is_empty() {
        let ghost rs0 = runs@;
        let p = pending;
        runs.push(Run { lit: false, text: p });
        proof {
            lemma_runs_text_push(rs0, Run { lit: false, text: p });
            lemma_lit_runs_push(rs0, Run { lit: false, text: p });
        }
    } else {
        assert(runs_text(runs@) + pending@ =~= runs_text(runs@));
    }
    assert(cs@.take(cs.len() as int) =~= cs@);
    runs
}

/// Render `text` (digits, `:`, spaces) as rows of runs at `scale`: output row
/// `k` shows pixel row `k / px_h`.
pub fn clock_rows(text: &str, scale: Scale) -> (r: Vec<Vec<Run>>)
    requires
        height_spec(scale) <= usize::MAX,
        width_spec(text@, scale) <= usize::MAX,
    ensures
        r@.len() == height_spec(scale),
        forall|k: int| 0 <= k < r@.len() ==> row_runs_spec(#[trigger] r@[k]@, text@, scale, k / scale.px_h as int),
{
    let cs = chars_of(text);
    let height = render_height(scale);
    let mut rows: Vec<Vec<Run>> = Vec::new();
    let mut k: usize = 0;
    while k < height
        invariant
            k <= height,
            height == height_spec(scale),
            cs@ == text@,
            width_spec(text@, scale) <= usize::MAX,
            rows@.len() == k,
            forall|t: int| 0 <= t < k ==> row_runs_spec(#[trigger] rows@[t]@, text@, scale, t / scale.px_h as int),
        decreases height - k,
    {
        assert(scale.px_h > 0) by (nonlinear_arith)
            requires k < height, height == 7 * scale.px_h;
        let pix_row = k / scale.px_h;
        assert(pix_row < GLYPH_H) by (nonlinear_arith)
            requires k < 7 * scale.px_h, pix_row == k / scale.px_h, scale.px_h > 0;
        let runs = row_runs(&cs, scale, pix_row);
        rows.push(runs);
        k = k + 1;
    }
    rows
}

/// `s` without trailing whitespace (`str::trim_end`).
pub open spec fn trim_end(s: Seq<char>) -> Seq<char> {
    s.subrange(0, rskip_ws(s, 0, s.len() as int))
}

/// Monochrome rows with no colour: each row's text with trailing blanks removed.
pub fn plain_lines(text: &str, scale: Scale) -> (r: Vec<String>)
    requires
        height_spec(scale) <= usize::MAX,
        width_spec(text@, scale) <= usize::MAX,
    ensures
        r@.len() == height_spec(scale),
        forall|k: int| 0 <= k < r@.len() ==> (#[trigger] r@[k])@ == trim_end(row_text(text@, scale, k / scale.px_h as int)),
{
    let rows = clock_rows(text, scale);
    let mut out: Vec<String> = Vec::new();
    let mut k: usize = 0;
    while k < rows.len()
        invariant
            k <= rows@.len(),
            rows@.len() == height_spec(scale),
            forall|t: int| 0 <= t < rows@.len() ==> row_runs_spec(#[trigger] rows@[t]@, text@, scale, t / scale.px_h as int),
            out@.len() == k,
            forall|t: int| 0 <= t < k ==> (#[trigger] out@[t])@ == trim_end(row_text(text@, scale, t / scale.px_h as int)),
        decreases rows.len() - k,
    {
        let row = &rows[k];
        let mut joined = String::new();
        let mut j: usize = 0;
        while j < row.len()
            invariant
                j <= row@.len(),
                joined@ == runs_text(row@.take(j as int)),
            decreases row.len() - j,
        {
            assert(row@.take(j + 1).drop_last() =~= row@.take(j as int));
            joined.append(row[j].text.as_str());
            j = j + 1;
        }
        assert(row@.take(row@.len() as int) =~= row@);
        let cs = chars_of(joined.as_str());
        proof {
            lemma_rskip_ws(cs@, 0, cs@.len() as int);
        }
        let end = rskip_ws_exec(&cs, 0, cs.len());
        out.push(string_of(&cs, 0, end));
        k = k + 1;
    }
    out
}

proof fn lemma_expand_len(bits: Seq<char>, px_w: int)
    requires
        px_w >= 0,
    ensures
        expand(bits, px_w).len() == bits.len() * px_w,
    decreases bits.len(),
{
    if bits.len() > 0 {
        lemma_expand_len(bits.drop_last(), px_w);
        assert(bits.len() * px_w == (bits.len() - 1) * px_w + px_w) by (nonlinear_arith);
    }
}

/// Every rendered row is exactly `clock_width` columns wide.
pub proof fn law_row_width(cs: Seq<char>, scale: Scale, row: int)
    requires
        0 <= row < GLYPH_H,
    ensures
        row_text(cs, scale, row).len() == width_spec(cs, scale),
    decreases cs.len(),
{
    if cs.len() > 0 {
        law_row_width(cs.drop_last(), scale, row);
        law_glyph_shape(cs.last());
        lemma_expand_len(glyph_rows(cs.last())[row], scale.px_w as int);
        assert(glyph_rows(cs.last())[row].len() * scale.px_w == glyph_width(cs.last()) * scale.px_w);
    }
}

/// Each pixel of a row becomes `px_w` cells: a block for a lit pixel (`1`), a
/// blank otherwise.
pub proof fn law_pixels_become_cells(bits: Seq<char>, px_w: int, p: int)
    requires
        px_w > 0,
        0 <= p < bits.len() * px_w,
    ensures
        expand(bits, px_w).len() == bits.len() * px_w,
        expand(bits, px_w)[p] == (if bits[p / px_w] == '1' { CELL } else { ' ' }),
    decreases bits.len(),
{
    lemma_expand_len(bits, px_w);
    let n = bits.len() as int;
    let d = bits.drop_last();
    lemma_expand_len(d, px_w);
    assert(n * px_w == (n - 1) * px_w + px_w) by (nonlinear_arith);
    if p < (n - 1) * px_w {
        law_pixels_become_cells(d, px_w, p);
        assert(p / px_w < n - 1) by {
            vstd::arithmetic::div_mod::lemma_fundamental_div_mod(p, px_w);
            let q = p / px_w;
            let r = p % px_w;
            assert(q < n - 1) by (nonlinear_arith)
                requires p == px_w * q + r, 0 <= r, p < (n - 1) * px_w, px_w > 0;
        }
        assert(d[p / px_w] == bits[p / px_w]);
    } else {
        let q = p - (n - 1) * px_w;
        assert(0 <= q < px_w);
        assert(p == (n - 1) * px_w + q);
        assert(p / px_w == n - 1) by {
            vstd::arithmetic::div_mod::lemma_fundamental_div_mod_converse(p, px_w, n - 1, q);
        }
        assert(expand(bits, px_w) == expand(d, px_w) + repeat(if bits.last() == '1' { CELL } else { ' ' }, px_w));
        assert(expand(bits, px_w)[p] == repeat(if bits.last() == '1' { CELL } else { ' ' }, px_w)[q]);
    }
}

} // verus!
