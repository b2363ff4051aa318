use glowclock::render::{
    best_scale, candidates, clock_rows, clock_width, default_scale, plain_lines, render_height,
    themes, Scale,
};

#[test]
fn renders_expected_height() {
    let lines = clock_rows("12:34:56", default_scale());
    assert_eq!(lines.len(), render_height(default_scale()));
}

#[test]
fn width_matches_digit_layout() {
    // 8 chars: 6 digits (5px) + 2 colons (1px) + 7 gaps, scaled.
    let s = default_scale();
    let expected = ((6 * 5 + 2) + 7 * s.gap) * s.px_w;
    assert_eq!(clock_width("12:34:56", s), expected);
}

#[test]
fn best_scale_shrinks_to_fit_width() {
    // Full clock at the largest scale is wide; a narrow area must pick
    // a smaller candidate that actually fits.
    let narrow = 40;
    let s = best_scale("12:34:56", narrow, 100);
    assert!(clock_width("12:34:56", s) <= narrow);
}

#[test]
fn best_scale_falls_back_to_smallest() {
    // Impossibly tight area still yields the smallest candidate,
    // which always keeps a gap so digits never mash together.
    let s = best_scale("12:34:56", 1, 1);
    assert_eq!((s.px_w, s.px_h, s.gap), (1, 1, 1));
}

#[test]
fn smallest_scale_never_uses_zero_gap() {
    assert!(candidates().iter().all(|s| s.gap >= 1));
}

#[test]
fn best_scale_takes_the_largest_that_fits() {
    assert_eq!(best_scale("12:34:56", 1000, 1000), candidates()[0]);
    let wide = best_scale("12:34:56", 1000, 1000);
    assert_eq!(wide, Scale { px_w: 2, px_h: 2, gap: 1 });
    assert_eq!(best_scale("12:34:56", 1000, 7), Scale { px_w: 2, px_h: 1, gap: 1 });
}

#[test]
fn height_and_empty_width() {
    assert_eq!(render_height(default_scale()), 14);
    assert_eq!(clock_width("", default_scale()), 0);
    assert_eq!(clock_width("1", Scale { px_w: 3, px_h: 1, gap: 9 }), 15);
}

#[test]
fn plain_frame_of_one() {
    let s = Scale { px_w: 1, px_h: 1, gap: 1 };
    let lines = plain_lines("1", s);
    let b = '\u{2588}';
    let expect: Vec<String> = ["00100", "01100", "00100", "00100", "00100", "00100", "01110"]
        .iter()
        .map(|r| {
            let row: String = r.chars().map(|p| if p == '1' { b } else { ' ' }).collect();
            row.trim_end().to_string()
        })
        .collect();
    assert_eq!(lines, expect);
}

#[test]
fn rows_hold_lit_and_blank_runs() {
    let s = Scale { px_w: 2, px_h: 1, gap: 1 };
    let rows = clock_rows("1:", s);
    assert_eq!(rows.len(), 7);
    let top: String = rows[0].iter().map(|r| r.text.as_str()).collect();
    // "00100" doubled, a 2-column gap, then the colon's blank top pixel.
    assert_eq!(top.chars().count(), 10 + 2 + 2);
    assert!(rows[0].iter().any(|r| r.lit));
}

#[test]
fn themes_are_named_in_order() {
    let names: Vec<&str> = themes().iter().map(|t| t.name).collect();
    assert_eq!(names, vec!["aurora", "sunset", "matrix", "ice"]);
    assert_eq!(themes()[0].top, (128, 245, 224));
}

#[test]
fn one_lit_run_per_lit_pixel() {
    let rows = clock_rows("1", Scale { px_w: 0, px_h: 1, gap: 1 });
    // Row 0 of '1' is "00100", row 6 is "01110".
    assert_eq!(rows[0].iter().filter(|r| r.lit).count(), 1);
    assert_eq!(rows[6].iter().filter(|r| r.lit).count(), 3);
    assert!(rows[6].iter().all(|r| r.lit && r.text.is_empty()));
    let wide = clock_rows("8", Scale { px_w: 3, px_h: 1, gap: 1 });
    assert_eq!(wide[0].iter().filter(|r| r.lit).count(), 3);
}
