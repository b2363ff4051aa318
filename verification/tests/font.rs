use glowclock::font::{glyph, GLYPH_H};

#[test]
fn every_clock_char_has_full_height() {
    for c in "0123456789: ".chars() {
        assert_eq!(glyph(c).len(), GLYPH_H, "glyph {c:?} wrong height");
    }
}

#[test]
fn rows_are_rectangular() {
    for c in "0123456789".chars() {
        let g = glyph(c);
        let w = g[0].len();
        assert_eq!(w, 5, "digit {c:?} not 5 wide");
        assert!(g.iter().all(|r| r.len() == w), "digit {c:?} ragged");
        assert!(
            g.iter()
                .flat_map(|r| r.chars())
                .all(|p| p == '0' || p == '1'),
            "digit {c:?} has non-bit pixel"
        );
    }
}

#[test]
fn colon_is_one_pixel_wide_and_space_is_blank() {
    assert_eq!(glyph(':'), &["0", "1", "0", "0", "0", "1", "0"][..]);
    assert!(glyph(' ').iter().all(|r| *r == "00000"));
}

#[test]
fn unknown_char_renders_blank() {
    let g = glyph('x');
    assert_eq!(g.len(), GLYPH_H);
    assert!(g.iter().all(|r| r.chars().all(|p| p == '0')));
}

#[test]
fn digit_one_shape() {
    assert_eq!(glyph('1'), &["00100", "01100", "00100", "00100", "00100", "00100", "01110"][..]);
}
