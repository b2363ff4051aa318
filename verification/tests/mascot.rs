use glowclock::mascot::{
    builtin, cat_from_text, default_name, disp_width, names, resolve, resolve_named, width,
};

#[test]
fn every_named_cat_resolves() {
    for n in names() {
        let cat = resolve_named(Some(n)).expect("named cat resolves");
        assert!(!cat.is_empty());
        assert!(width(&cat) > 0);
    }
}

#[test]
fn default_is_a_valid_name() {
    assert!(names().contains(&default_name()));
    assert!(resolve_named(None).is_ok());
}

#[test]
fn unknown_cat_is_an_error() {
    assert!(resolve_named(Some("dog")).is_err());
}

#[test]
fn unknown_cat_message_lists_the_names() {
    assert_eq!(
        resolve_named(Some("dog")).unwrap_err(),
        "unknown cat: dog (try: chonk, kitten, loaf, sleepy, peek)"
    );
}

#[test]
fn default_cat_is_chonk() {
    assert_eq!(default_name(), "chonk");
    assert_eq!(resolve_named(None).unwrap(), builtin("chonk").unwrap());
    assert_eq!(
        builtin("kitten").unwrap(),
        vec![" /\\_/\\".to_string(), "( ^.^ )".to_string(), " (u_u) ".to_string()]
    );
    assert!(builtin("Chonk").is_none());
}

#[test]
fn wide_glyphs_count_twice() {
    assert_eq!(disp_width("abc"), 3);
    assert_eq!(disp_width("胖猫"), 4);
    assert_eq!(disp_width(""), 0);
    // U+1100 itself is still narrow; only code points above it count double.
    assert_eq!(disp_width("\u{1100}"), 1);
    assert_eq!(disp_width("\u{1101}"), 2);
}

#[test]
fn width_is_the_widest_row() {
    let cat = vec!["ab".to_string(), "胖猫x".to_string(), String::new()];
    assert_eq!(width(&cat), 5);
    assert_eq!(width(&[]), 0);
}

#[test]
fn cat_file_rows_keep_their_text() {
    let rows = cat_from_text("c.txt", " /\\_/\\\r\n( o.o )\n").unwrap();
    assert_eq!(rows, vec![" /\\_/\\".to_string(), "( o.o )".to_string()]);
}

#[test]
fn blank_cat_file_is_an_error() {
    assert_eq!(cat_from_text("c.txt", "  \n\t\n").unwrap_err(), "cat file c.txt has no art");
    assert_eq!(cat_from_text("empty", "").unwrap_err(), "cat file empty has no art");
}

#[test]
fn widths_add_up() {
    for (a, b) in [("ab", "胖猫"), ("", "x"), ("( o.o )", " ╱|、")] {
        let ab = format!("{a}{b}");
        assert_eq!(disp_width(&ab), disp_width(a) + disp_width(b));
        assert!(a.chars().count() <= disp_width(a) && disp_width(a) <= 2 * a.chars().count());
    }
    assert_eq!(disp_width("plain ascii"), 11);
}

#[test]
fn cat_file_overrides_the_name() {
    let file = Some(("c.txt", Ok("=^.^=\n".to_string())));
    assert_eq!(resolve(Some("loaf"), file).unwrap(), vec!["=^.^=".to_string()]);
    let missing = Some(("nope.txt", Err("No such file".to_string())));
    assert_eq!(resolve(None, missing).unwrap_err(), "cannot read cat file nope.txt: No such file");
    assert_eq!(resolve(Some("loaf"), None).unwrap(), builtin("loaf").unwrap());
    assert!(resolve(Some("dog"), None).is_err());
}
