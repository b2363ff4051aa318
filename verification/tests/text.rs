use glowclock::text::{
    chars_of, is_whitespace, join_strings, parse_u32, parse_usize, split_lines, str_is,
    string_of,
};

#[test]
fn lines_split_like_str_lines() {
    assert_eq!(split_lines("a\nb\r\n\nc"), vec!["a", "b", "", "c"]);
    assert_eq!(split_lines("a\n"), vec!["a"]);
    assert!(split_lines("").is_empty());
    assert_eq!(split_lines("\n"), vec![""]);
    assert_eq!(split_lines("x\r"), vec!["x\r"]);
}

#[test]
fn numbers_parse_like_std() {
    let v = chars_of("+42");
    assert_eq!(parse_u32(&v, 0, v.len()), Some(42));
    let w = chars_of("4294967296");
    assert_eq!(parse_u32(&w, 0, w.len()), None);
    assert_eq!(parse_usize(&w, 0, w.len()), Some(4_294_967_296));
    let e = chars_of("+");
    assert_eq!(parse_u32(&e, 0, e.len()), None);
    let n = chars_of("-1");
    assert_eq!(parse_usize(&n, 0, n.len()), None);
}

#[test]
fn string_helpers() {
    assert!(is_whitespace('\u{3000}'));
    assert!(!is_whitespace('x'));
    assert!(str_is("abc", "abc"));
    assert!(!str_is("abc", "ab"));
    let v = chars_of("hello");
    assert_eq!(string_of(&v, 1, 3), "el");
    assert_eq!(join_strings(&vec!["a".to_string(), "b".to_string()], ", "), "a, b");
    assert_eq!(join_strings(&Vec::new(), ", "), "");
}
