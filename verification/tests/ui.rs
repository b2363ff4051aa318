use glowclock::clock::DateTime;
use glowclock::reminder::{Manager, Reminder};
use glowclock::render::Scale;
use glowclock::ui::{
    caret_split, centered_rect, date_label, finish_submission, fit_display, handle_key,
    input_rect, next_theme, popup_rect, reminder_count, shown_text, submit_reminder, tick,
    top_pad, Action, InputBox, Key, Overlay, Popup, Rect, Submission, POPUP_TTL_SECS,
};

fn dt(h: u8, m: u8) -> DateTime {
    DateTime { year: 2026, month: 9, day: 10, dow: 4, h, m, s: 0 }
}

fn input_text(o: &Overlay) -> String {
    match o {
        Overlay::Input(b) => b.text(),
        _ => panic!("expected the input box"),
    }
}

#[test]
fn typing_then_backspace_restores_the_text() {
    let mut b = InputBox::with_error("ab", "old".to_string());
    b.cursor = 1;
    b.insert('x');
    assert_eq!(b.text(), "axb");
    assert_eq!(b.cursor, 2);
    assert!(b.error.is_none());
    b.backspace();
    assert_eq!(b.text(), "ab");
    assert_eq!(b.cursor, 1);
}

#[test]
fn delete_keeps_the_cursor_and_error() {
    let mut b = InputBox::with_error("abc", "e".to_string());
    b.cursor = 0;
    b.delete();
    assert_eq!(b.text(), "bc");
    assert_eq!(b.cursor, 0);
    assert_eq!(b.error.as_deref(), Some("e"));
    b.cursor = 2;
    b.delete();
    assert_eq!(b.text(), "bc");
    let mut e = InputBox::new();
    e.backspace();
    assert_eq!(e.text(), "");
    assert_eq!(e.cursor, 0);
}

#[test]
fn keys_with_nothing_shown() {
    let mut o = Overlay::Hidden;
    assert!(matches!(handle_key(Key::Char('q'), &mut o), Action::Quit));
    assert!(matches!(handle_key(Key::Esc, &mut o), Action::Quit));
    assert!(matches!(handle_key(Key::Char(' '), &mut o), Action::CycleTheme));
    assert!(matches!(handle_key(Key::Char('c'), &mut o), Action::CycleTheme));
    assert!(matches!(handle_key(Key::Char('f'), &mut o), Action::ToggleFormat));
    assert!(matches!(handle_key(Key::Char('z'), &mut o), Action::Nothing));
    assert!(matches!(o, Overlay::Hidden));
    assert!(matches!(handle_key(Key::Char('a'), &mut o), Action::Nothing));
    assert_eq!(input_text(&o), "");
}

#[test]
fn keys_in_the_input_box() {
    let mut o = Overlay::Input(InputBox::new());
    for c in "hi".chars() {
        handle_key(Key::Char(c), &mut o);
    }
    handle_key(Key::Left, &mut o);
    handle_key(Key::Char('!'), &mut o);
    assert_eq!(input_text(&o), "h!i");
    handle_key(Key::Home, &mut o);
    handle_key(Key::Delete, &mut o);
    assert_eq!(input_text(&o), "!i");
    handle_key(Key::End, &mut o);
    handle_key(Key::Right, &mut o);
    handle_key(Key::Backspace, &mut o);
    assert_eq!(input_text(&o), "!");
    match handle_key(Key::Enter, &mut o) {
        Action::Submit(t) => assert_eq!(t, "!"),
        _ => panic!("enter submits"),
    }
    assert!(matches!(handle_key(Key::Esc, &mut o), Action::Nothing));
    assert!(matches!(o, Overlay::Hidden));
}

#[test]
fn keys_over_a_popup() {
    let mut o = Overlay::Popup(Popup { message: "m".to_string(), shown_at: 0 });
    assert!(matches!(handle_key(Key::Char('q'), &mut o), Action::Quit));
    assert!(matches!(o, Overlay::Popup(_)));
    assert!(matches!(handle_key(Key::Enter, &mut o), Action::Nothing));
    assert!(matches!(o, Overlay::Hidden));
}

#[test]
fn themes_cycle() {
    assert_eq!(next_theme(0), 1);
    assert_eq!(next_theme(3), 0);
}

#[test]
fn tick_pops_a_due_reminder_and_expires_it() {
    let items = vec![Reminder::parse("0 * * * * water").unwrap().unwrap()];
    let mut mgr = Manager::new(items, 0);
    let mut o = Overlay::Hidden;
    assert!(tick(&mut o, &mut mgr, &dt(13, 0), 46_800));
    match &o {
        Overlay::Popup(p) => {
            assert_eq!(p.message, "water");
            assert_eq!(p.shown_at, 46_800);
        }
        _ => panic!("a popup"),
    }
    assert!(!tick(&mut o, &mut mgr, &dt(13, 0), 46_800 + POPUP_TTL_SECS - 1));
    assert!(matches!(o, Overlay::Popup(_)));
    assert!(!tick(&mut o, &mut mgr, &dt(13, 1), 46_800 + POPUP_TTL_SECS));
    assert!(matches!(o, Overlay::Hidden));
    // Nothing due: nothing shown.
    assert!(!tick(&mut o, &mut mgr, &dt(13, 1), 46_861));
    assert!(matches!(o, Overlay::Hidden));
}

#[test]
fn tick_leaves_the_input_box_alone() {
    let items = vec![Reminder::parse("0 * * * * water").unwrap().unwrap()];
    let mut mgr = Manager::new(items, 0);
    let mut o = Overlay::Input(InputBox::new());
    assert!(!tick(&mut o, &mut mgr, &dt(13, 0), 46_800));
    assert!(matches!(o, Overlay::Input(_)));
    // The reminder is still due once the box is closed.
    let mut h = Overlay::Hidden;
    assert!(tick(&mut h, &mut mgr, &dt(13, 0), 46_800));
}

#[test]
fn submissions() {
    match submit_reminder("  @every 45m stretch ") {
        Submission::Ready(r) => {
            assert_eq!(r.message, "stretch");
            assert_eq!(r.source, "@every 45m stretch");
        }
        _ => panic!("accepted"),
    }
    match submit_reminder("0 9 * * *") {
        Submission::Rejected(b) => {
            assert_eq!(b.text(), "0 9 * * *");
            assert_eq!(b.cursor, 9);
            assert_eq!(b.error.as_deref(), Some("需要填写消息文本"));
        }
        _ => panic!("no message"),
    }
    match submit_reminder("# note") {
        Submission::Rejected(b) => assert_eq!(b.error.as_deref(), Some("需要填写消息文本")),
        _ => panic!("comment"),
    }
    match submit_reminder("@yearly x") {
        Submission::Rejected(b) => {
            assert_eq!(b.error.as_deref(), Some("unknown @keyword: @yearly"))
        }
        _ => panic!("bad keyword"),
    }
}

#[test]
fn finishing_a_submission() {
    let mut mgr = Manager::new(Vec::new(), 0);
    assert_eq!(reminder_count(&mgr), "no");
    let r = Reminder::parse("@every 10s hi").unwrap().unwrap();
    match finish_submission("@every 10s hi", r, Ok(()), &mut mgr, 5) {
        Overlay::Popup(p) => {
            assert_eq!(p.message, "已添加提醒：hi");
            assert_eq!(p.shown_at, 5);
        }
        _ => panic!("confirmation"),
    }
    assert_eq!(reminder_count(&mgr), "active");
    let r2 = Reminder::parse("@every 10s bye").unwrap().unwrap();
    let mut mgr2 = Manager::new(Vec::new(), 0);
    match finish_submission("x", r2, Err("disk full".to_string()), &mut mgr2, 5) {
        Overlay::Input(b) => {
            assert_eq!(b.text(), "x");
            assert_eq!(b.error.as_deref(), Some("写入失败：disk full"));
        }
        _ => panic!("error box"),
    }
    assert!(mgr2.is_empty());
}

#[test]
fn rectangles_are_centred_and_clamped() {
    let area = Rect { x: 0, y: 0, width: 100, height: 40 };
    assert_eq!(centered_rect(20, 10, area), Rect { x: 40, y: 15, width: 20, height: 10 });
    assert_eq!(centered_rect(200, 50, area), area);
    let off = Rect { x: 3, y: 4, width: 10, height: 10 };
    assert_eq!(centered_rect(4, 2, off), Rect { x: 6, y: 8, width: 4, height: 2 });
    assert_eq!(input_rect(area), Rect { x: 23, y: 16, width: 54, height: 8 });
    let tiny = Rect { x: 0, y: 0, width: 10, height: 5 };
    assert_eq!(input_rect(tiny), Rect { x: 0, y: 0, width: 10, height: 5 });
    // Cat 7 wide, message 40 wide (capped at 32): 32 + 8 = 40 wide; 5 rows + 7.
    assert_eq!(popup_rect(7, 40, 5, area), Rect { x: 30, y: 14, width: 40, height: 12 });
    // Never narrower than 20.
    assert_eq!(popup_rect(1, 1, 1, area), Rect { x: 40, y: 16, width: 20, height: 8 });
}

#[test]
fn caret_splits_the_line() {
    let mut b = InputBox::with_error("abc", String::new());
    b.cursor = 1;
    assert_eq!(caret_split(&b), ("a".to_string(), "b".to_string(), "c".to_string()));
    b.cursor = 3;
    assert_eq!(caret_split(&b), ("abc".to_string(), " ".to_string(), String::new()));
}

#[test]
fn display_drops_colons_only_when_too_wide() {
    let (t, s) = fit_display("12:34:56", 200, 20);
    assert_eq!(t, "12:34:56");
    assert_eq!(s, Scale { px_w: 2, px_h: 2, gap: 1 });
    // At the smallest scale the full text is 6*5 + 2 + 7 = 39 columns wide.
    let (t, s) = fit_display("12:34:56", 38, 20);
    assert_eq!(t, "123456");
    assert_eq!(s, Scale { px_w: 1, px_h: 2, gap: 1 });
    let (t, _) = fit_display("12:34:56", 39, 20);
    assert_eq!(t, "12:34:56");
}

#[test]
fn padding_and_labels() {
    assert_eq!(top_pad(20, 14), 3);
    assert_eq!(top_pad(5, 14), 0);
    assert_eq!(date_label(&dt(0, 0)), "Thu 2026-09-10");
    let old = DateTime { year: 7, month: 1, day: 2, dow: 0, h: 0, m: 0, s: 0 };
    assert_eq!(date_label(&old), "Sun 0007-01-02");
    let bc = DateTime { year: -5, month: 12, day: 31, dow: 6, h: 0, m: 0, s: 0 };
    assert_eq!(date_label(&bc), "Sat -005-12-31");
    assert_eq!(shown_text(&Some("08:00".to_string()), &dt(1, 2), true), "08:00");
    assert_eq!(shown_text(&None, &dt(13, 2), false), "01:02:00");
}
