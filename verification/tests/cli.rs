use glowclock::cli::{
    append_line_text, cat_label, check_add_line, classify_sound, default_paths, parse_args,
    pick_source, pick_target, remove_entry, resolve_sound, resolve_theme, system_sound_path,
    AddCheck, LoadChoice, Mode, RmOutcome, Sound, SoundChoice,
};
use glowclock::reminder::parse_all;
use glowclock::text::split_lines;

fn argv(words: &[&str]) -> Vec<String> {
    words.iter().map(|w| w.to_string()).collect()
}

#[test]
fn no_arguments_mean_the_interactive_clock() {
    let a = parse_args(&Vec::new()).unwrap();
    assert!(matches!(a.mode, Mode::Interactive));
    assert_eq!(a.theme, 0);
    assert!(a.hour24);
    assert!(a.fixed.is_none());
    assert!(matches!(a.sound, SoundChoice::Bell));
}

#[test]
fn options_are_read_in_order() {
    let a = parse_args(&argv(&[
        "--plain", "--theme", "matrix", "--time", "12:00:00", "--12", "--cat", "loaf",
        "--reminders", "r.txt", "--sound", " mute ", "--snapshot",
    ]))
    .unwrap();
    assert!(matches!(a.mode, Mode::Snapshot));
    assert_eq!(a.theme, 2);
    assert_eq!(a.fixed.as_deref(), Some("12:00:00"));
    assert!(!a.hour24);
    assert_eq!(a.cat_name.as_deref(), Some("loaf"));
    assert_eq!(a.reminders_path.as_deref(), Some("r.txt"));
    assert!(matches!(a.sound, SoundChoice::Off));
}

#[test]
fn add_takes_the_rest_of_the_line() {
    let a = parse_args(&argv(&["--24", "add", "0", "9", "*", "*", "1-5", "stand", "up", "--plain"])).unwrap();
    match a.mode {
        Mode::Add(line) => assert_eq!(line, "0 9 * * 1-5 stand up --plain"),
        _ => panic!("add"),
    }
    let b = parse_args(&argv(&["add"])).unwrap();
    assert!(matches!(b.mode, Mode::Add(ref l) if l.is_empty()));
}

#[test]
fn rm_and_list() {
    let a = parse_args(&argv(&["rm", "3"])).unwrap();
    assert!(matches!(a.mode, Mode::Rm(3)));
    let b = parse_args(&argv(&["remove", "0", "list"])).unwrap();
    assert!(matches!(b.mode, Mode::ListReminders));
    assert_eq!(parse_args(&argv(&["rm", "x"])).err().unwrap(), "invalid index: x");
    assert_eq!(
        parse_args(&argv(&["rm"])).err().unwrap(),
        "rm needs an index (see `glowclock list`)"
    );
}

#[test]
fn argument_errors() {
    assert_eq!(parse_args(&argv(&["--theme"])).err().unwrap(), "--theme needs a value");
    assert_eq!(parse_args(&argv(&["--time"])).err().unwrap(), "--time needs HH:MM:SS");
    assert_eq!(parse_args(&argv(&["--cat-file"])).err().unwrap(), "--cat-file needs a path");
    assert_eq!(parse_args(&argv(&["--bogus"])).err().unwrap(), "unknown argument: --bogus");
    assert_eq!(
        parse_args(&argv(&["--theme", "9"])).err().unwrap(),
        "theme index out of range (0..4)"
    );
}

#[test]
fn help_stops_reading() {
    let a = parse_args(&argv(&["--help", "--bogus"])).unwrap();
    assert!(matches!(a.mode, Mode::Help));
    let b = parse_args(&argv(&["--gallery", "-h"])).unwrap();
    assert!(matches!(b.mode, Mode::Help));
}

#[test]
fn themes_by_index_or_name() {
    assert_eq!(resolve_theme("3"), Ok(3));
    assert_eq!(resolve_theme("sunset"), Ok(1));
    assert_eq!(resolve_theme("4"), Err("theme index out of range (0..4)".to_string()));
    assert_eq!(resolve_theme("neon"), Err("unknown theme: neon".to_string()));
    assert_eq!(resolve_theme("+1"), Ok(1));
}

#[test]
fn sounds() {
    assert!(matches!(classify_sound(""), SoundChoice::Off));
    assert!(matches!(classify_sound("none"), SoundChoice::Off));
    assert!(matches!(classify_sound(" beep "), SoundChoice::Bell));
    assert!(matches!(classify_sound("Glass"), SoundChoice::Named(ref n) if n == "Glass"));
    assert!(matches!(classify_sound(" a b "), SoundChoice::Named(ref n) if n == "a b"));
    assert_eq!(system_sound_path("Glass"), "/System/Library/Sounds/Glass.aiff");
}

#[test]
fn checking_added_lines() {
    assert!(matches!(check_add_line("   "), AddCheck::Empty));
    assert!(matches!(check_add_line("0 9 * * *"), AddCheck::NoMessage));
    assert!(matches!(check_add_line("# just a note"), AddCheck::NoMessage));
    assert!(matches!(check_add_line("@every 0m x"), AddCheck::Invalid(ref e) if e == "non-positive duration \"0m\""));
    assert!(matches!(check_add_line("  @every 45m  look away "), AddCheck::Line(ref l) if l == "@every 45m  look away"));
}

#[test]
fn appending_keeps_one_line_per_reminder() {
    assert_eq!(append_line_text("", "@hourly x"), "@hourly x\n");
    assert_eq!(append_line_text("a", "b"), "a\nb\n");
    assert_eq!(append_line_text("a\n", "b"), "a\nb\n");
}

#[test]
fn removing_the_second_reminder() {
    let text = "# header\n0 * * * * one\n\n@every 5m two\n30 * * * * three\n";
    match remove_entry(text, 2) {
        RmOutcome::Removed(t, l) => {
            assert_eq!(l, "@every 5m two");
            assert_eq!(t, "# header\n0 * * * * one\n\n30 * * * * three\n");
        }
        _ => panic!("removed"),
    }
    assert!(matches!(remove_entry(text, 0), RmOutcome::ZeroIndex));
    assert!(matches!(remove_entry(text, 4), RmOutcome::Missing(3)));
    match remove_entry("0 * * * * only", 1) {
        RmOutcome::Removed(t, l) => {
            assert_eq!(l, "0 * * * * only");
            assert_eq!(t, "");
        }
        _ => panic!("removed"),
    }
}

#[test]
fn broken_lines_are_not_counted() {
    let text = "bad line here x y\n0 * * * * one\n";
    match remove_entry(text, 1) {
        RmOutcome::Removed(t, l) => {
            assert_eq!(l, "0 * * * * one");
            assert_eq!(t, "bad line here x y\n");
        }
        _ => panic!("removed"),
    }
}

#[test]
fn choosing_the_file_to_edit() {
    let c = argv(&["glowclock-reminders.txt", "/home/u/.config/glowclock/reminders.txt"]);
    assert_eq!(pick_target(Some("x.txt"), &c, &vec![true, true]), "x.txt");
    assert_eq!(pick_target(None, &c, &vec![false, true]), "/home/u/.config/glowclock/reminders.txt");
    assert_eq!(pick_target(None, &c, &vec![true, true]), "glowclock-reminders.txt");
    assert_eq!(pick_target(None, &c, &vec![false, false]), "/home/u/.config/glowclock/reminders.txt");
    assert_eq!(pick_target(None, &Vec::new(), &Vec::new()), "glowclock-reminders.txt");
}

#[test]
fn cat_labels() {
    assert_eq!(cat_label(Some("my.txt"), Some("loaf")), "file:my.txt");
    assert_eq!(cat_label(None, Some("loaf")), "loaf");
    assert_eq!(cat_label(None, None), "chonk");
}

#[test]
fn default_reminder_files() {
    assert_eq!(default_paths(None), vec!["glowclock-reminders.txt".to_string()]);
    assert_eq!(
        default_paths(Some("/home/u")),
        vec![
            "glowclock-reminders.txt".to_string(),
            "/home/u/.config/glowclock/reminders.txt".to_string()
        ]
    );
}

#[test]
fn added_line_reads_back_last() {
    let text = "0 * * * * one\r\n# note";
    let after = append_line_text(text, "@every 5m two");
    let mut expect = split_lines(text);
    expect.push("@every 5m two".to_string());
    assert_eq!(split_lines(&after), expect);
}

#[test]
fn removal_keeps_the_other_lines() {
    let text = "# a\n0 * * * * one\n\n@hourly two\n";
    let RmOutcome::Removed(out, _) = remove_entry(text, 1) else { panic!() };
    let mut expect = split_lines(text);
    expect.remove(1);
    assert_eq!(split_lines(&out), expect);
}

#[test]
fn removal_lists_one_reminder_fewer() {
    let text = "0 * * * * one\n# c\n@hourly two\n@every 1m three\n";
    let (before, _) = parse_all(&split_lines(text));
    let RmOutcome::Removed(out, line) = remove_entry(text, 2) else { panic!() };
    assert_eq!(line, before[1].source);
    let (after, _) = parse_all(&split_lines(&out));
    assert_eq!(after.len(), before.len() - 1);
    assert_eq!(after[0].source, before[0].source);
    assert_eq!(after[1].source, before[2].source);
}

#[test]
fn load_order() {
    assert_eq!(pick_source(true, &vec![true, true]), LoadChoice::Explicit);
    assert_eq!(pick_source(false, &vec![false, true]), LoadChoice::Default(1));
    assert_eq!(pick_source(false, &vec![true, true]), LoadChoice::Default(0));
    assert_eq!(pick_source(false, &vec![false, false]), LoadChoice::BuiltIn);
    assert_eq!(pick_source(false, &Vec::new()), LoadChoice::BuiltIn);
}

#[test]
fn named_sounds_are_found_on_disk() {
    let g = SoundChoice::Named("Glass".to_string());
    assert!(matches!(resolve_sound(&g, true, true), Sound::Play(ref p) if p == "Glass"));
    assert!(matches!(resolve_sound(&g, false, true), Sound::Play(ref p) if p == "/System/Library/Sounds/Glass.aiff"));
    assert!(matches!(resolve_sound(&g, false, false), Sound::Play(ref p) if p == "Glass"));
    assert!(matches!(resolve_sound(&SoundChoice::Off, true, true), Sound::Off));
    assert!(matches!(resolve_sound(&SoundChoice::Bell, false, false), Sound::Bell));
}
