//! Command-line arguments and edits of the reminders file.
//!
//! Reading and writing files, the environment and the terminal stay with the
//! caller; this module decides what the arguments ask for and how the file's
//! text changes.
use vstd::prelude::*;
use crate::reminder::{
    lemma_reminder_lines_members, lemma_reminder_lines_remove, line_overflows, line_spec, parse_line,
    reminder_lines, yields_reminder, LineParse, LineSpec, Reminder,
};
use crate::text::{
    chars_of, ends_with_cr, join, join_strings, lemma_find_char_at, lemma_lines_add_newline,
    lemma_lines_have_no_newline, lemma_lines_of_one, lemma_lines_then_line, lines_from, parse_usize,
    parse_usize_spec, push_char, split_lines, str_is, trim, trim_string, dec,
};
use crate::render::theme_names;

verus! {

/// How a reminder announces itself, as the arguments name it.
#[derive(Clone, Debug)]
pub enum SoundChoice {
    /// Silent.
    Off,
    /// The terminal bell.
    Bell,
    /// An audio file or a system sound name, resolved by the caller.
    Named(String),
}

/// What the program is asked to do.
#[derive(Clone, Debug)]
pub enum Mode {
    Interactive,
    Snapshot,
    Gallery,
    Plain,
    ListReminders,
    ListCats,
    Add(String),
    Rm(usize),
    ListSounds,
    /// Print the help text and stop.
    Help,
}

/// The parsed command line.
#[derive(Clone, Debug)]
pub struct Args {
    pub mode: Mode,
    pub theme: usize,
    pub fixed: Option<String>,
    pub hour24: bool,
    pub reminders_path: Option<String>,
    pub cat_name: Option<String>,
    pub cat_file: Option<String>,
    pub sound: SoundChoice,
}

pub enum SoundView {
    Off,
    Bell,
    Named(Seq<char>),
}

pub enum ModeView {
    Interactive,
    Snapshot,
    Gallery,
    Plain,
    ListReminders,
    ListCats,
    Add(Seq<char>),
    Rm(int),
    ListSounds,
    Help,
}

/// The arguments as values.
pub struct ArgsView {
    pub mode: ModeView,
    pub theme: int,
    pub fixed: Option<Seq<char>>,
    pub hour24: bool,
    pub reminders_path: Option<Seq<char>>,
    pub cat_name: Option<Seq<char>>,
    pub cat_file: Option<Seq<char>>,
    pub sound: SoundView,
}

pub open spec fn opt_view(o: Option<String>) -> Option<Seq<char>> {
    match o {
        Some(s) => Some(s@),
        None => None,
    }
}

impl Args {
    pub open spec fn view_of(self) -> ArgsView {
        ArgsView {
            mode: match self.mode {
                Mode::Interactive => ModeView::Interactive,
                Mode::Snapshot => ModeView::Snapshot,
                Mode::Gallery => ModeView::Gallery,
                Mode::Plain => ModeView::Plain,
                Mode::ListReminders => ModeView::ListReminders,
                Mode::ListCats => ModeView::ListCats,
                Mode::Add(l) => ModeView::Add(l@),
                Mode::Rm(n) => ModeView::Rm(n as int),
                Mode::ListSounds => ModeView::ListSounds,
                Mode::Help => ModeView::Help,
            },
            theme: self.theme as int,
            fixed: opt_view(self.fixed),
            hour24: self.hour24,
            reminders_path: opt_view(self.reminders_path),
            cat_name: opt_view(self.cat_name),
            cat_file: opt_view(self.cat_file),
            sound: match self.sound {
                SoundChoice::Off => SoundView::Off,
                SoundChoice::Bell => SoundView::Bell,
                SoundChoice::Named(n) => SoundView::Named(n@),
            },
        }
    }
}

/// The theme a `--theme` value names: an index below 4, or a theme name.
pub open spec fn theme_spec(v: Seq<char>) -> Result<int, Seq<char>> {
    match parse_usize_spec(v) {
        Some(n) => if n < 4 {
            Ok(n as int)
        } else {
            Err("theme index out of range (0..4)"@)
        },
        None => if v == "aurora"@ {
            Ok(0)
        } else if v == "sunset"@ {
            Ok(1)
        } else if v == "matrix"@ {
            Ok(2)
        } else if v == "ice"@ {
            Ok(3)
        } else {
            Err("unknown theme: "@ + v)
        },
    }
}

/// A theme named by `--theme` is the theme of that name in the table of themes, and
/// a theme index picks that entry: every theme can be chosen by its name or index,
/// and a name that resolves names the theme it resolves to.
pub proof fn law_theme_names(v: Seq<char>, k: int)
    requires
        0 <= k < 4,
    ensures
        theme_spec(theme_names()[k]) == Ok::<int, Seq<char>>(k),
        theme_spec(dec(k as nat)) == Ok::<int, Seq<char>>(k),
        parse_usize_spec(v) is None && theme_spec(v) is Ok ==> 0 <= theme_spec(v)->Ok_0 < 4
            && theme_names()[theme_spec(v)->Ok_0] == v,
{
    reveal_strlit("aurora");
    reveal_strlit("sunset");
    reveal_strlit("matrix");
    reveal_strlit("ice");
    assert(parse_usize_spec("aurora"@) is None);
    assert(parse_usize_spec("sunset"@) is None);
    assert(parse_usize_spec("matrix"@) is None);
    assert(parse_usize_spec("ice"@) is None);
    let c = dec(k as nat);
    let ch = crate::text::digit_char(k as nat);
    assert(c == seq![ch]);
    assert(ch as u32 == k + 48);
    assert(crate::text::unsigned_body(c) == c);
    assert(c.drop_last() =~= Seq::<char>::empty());
    assert(c.last() == ch);
    assert(crate::text::digits_value(c.drop_last()) == 0);
    assert(crate::text::digits_value(c) == k);
}

/// Resolve a `--theme` value: an index (0..3) or a theme name.
pub fn resolve_theme(v: &str) -> (r: Result<usize, String>)
    ensures
        match theme_spec(v@) {
            Ok(n) => r == Ok::<usize, String>(n as usize),
            Err(m) => r matches Err(e) && e@ == m,
        },
{
    let cs = chars_of(v);
    let parsed = parse_usize(&cs, 0, cs.len());
    assert(cs@.subrange(0, cs@.len() as int) =~= v@);
    if let Some(n) = parsed {
        if n < 4 {
            return Ok(n);
        }
        return Err(String::from_str("theme index out of range (0..4)"));
    }
    if str_is(v, "aurora") {
        Ok(0)
    } else if str_is(v, "sunset") {
        Ok(1)
    } else if str_is(v, "matrix") {
        Ok(2)
    } else if str_is(v, "ice") {
        Ok(3)
    } else {
        let mut e = String::from_str("unknown theme: ");
        e.append(v);
        Err(e)
    }
}

/// What a `--sound` value asks for: `off` (or an empty value, `none`, `silent`,
/// `mute`), the bell (`bell`, `beep`, `terminal`), or else a named sound.
pub open spec fn sound_spec(v: Seq<char>) -> SoundView {
    let t = trim(v);
    if t == ""@ || t == "off"@ || t == "none"@ || t == "silent"@ || t == "mute"@ {
        SoundView::Off
    } else if t == "bell"@ || t == "beep"@ || t == "terminal"@ {
        SoundView::Bell
    } else {
        SoundView::Named(t)
    }
}

/// Interpret a `--sound` value; a named sound is left for the caller to resolve.
pub fn classify_sound(v: &str) -> (r: SoundChoice)
    ensures
        (match r {
            SoundChoice::Off => SoundView::Off,
            SoundChoice::Bell => SoundView::Bell,
            SoundChoice::Named(n) => SoundView::Named(n@),
        }) == sound_spec(v@),
{
    let t = trim_string(v);
    let ts = t.as_str();
    if str_is(ts, "") || str_is(ts, "off") || str_is(ts, "none") || str_is(ts, "silent") || str_is(ts, "mute") {
        SoundChoice::Off
    } else if str_is(ts, "bell") || str_is(ts, "beep") || str_is(ts, "terminal") {
        SoundChoice::Bell
    } else {
        SoundChoice::Named(t)
    }
}

/// Where a system sound of that name lives.
pub fn system_sound_path(name: &str) -> (r: String)
    ensures
        r@ == "/System/Library/Sounds/"@ + name@ + ".aiff"@,
{
    let mut r = String::from_str("/System/Library/Sounds/");
    r.append(name);
    r.append(".aiff");
    r
}

/// How a reminder announces itself, with a named sound found on disk.
#[derive(Clone, Debug)]
pub enum Sound {
    /// Silent.
    Off,
    /// The terminal bell.
    Bell,
    /// Play this audio file.
    Play(String),
}

/// The sound that a `--sound` choice plays. A named sound is the file of that name
/// when one exists (`name_is_file`), else the system sound of that name when it
/// exists (`system_is_file`), else the name as given.
pub fn resolve_sound(choice: &SoundChoice, name_is_file: bool, system_is_file: bool) -> (r: Sound)
    ensures
        match choice {
            SoundChoice::Off => r is Off,
            SoundChoice::Bell => r is Bell,
            SoundChoice::Named(n) => r matches Sound::Play(p) && p@ == (if name_is_file {
                n@
            } else if system_is_file {
                "/System/Library/Sounds/"@ + n@ + ".aiff"@
            } else {
                n@
            }),
        },
{
    match choice {
        SoundChoice::Off => Sound::Off,
        SoundChoice::Bell => Sound::Bell,
        SoundChoice::Named(n) => {
            if name_is_file {
                Sound::Play(n.clone())
            } else if system_is_file {
                Sound::Play(system_sound_path(n.as_str()))
            } else {
                Sound::Play(n.clone())
            }
        },
    }
}


/// The arguments before any is read.
pub open spec fn initial_args() -> ArgsView {
    ArgsView {
        mode: ModeView::Interactive,
        theme: 0,
        fixed: None,
        hour24: true,
        reminders_path: None,
        cat_name: None,
        cat_file: None,
        sound: SoundView::Bell,
    }
}

pub open spec fn with_mode(st: ArgsView, m: ModeView) -> ArgsView {
    ArgsView { mode: m, ..st }
}

/// Reads the arguments from `argv[i]` on, with `st` read so far. An option that
/// takes a value takes the next argument; `add` takes all the rest, joined with
/// spaces; `-h`/`--help` stops reading.
pub open spec fn parse_from(argv: Seq<Seq<char>>, i: int, st: ArgsView) -> Result<ArgsView, Seq<char>>
    decreases argv.len() - i,
{
    if i >= argv.len() || i < 0 {
        Ok(st)
    } else {
        let a = argv[i];
        let has_value = i + 1 < argv.len();
        let value = argv[i + 1];
        if a == "--snapshot"@ {
            parse_from(argv, i + 1, with_mode(st, ModeView::Snapshot))
        } else if a == "--gallery"@ {
            parse_from(argv, i + 1, with_mode(st, ModeView::Gallery))
        } else if a == "--plain"@ {
            parse_from(argv, i + 1, with_mode(st, ModeView::Plain))
        } else if a == "--list-reminders"@ || a == "list"@ {
            parse_from(argv, i + 1, with_mode(st, ModeView::ListReminders))
        } else if a == "--list-cats"@ {
            parse_from(argv, i + 1, with_mode(st, ModeView::ListCats))
        } else if a == "--list-sounds"@ {
            parse_from(argv, i + 1, with_mode(st, ModeView::ListSounds))
        } else if a == "add"@ {
            Ok(with_mode(st, ModeView::Add(join(argv.subrange(i + 1, argv.len() as int), " "@))))
        } else if a == "rm"@ || a == "remove"@ {
            if !has_value {
                Err("rm needs an index (see `glowclock list`)"@)
            } else {
                match parse_usize_spec(value) {
                    Some(n) => parse_from(argv, i + 2, with_mode(st, ModeView::Rm(n as int))),
                    None => Err("invalid index: "@ + value),
                }
            }
        } else if a == "--24"@ {
            parse_from(argv, i + 1, ArgsView { hour24: true, ..st })
        } else if a == "--12"@ {
            parse_from(argv, i + 1, ArgsView { hour24: false, ..st })
        } else if a == "--theme"@ {
            if !has_value {
                Err("--theme needs a value"@)
            } else {
                match theme_spec(value) {
                    Ok(t) => parse_from(argv, i + 2, ArgsView { theme: t, ..st }),
                    Err(e) => Err(e),
                }
            }
        } else if a == "--time"@ {
            if !has_value {
                Err("--time needs HH:MM:SS"@)
            } else {
                parse_from(argv, i + 2, ArgsView { fixed: Some(value), ..st })
            }
        } else if a == "--reminders"@ {
            if !has_value {
                Err("--reminders needs a path"@)
            } else {
                parse_from(argv, i + 2, ArgsView { reminders_path: Some(value), ..st })
            }
        } else if a == "--cat"@ {
            if !has_value {
                Err("--cat needs a name"@)
            } else {
                parse_from(argv, i + 2, ArgsView { cat_name: Some(value), ..st })
            }
        } else if a == "--cat-file"@ {
            if !has_value {
                Err("--cat-file needs a path"@)
            } else {
                parse_from(argv, i + 2, ArgsView { cat_file: Some(value), ..st })
            }
        } else if a == "--sound"@ {
            if !has_value {
                Err("--sound needs a value"@)
            } else {
                parse_from(argv, i + 2, ArgsView { sound: sound_spec(value), ..st })
            }
        } else if a == "-h"@ || a == "--help"@ {
            Ok(with_mode(st, ModeView::Help))
        } else {
            Err("unknown argument: "@ + a)
        }
    }
}

fn fail_with(msg: &str) -> (r: Result<Args, String>)
    ensures
        r matches Err(e) && e@ == msg@,
{
    Err(String::from_str(msg))
}

/// Parse the command-line arguments (without the program name).
pub fn parse_args(argv: &Vec<String>) -> (r: Result<Args, String>)
    ensures
        match parse_from(argv@.map_values(|a: String| a@), 0, initial_args()) {
            Ok(v) => r matches Ok(a) && a.view_of() == v,
            Err(m) => r matches Err(e) && e@ == m,
        },
{
    let ghost av = argv@.map_values(|a: String| a@);
    let mut args = Args {
        mode: Mode::Interactive,
        theme: 0,
        fixed: None,
        hour24: true,
        reminders_path: None,
        cat_name: None,
        cat_file: None,
        sound: SoundChoice::Bell,
    };
    assert(args.view_of() == initial_args());
    let n = argv.len();
    let mut i: usize = 0;
    while i < n
        invariant
            n == argv@.len(),
            av == argv@.map_values(|a: String| a@),
            i <= n,
            parse_from(av, 0, initial_args()) == parse_from(av, i as int, args.view_of()),
        decreases n - i,
    {
        let a = argv[i].as_str();
        assert(av[i as int] == a@);
        let has_value = i + 1 < n;
        if has_value {
            assert(av[i + 1] == argv@[i + 1]@);
        }
        if str_is(a, "--snapshot") {
            args.mode = Mode::Snapshot;
            i = i + 1;
        } else if str_is(a, "--gallery") {
            args.mode = Mode::Gallery;
            i = i + 1;
        } else if str_is(a, "--plain") {
            args.mode = Mode::Plain;
            i = i + 1;
        } else if str_is(a, "--list-reminders") || str_is(a, "list") {
            args.mode = Mode::ListReminders;
            i = i + 1;
        } else if str_is(a, "--list-cats") {
            args.mode = Mode::ListCats;
            i = i + 1;
        } else if str_is(a, "--list-sounds") {
            args.mode = Mode::ListSounds;
            i = i + 1;
        } else if str_is(a, "add") {
            let mut rest: Vec<String> = Vec::new();
            let mut j = i + 1;
            while j < n
                invariant
                    i + 1 <= j <= n,
                    n == argv@.len(),
                    rest@.map_values(|p: String| p@) == av.subrange(i + 1, j as int),
                    av == argv@.map_values(|a: String| a@),
                decreases n - j,
            {
                let ghost rest0 = rest@;
                rest.push(argv[j].clone());
                proof {
                    assert(rest@ == rest0.push(argv@[j as int]));
                    assert(av[j as int] == argv@[j as int]@);
                    assert(rest@.map_values(|p: String| p@) =~= rest0.map_values(|p: String| p@).push(argv@[j as int]@));
                    assert(av.subrange(i + 1, j + 1) =~= av.subrange(i + 1, j as int).push(av[j as int]));
                }
                j = j + 1;
            }
            let line = join_strings(&rest, " ");
            args.mode = Mode::Add(line);
            return Ok(args);
        } else if str_is(a, "rm") || str_is(a, "remove") {
            if !has_value {
                return fail_with("rm needs an index (see `glowclock list`)");
            }
            let v = argv[i + 1].as_str();
            let cs = chars_of(v);
            let parsed = parse_usize(&cs, 0, cs.len());
            assert(cs@.subrange(0, cs@.len() as int) =~= v@);
            match parsed {
                Some(k) => {
                    args.mode = Mode::Rm(k);
                },
                None => {
                    let mut e = String::from_str("invalid index: ");
                    e.append(v);
                    return Err(e);
                },
            }
            i = i + 2;
        } else if str_is(a, "--24") {
            args.hour24 = true;
            i = i + 1;
        } else if str_is(a, "--12") {
            args.hour24 = false;
            i = i + 1;
        } else if str_is(a, "--theme") {
            if !has_value {
                return fail_with("--theme needs a value");
            }
            match resolve_theme(argv[i + 1].as_str()) {
                Ok(t) => {
                    args.theme = t;
                },
                Err(e) => {
                    return Err(e);
                },
            }
            i = i + 2;
        } else if str_is(a, "--time") {
            if !has_value {
                return fail_with("--time needs HH:MM:SS");
            }
            args.fixed = Some(argv[i + 1].clone());
            i = i + 2;
        } else if str_is(a, "--reminders") {
            if !has_value {
                return fail_with("--reminders needs a path");
            }
            args.reminders_path = Some(argv[i + 1].clone());
            i = i + 2;
        } else if str_is(a, "--cat") {
            if !has_value {
                return fail_with("--cat needs a name");
            }
            args.cat_name = Some(argv[i + 1].clone());
            i = i + 2;
        } else if str_is(a, "--cat-file") {
            if !has_value {
                return fail_with("--cat-file needs a path");
            }
            args.cat_file = Some(argv[i + 1].clone());
            i = i + 2;
        } else if str_is(a, "--sound") {
            if !has_value {
                return fail_with("--sound needs a value");
            }
            args.sound = classify_sound(argv[i + 1].as_str());
            i = i + 2;
        } else if str_is(a, "-h") || str_is(a, "--help") {
            args.mode = Mode::Help;
            return Ok(args);
        } else {
            let mut e = String::from_str("unknown argument: ");
            e.append(a);
            return Err(e);
        }
    }
    Ok(args)
}

/// What `add` decides about its reminder text.
pub enum AddCheck {
    /// Nothing to add.
    Empty,
    /// The reminder has no message text.
    NoMessage,
    /// The schedule does not parse; the parse error.
    Invalid(String),
    /// The trimmed line to append.
    Line(String),
}

/// Check the text of `add`: it must be a reminder line with a message.
pub fn check_add_line(line: &str) -> (r: AddCheck)
    requires
        !line_overflows(trim(line@)),
    ensures
        ({
            let t = trim(line@);
            if t.len() == 0 {
                r is Empty
            } else {
                match line_spec(t) {
                    LineSpec::Fail(m) => r matches AddCheck::Invalid(e) && e@ == m,
                    LineSpec::Every(_, msg) => if trim(msg).len() > 0 { r matches AddCheck::Line(l) && l@ == t } else { r is NoMessage },
                    LineSpec::Keyword(_, msg) => if trim(msg).len() > 0 { r matches AddCheck::Line(l) && l@ == t } else { r is NoMessage },
                    LineSpec::Cron(_, msg) => if trim(msg).len() > 0 { r matches AddCheck::Line(l) && l@ == t } else { r is NoMessage },
                    _ => r is NoMessage,
                }
            }
        }),
{
    let t = trim_string(line);
    if t.as_str().is_empty() {
        return AddCheck::Empty;
    }
    match Reminder::parse(t.as_str()) {
        Ok(Some(r)) => {
            let m = trim_string(r.message.as_str());
            if !m.as_str().is_empty() {
                AddCheck::Line(t)
            } else {
                AddCheck::NoMessage
            }
        },
        Ok(None) => AddCheck::NoMessage,
        Err(e) => AddCheck::Invalid(e),
    }
}

/// The text of the reminders file after appending `line`: a newline is first
/// added to a non-empty text that lacks one, and the line ends with one.
pub open spec fn appended_spec(text: Seq<char>, line: Seq<char>) -> Seq<char> {
    (if text.len() > 0 && text.last() != '\n' { text.push('\n') } else { text }) + line + seq!['\n']
}

/// Append one already-validated reminder line to the file's text.
pub fn append_line_text(text: &str, line: &str) -> (r: String)
    ensures
        r@ == appended_spec(text@, line@),
{
    let cs = chars_of(text);
    let mut r = String::from_str(text);
    if cs.len() > 0 && cs[cs.len() - 1] != '\n' {
        push_char(&mut r, '\n');
    }
    r.append(line);
    push_char(&mut r, '\n');
    r
}

/// Adding a reminder puts its line at the end of the file: the text after the
/// append reads as the old lines followed by the new line.
pub proof fn law_add_appends_last_line(text: Seq<char>, line: Seq<char>)
    requires
        !line.contains('\n'),
        !ends_with_cr(line),
        !ends_with_cr(text),
    ensures
        lines_from(appended_spec(text, line), 0) == lines_from(text, 0).push(line),
{
    let p = if text.len() > 0 && text.last() != '\n' { text.push('\n') } else { text };
    if text.len() > 0 && text.last() != '\n' {
        lemma_lines_add_newline(text);
    }
    assert(appended_spec(text, line) =~= p + line.push('\n'));
    lemma_lines_then_line(p, line);
}

/// What `rm` does to the file's text.
pub enum RmOutcome {
    /// Indices start at 1.
    ZeroIndex,
    /// The new text and the removed line.
    Removed(String, String),
    /// No reminder with that index; how many there are.
    Missing(usize),
}

/// The text of the reminders file without line `k` of its lines.
pub open spec fn without_line(lines: Seq<Seq<char>>, k: int) -> Seq<char> {
    let kept = lines.remove(k);
    let j = join(kept, "\n"@);
    if j.len() > 0 { j.push('\n') } else { j }
}

/// Lines joined with newlines, each ended by one, read back as those lines.
proof fn lemma_joined_lines(ls: Seq<Seq<char>>)
    requires
        ls.len() > 0,
        ls != seq![Seq::<char>::empty()],
        forall|j: int| 0 <= j < ls.len() ==> !(#[trigger] ls[j]).contains('\n') && !ends_with_cr(ls[j]),
    ensures
        join(ls, "\n"@).len() > 0,
        lines_from(join(ls, "\n"@).push('\n'), 0) == ls,
    decreases ls.len(),
{
    reveal_strlit("\n");
    if ls.len() == 1 {
        assert(ls[0].len() > 0) by {
            if ls[0].len() == 0 {
                assert(ls[0] =~= Seq::<char>::empty());
                assert(ls =~= seq![Seq::<char>::empty()]);
            }
        }
        lemma_lines_of_one(ls[0]);
        assert(join(ls, "\n"@) == ls[0]);
        assert(seq![ls[0]] =~= ls);
    } else {
        let d = ls.drop_last();
        let last = ls.last();
        let s = join(d, "\n"@).push('\n');
        assert(join(ls, "\n"@) == join(d, "\n"@) + "\n"@ + last);
        assert(join(ls, "\n"@).push('\n') =~= s + last.push('\n'));
        lemma_lines_then_line(s, last);
        if d == seq![Seq::<char>::empty()] {
            assert(join(d, "\n"@) =~= Seq::<char>::empty());
            assert(s =~= seq!['\n']);
            lemma_find_char_at(s, 0, 1, '\n', 0);
            assert(s.subrange(0, 0) =~= Seq::<char>::empty());
            assert(lines_from(s, 1) =~= Seq::<Seq<char>>::empty());
            assert(lines_from(s, 0) =~= d);
        } else {
            lemma_joined_lines(d);
        }
        assert(d.push(last) =~= ls);
    }
}

/// Removing a line leaves the others as they were: the text written back reads as
/// the old lines without the removed one.
pub proof fn law_rm_keeps_other_lines(text: Seq<char>, k: int)
    requires
        0 <= k < lines_from(text, 0).len(),
        forall|j: int| 0 <= j < lines_from(text, 0).len() ==> !ends_with_cr(#[trigger] lines_from(text, 0)[j]),
        lines_from(text, 0).remove(k) != seq![Seq::<char>::empty()],
    ensures
        lines_from(without_line(lines_from(text, 0), k), 0) == lines_from(text, 0).remove(k),
{
    let lines = lines_from(text, 0);
    let kept = lines.remove(k);
    lemma_lines_have_no_newline(text, 0);
    if kept.len() == 0 {
        reveal_strlit("\n");
        assert(join(kept, "\n"@) =~= Seq::<char>::empty());
        assert(lines_from(Seq::<char>::empty(), 0) =~= kept);
    } else {
        assert forall|j: int| 0 <= j < kept.len() implies !(#[trigger] kept[j]).contains('\n') && !ends_with_cr(kept[j]) by {
            if j < k {
                assert(kept[j] == lines[j]);
            } else {
                assert(kept[j] == lines[j + 1]);
            }
        }
        lemma_joined_lines(kept);
    }
}

/// `rm` removes one reminder: the text written back lists one reminder fewer.
pub proof fn law_rm_lists_one_fewer(text: Seq<char>, index: int)
    requires
        1 <= index <= reminder_lines(lines_from(text, 0)).len(),
        forall|j: int| 0 <= j < lines_from(text, 0).len() ==> !ends_with_cr(#[trigger] lines_from(text, 0)[j]),
        lines_from(text, 0).remove(reminder_lines(lines_from(text, 0))[index - 1]) != seq![Seq::<char>::empty()],
    ensures
        ({
            let lines = lines_from(text, 0);
            let entries = reminder_lines(lines);
            reminder_lines(lines_from(without_line(lines, entries[index - 1]), 0)).len() + 1 == entries.len()
        }),
{
    let lines = lines_from(text, 0);
    let entries = reminder_lines(lines);
    lemma_reminder_lines_members(lines);
    let k = entries[index - 1];
    law_rm_keeps_other_lines(text, k);
    lemma_reminder_lines_remove(lines, k);
}

/// Reading one more line adds its index when it holds a reminder.
proof fn lemma_reminder_lines_step(lines: Seq<Seq<char>>, i: int)
    requires
        0 <= i < lines.len(),
    ensures
        reminder_lines(lines.take(i + 1)) == reminder_lines(lines.take(i)) + if yields_reminder(lines[i]) {
            seq![i]
        } else {
            seq![]
        },
{
    let next = lines.take(i + 1);
    assert(next.drop_last() =~= lines.take(i));
    assert(next.last() == lines[i]);
}

/// Remove the `index`-th reminder (1-based, counting only lines that are
/// reminders) from the file's text; the other lines stay as they were.
#[verifier::spinoff_prover]
#[verifier::rlimit(40)]
pub fn remove_entry(text: &str, index: usize) -> (r: RmOutcome)
    requires
        index >= 1 ==> forall|k: int| 0 <= k < lines_from(text@, 0).len() ==> !line_overflows(#[trigger] lines_from(text@, 0)[k]),
    ensures
        ({
            let lines = lines_from(text@, 0);
            let entries = reminder_lines(lines);
            if index == 0 {
                r is ZeroIndex
            } else if index <= entries.len() {
                r matches RmOutcome::Removed(t, l) && l@ == lines[entries[index - 1]]
                    && t@ == without_line(lines, entries[index - 1])
            } else {
                r matches RmOutcome::Missing(c) && c == entries.len()
            }
        }),
{
    if index == 0 {
        return RmOutcome::ZeroIndex;
    }
    let raw = split_lines(text);
    let ghost lines = lines_from(text@, 0);
    let mut count: usize = 0;
    let mut removed: Option<String> = None;
    let mut kept: Vec<String> = Vec::new();
    let ghost mut seen: Seq<int> = seq![];
    let ghost mut k: int = 0;
    let mut i: usize = 0;
    while i < raw.len()
        invariant
            i <= raw@.len(),
            raw@.map_values(|l: String| l@) == lines,
            lines == lines_from(text@, 0),
            forall|q: int| 0 <= q < lines.len() ==> !line_overflows(#[trigger] lines[q]),
            index >= 1,
            seen == reminder_lines(lines.take(i as int)),
            count == seen.len(),
            count <= i,
            match removed {
                None => count < index && kept@.map_values(|l: String| l@) == lines.take(i as int),
                Some(l) => index <= count && k == seen[index - 1] && 0 <= k < i && l@ == lines[k]
                    && kept@.map_values(|x: String| x@) == lines.take(i as int).remove(k),
            },
        decreases raw.len() - i,
    {
        proof {
            lemma_reminder_lines_step(lines, i as int);
        }
        let ghost pre = lines.take(i as int);
        let ghost next = lines.take(i + 1);
        assert(raw@.map_values(|l: String| l@)[i as int] == raw@[i as int]@);
        let is_entry = match parse_line(raw[i].as_str()) {
            LineParse::Parsed(Some(_)) => true,
            _ => false,
        };
        assert(is_entry == yields_reminder(lines[i as int]));
        let ghost kept0 = kept@;
        if is_entry && count + 1 == index {
            removed = Some(raw[i].clone());
            proof {
                k = i as int;
                assert(next.remove(i as int) =~= pre);
            }
        } else {
            kept.push(raw[i].clone());
            proof {
                assert(kept@ == kept0.push(raw@[i as int]));
                assert(kept@.map_values(|x: String| x@) =~= kept0.map_values(|x: String| x@).push(lines[i as int]));
                if removed is Some {
                    assert(next.remove(k) =~= pre.remove(k).push(lines[i as int]));
                } else {
                    assert(next =~= pre.push(lines[i as int]));
                }
            }
        }
        if is_entry {
            count = count + 1;
        }
        proof {
            seen = reminder_lines(next);
        }
        i = i + 1;
    }
    assert(lines.take(raw@.len() as int) =~= lines);
    match removed {
        Some(line) => {
            let mut out = join_strings(&kept, "\n");
            if !out.as_str().is_empty() {
                push_char(&mut out, '\n');
            }
            RmOutcome::Removed(out, line)
        },
        None => RmOutcome::Missing(count),
    }
}

/// Where the reminders are loaded from.
#[derive(Clone, Copy, Debug, PartialEq, Eq)]
pub enum LoadChoice {
    /// The file given with `--reminders`, read or not, with no fallback.
    Explicit,
    /// The default file with this index: the first that could be read.
    Default(usize),
    /// The built-in reminders.
    BuiltIn,
}

/// The load order: an explicit file, else the first default file that could be
/// read (`readable[i]` for `default_paths()[i]`), else the built-in reminders.
pub fn pick_source(explicit: bool, readable: &Vec<bool>) -> (r: LoadChoice)
    ensures
        explicit ==> r is Explicit,
        !explicit && (exists|i: int| 0 <= i < readable@.len() && readable@[i]) ==> (r matches LoadChoice::Default(k)
            && k < readable@.len() && readable@[k as int] && forall|j: int| 0 <= j < k ==> !readable@[j]),
        !explicit && (forall|i: int| 0 <= i < readable@.len() ==> !readable@[i]) ==> r is BuiltIn,
{
    if explicit {
        return LoadChoice::Explicit;
    }
    let mut i: usize = 0;
    while i < readable.len()
        invariant
            !explicit,
            i <= readable@.len(),
            forall|j: int| 0 <= j < i ==> !readable@[j],
        decreases readable.len() - i,
    {
        if readable[i] {
            return LoadChoice::Default(i);
        }
        i = i + 1;
    }
    LoadChoice::BuiltIn
}

/// The reminders files looked for, in order: one in the working directory, then
/// the user's config file when a home directory is known.
pub fn default_paths(home: Option<&str>) -> (r: Vec<String>)
    ensures
        r@.map_values(|p: String| p@) == match home {
            Some(h) => seq!["glowclock-reminders.txt"@, h@ + "/.config/glowclock/reminders.txt"@],
            None => seq!["glowclock-reminders.txt"@],
        },
{
    let mut v: Vec<String> = Vec::new();
    v.push(String::from_str("glowclock-reminders.txt"));
    if let Some(h) = home {
        let mut p = String::from_str(h);
        p.append("/.config/glowclock/reminders.txt");
        v.push(p);
    }
    assert(v@.map_values(|p: String| p@) =~= match home {
        Some(h) => seq!["glowclock-reminders.txt"@, h@ + "/.config/glowclock/reminders.txt"@],
        None => seq!["glowclock-reminders.txt"@],
    });
    v
}

/// The file that `add`/`rm` should modify: the explicit path, else the first
/// candidate that exists, else the last candidate (the user config path).
pub open spec fn target_spec(explicit: Option<Seq<char>>, candidates: Seq<Seq<char>>, exists: Seq<bool>) -> Seq<char> {
    match explicit {
        Some(p) => p,
        None => if let Some(f) = exists.index_of_first(true) {
            candidates[f]
        } else if candidates.len() > 0 {
            candidates.last()
        } else {
            "glowclock-reminders.txt"@
        },
    }
}

/// Pick the file that `add`/`rm` modify, given which default candidates exist.
pub fn pick_target(explicit: Option<&str>, candidates: &Vec<String>, exists: &Vec<bool>) -> (r: String)
    requires
        exists@.len() == candidates@.len(),
    ensures
        r@ == target_spec(
            match explicit { Some(p) => Some(p@), None => None },
            candidates@.map_values(|c: String| c@),
            exists@,
        ),
{
    if let Some(p) = explicit {
        return String::from_str(p);
    }
    let mut i: usize = 0;
    while i < exists.len()
        invariant
            i <= exists@.len(),
            exists@.len() == candidates@.len(),
            explicit is None,
            forall|k: int| 0 <= k < i ==> exists@[k] == false,
        decreases exists.len() - i,
    {
        if exists[i] {
            proof {
                exists@.index_of_first_ensures(true);
                assert(exists@.contains(true));
                let f = exists@.index_of_first(true).unwrap();
                assert(f >= i) by {
                    if f < i {
                        assert(exists@[f] == false);
                    }
                }
                assert(exists@[i as int]);
                assert(f == i);
                assert(candidates@.map_values(|c: String| c@)[i as int] == candidates@[i as int]@);
                assert(explicit is None);
            }
            return candidates[i].clone();
        }
        i = i + 1;
    }
    proof {
        exists@.index_of_first_ensures(true);
        if candidates.len() > 0 {
            assert(candidates@.map_values(|c: String| c@).last() == candidates@.last()@);
        }
    }
    if candidates.len() > 0 {
        candidates[candidates.len() - 1].clone()
    } else {
        String::from_str("glowclock-reminders.txt")
    }
}

/// How the chosen cat is labelled: its file, else its name, else the default.
pub fn cat_label(cat_file: Option<&str>, cat_name: Option<&str>) -> (r: String)
    ensures
        r@ == match cat_file {
            Some(p) => "file:"@ + p@,
            None => match cat_name {
                Some(n) => n@,
                None => "chonk"@,
            },
        },
{
    match cat_file {
        Some(p) => {
            let mut r = String::from_str("file:");
            r.append(p);
            r
        },
        None => match cat_name {
            Some(n) => String::from_str(n),
            None => String::from_str("chonk"),
        },
    }
}

} // verus!
