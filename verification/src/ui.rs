//! The decisions of the interactive clock: the reminder input line, what a key
//! does, when a popup appears and goes, and where boxes sit on the screen.
//! Drawing and terminal input stay with the caller.
use vstd::prelude::*;
use crate::clock::{DateTime, Hms, display_spec, format_display, weekday_name, weekday_name_spec, pad2, shown_hour};
use crate::reminder::{Manager, Reminder, describes, line_spec, LineSpec, line_overflows, addable, initial_next};
use crate::render::{Scale, best_from, best_scale, clock_width, width_spec};
use crate::text::{chars_of, trim_string, dec, push_char, push_dec, string_of, trim, skip_ws_exec, rskip_ws_exec, lemma_skip_ws, lemma_rskip_ws};

verus! {

/// How long a popup stays before auto-dismissing.
pub const POPUP_TTL_SECS: i64 = 60;

/// A single-line editor for typing a new reminder.
pub struct InputBox {
    pub chars: Vec<char>,
    pub cursor: usize,
    pub error: Option<String>,
}

impl InputBox {
    /// The cursor stands within the text (or just after it).
    pub open spec fn wf(&self) -> bool {
        self.cursor <= self.chars@.len()
    }

    pub fn new() -> (r: InputBox)
        ensures
            r.chars@ == Seq::<char>::empty(),
            r.cursor == 0,
            r.error is None,
    {
        InputBox { chars: Vec::new(), cursor: 0, error: None }
    }

    /// The box holding `text`, cursor at its end, showing `error`.
    pub fn with_error(text: &str, error: String) -> (r: InputBox)
        ensures
            r.chars@ == text@,
            r.cursor == text@.len(),
            r.error == Some(error),
    {
        let chars = chars_of(text);
        let cursor = chars.len();
        InputBox { chars, cursor, error: Some(error) }
    }

    pub fn text(&self) -> (r: String)
        ensures
            r@ == self.chars@,
    {
        let r = string_of(&self.chars, 0, self.chars.len());
        assert(self.chars@.subrange(0, self.chars@.len() as int) =~= self.chars@);
        r
    }

    /// Types `c` at the cursor and clears any error.
    pub fn insert(&mut self, c: char)
        requires
            old(self).wf(),
        ensures
            final(self).wf(),
            final(self).chars@ == old(self).chars@.insert(old(self).cursor as int, c),
            final(self).cursor == old(self).cursor + 1,
            final(self).error is None,
    {
        self.chars.insert(self.cursor, c);
        let n = self.chars.len();
        assert(self.cursor < n);
        self.cursor += 1;
        self.error = None;
    }

    /// Deletes the character before the cursor, if any, clearing any error.
    pub fn backspace(&mut self)
        requires
            old(self).wf(),
        ensures
            final(self).wf(),
            old(self).cursor > 0 ==> final(self).chars@ == old(self).chars@.remove(old(self).cursor - 1)
                && final(self).cursor == old(self).cursor - 1 && final(self).error is None,
            old(self).cursor == 0 ==> final(self).chars@ == old(self).chars@ && final(self).cursor == 0
                && final(self).error == old(self).error,
    {
        if self.cursor > 0 {
            self.cursor -= 1;
            self.chars.remove(self.cursor);
            self.error = None;
        }
    }

    /// Deletes the character at the cursor, if any; the error stays.
    pub fn delete(&mut self)
        requires
            old(self).wf(),
        ensures
            final(self).wf(),
            final(self).cursor == old(self).cursor,
            final(self).error == old(self).error,
            old(self).cursor < old(self).chars@.len() ==> final(self).chars@ == old(self).chars@.remove(old(self).cursor as int),
            old(self).cursor == old(self).chars@.len() ==> final(self).chars@ == old(self).chars@,
    {
        if self.cursor < self.chars.len() {
            self.chars.remove(self.cursor);
        }
    }
}

/// Typing a character and then deleting it with backspace gives back the text
/// and the cursor as they were.
pub proof fn law_backspace_undoes_insert(s: Seq<char>, cursor: int, c: char)
    requires
        0 <= cursor <= s.len(),
    ensures
        s.insert(cursor, c).remove(cursor) == s,
{
    assert(s.insert(cursor, c).remove(cursor) =~= s);
}

/// A key press, as far as the clock tells keys apart.
#[derive(Clone, Copy, Debug, PartialEq, Eq)]
pub enum Key {
    Esc,
    Enter,
    Backspace,
    Delete,
    Left,
    Right,
    Home,
    End,
    Char(char),
    Other,
}

/// A fat-cat reminder popup.
pub struct Popup {
    pub message: String,
    pub shown_at: i64,
}

/// The active overlay above the clock, if any.
pub enum Overlay {
    Hidden,
    Popup(Popup),
    Input(InputBox),
}

/// What a keypress asks the loop to do (things needing the loop's own state).
#[derive(Debug)]
pub enum Action {
    Nothing,
    Quit,
    CycleTheme,
    ToggleFormat,
    Submit(String),
}

pub open spec fn overlay_wf(o: &Overlay) -> bool {
    o matches Overlay::Input(b) ==> b.wf()
}

/// Route a keypress through the current overlay, mutating input state in place
/// and returning any action the loop must perform.
///
/// In the input box: Esc closes it, Enter submits the text, the editing keys edit
/// and move the cursor. Over a popup: `q` quits, any other key closes the popup.
/// With nothing shown: `q` or Esc quits, `a` opens the input box, `c` or space
/// cycles the theme, `f` toggles the hour format.
pub fn handle_key(code: Key, overlay: &mut Overlay) -> (r: Action)
    requires
        overlay_wf(old(overlay)),
    ensures
        overlay_wf(final(overlay)),
        match *old(overlay) {
            Overlay::Input(b) => match code {
                Key::Esc => r is Nothing && *final(overlay) is Hidden,
                Key::Enter => r matches Action::Submit(t) && t@ == b.chars@
                    && *final(overlay) == *old(overlay),
                Key::Backspace => r is Nothing && (*final(overlay) matches Overlay::Input(nb)
                    && (b.cursor > 0 ==> nb.chars@ == b.chars@.remove(b.cursor - 1) && nb.cursor == b.cursor - 1 && nb.error is None)
                    && (b.cursor == 0 ==> nb.chars@ == b.chars@ && nb.cursor == 0 && nb.error == b.error)),
                Key::Delete => r is Nothing && (*final(overlay) matches Overlay::Input(nb)
                    && nb.cursor == b.cursor && nb.error == b.error
                    && (b.cursor < b.chars@.len() ==> nb.chars@ == b.chars@.remove(b.cursor as int))
                    && (b.cursor == b.chars@.len() ==> nb.chars@ == b.chars@)),
                Key::Left => r is Nothing && (*final(overlay) matches Overlay::Input(nb)
                    && nb.chars@ == b.chars@ && nb.error == b.error
                    && nb.cursor == (if b.cursor > 0 { b.cursor - 1 } else { 0 })),
                Key::Right => r is Nothing && (*final(overlay) matches Overlay::Input(nb)
                    && nb.chars@ == b.chars@ && nb.error == b.error
                    && nb.cursor == (if b.cursor + 1 < b.chars@.len() { b.cursor + 1 } else { b.chars@.len() as int })),
                Key::Home => r is Nothing && (*final(overlay) matches Overlay::Input(nb)
                    && nb.chars@ == b.chars@ && nb.error == b.error && nb.cursor == 0),
                Key::End => r is Nothing && (*final(overlay) matches Overlay::Input(nb)
                    && nb.chars@ == b.chars@ && nb.error == b.error && nb.cursor == b.chars@.len()),
                Key::Char(c) => r is Nothing && (*final(overlay) matches Overlay::Input(nb)
                    && nb.chars@ == b.chars@.insert(b.cursor as int, c) && nb.cursor == b.cursor + 1
                    && nb.error is None),
                Key::Other => r is Nothing && *final(overlay) == *old(overlay),
            },
            Overlay::Popup(_) => if code == Key::Char('q') {
                r is Quit && *final(overlay) == *old(overlay)
            } else {
                r is Nothing && *final(overlay) is Hidden
            },
            Overlay::Hidden => match code {
                Key::Char('q') | Key::Esc => r is Quit && *final(overlay) is Hidden,
                Key::Char('a') => r is Nothing && (*final(overlay) matches Overlay::Input(nb)
                    && nb.chars@.len() == 0 && nb.cursor == 0 && nb.error is None),
                Key::Char('c') | Key::Char(' ') => r is CycleTheme && *final(overlay) is Hidden,
                Key::Char('f') => r is ToggleFormat && *final(overlay) is Hidden,
                _ => r is Nothing && *final(overlay) is Hidden,
            },
        },
{
    match overlay {
        Overlay::Input(input) => match code {
            Key::Esc => {
                *overlay = Overlay::Hidden;
                Action::Nothing
            },
            Key::Enter => Action::Submit(input.text()),
            Key::Backspace => {
                input.backspace();
                Action::Nothing
            },
            Key::Delete => {
                input.delete();
                Action::Nothing
            },
            Key::Left => {
                input.cursor = input.cursor.saturating_sub(1);
                Action::Nothing
            },
            Key::Right => {
                let next = if input.cursor < usize::MAX { input.cursor + 1 } else { input.cursor };
                input.cursor = if next < input.chars.len() { next } else { input.chars.len() };
                Action::Nothing
            },
            Key::Home => {
                input.cursor = 0;
                Action::Nothing
            },
            Key::End => {
                input.cursor = input.chars.len();
                Action::Nothing
            },
            Key::Char(c) => {
                input.insert(c);
                Action::Nothing
            },
            Key::Other => Action::Nothing,
        },
        Overlay::Popup(_) => match code {
            Key::Char('q') => Action::Quit,
            _ => {
                *overlay = Overlay::Hidden;
                Action::Nothing
            },
        },
        Overlay::Hidden => match code {
            Key::Char('q') | Key::Esc => Action::Quit,
            Key::Char('a') => {
                *overlay = Overlay::Input(InputBox::new());
                Action::Nothing
            },
            Key::Char('c') | Key::Char(' ') => Action::CycleTheme,
            Key::Char('f') => Action::ToggleFormat,
            _ => Action::Nothing,
        },
    }
}

/// The theme after `i` when cycling through the four themes.
pub fn next_theme(i: usize) -> (r: usize)
    requires
        i < usize::MAX,
    ensures
        r == (i + 1) % 4,
{
    (i + 1) % 4
}

/// The overlay is a popup shown at `shown_at` that has now been up for the
/// whole popup lifetime.
/// One tick of the interactive loop, before drawing. With nothing shown, the first
/// due reminder (if any) pops up at `now` and `true` asks the caller to sound the
/// alert; a popup that has been up for `POPUP_TTL_SECS` closes. A popup or an
/// input in progress is never interrupted by a reminder.
pub fn tick(overlay: &mut Overlay, manager: &mut Manager, dt: &DateTime, now: i64) -> (alert: bool)
    requires
        old(manager)@.wf(),
        *old(overlay) is Hidden ==> !old(manager)@.poll_overflows(*dt, now as int),
        *old(overlay) matches Overlay::Popup(p) ==> i64::MIN <= now - p.shown_at <= i64::MAX,
    ensures
        final(manager)@.wf(),
        match *old(overlay) {
            Overlay::Hidden => match old(manager)@.first_due(*dt, now as int, 0) {
                None => !alert && *final(overlay) is Hidden && final(manager)@ == old(manager)@,
                Some(i) => alert && final(manager)@ == old(manager)@.fire(i, now as int)
                    && (*final(overlay) matches Overlay::Popup(p) && p.message@ == old(manager)@.messages[i]
                    && p.shown_at == now),
            },
            Overlay::Popup(p) => !alert && final(manager)@ == old(manager)@
                && if now - p.shown_at >= POPUP_TTL_SECS { *final(overlay) is Hidden } else { *final(overlay) == *old(overlay) },
            Overlay::Input(_) => !alert && final(manager)@ == old(manager)@ && *final(overlay) == *old(overlay),
        },
{
    match overlay {
        Overlay::Hidden => {
            match manager.poll(dt, now) {
                Some(message) => {
                    *overlay = Overlay::Popup(Popup { message, shown_at: now });
                    true
                },
                None => false,
            }
        },
        Overlay::Popup(p) => {
            if now - p.shown_at >= POPUP_TTL_SECS {
                *overlay = Overlay::Hidden;
            }
            false
        },
        Overlay::Input(_) => false,
    }
}

/// A typed reminder line is accepted when it parses to a reminder with a
/// non-blank message.
pub open spec fn accepted(line: Seq<char>) -> bool {
    let t = trim(line);
    match line_spec(t) {
        LineSpec::Every(_, m) => trim(m).len() > 0,
        LineSpec::Keyword(_, m) => trim(m).len() > 0,
        LineSpec::Cron(_, m) => trim(m).len() > 0,
        _ => false,
    }
}

/// The outcome of checking a typed reminder.
pub enum Submission {
    /// Ready to be saved and added.
    Ready(Reminder),
    /// Shown again in the input box with an error.
    Rejected(InputBox),
}

/// The message shown when a typed reminder has no message.
pub open spec fn no_message_error() -> Seq<char> {
    "需要填写消息文本"@
}

/// Trimmed `s` is empty.
fn is_blank_str(s: &str) -> (r: bool)
    ensures
        r == (trim(s@).len() == 0),
{
    let v = chars_of(s);
    proof {
        lemma_skip_ws(v@, 0, v@.len() as int);
    }
    let a = skip_ws_exec(&v, 0, v.len());
    proof {
        lemma_rskip_ws(v@, a as int, v@.len() as int);
    }
    let b = rskip_ws_exec(&v, a, v.len());
    a == b
}

/// Check a typed reminder: the trimmed line must parse to a reminder with a
/// message; otherwise the input box comes back with the text and an error.
pub fn submit_reminder(line: &str) -> (r: Submission)
    requires
        !line_overflows(trim(line@)),
    ensures
        match line_spec(trim(line@)) {
            LineSpec::Fail(m) => r matches Submission::Rejected(b) && b.chars@ == line@
                && b.cursor == line@.len() && (b.error matches Some(e) && e@ == m),
            _ => if accepted(line@) {
                r matches Submission::Ready(rem) && describes(rem, trim(line@))
            } else {
                r matches Submission::Rejected(b) && b.chars@ == line@ && b.cursor == line@.len()
                    && (b.error matches Some(e) && e@ == no_message_error())
            },
        },
{
    let trimmed = trim_string(line);
    match Reminder::parse(trimmed.as_str()) {
        Ok(Some(r)) => {
            if !is_blank_str(r.message.as_str()) {
                Submission::Ready(r)
            } else {
                Submission::Rejected(InputBox::with_error(line, String::from_str("需要填写消息文本")))
            }
        },
        Ok(None) => Submission::Rejected(InputBox::with_error(line, String::from_str("需要填写消息文本"))),
        Err(e) => Submission::Rejected(InputBox::with_error(line, e)),
    }
}

/// After trying to save a ready reminder: on success it joins `manager` and the
/// cat confirms it; on failure the input box comes back with the write error.
pub fn finish_submission(line: &str, r: Reminder, written: Result<(), String>, manager: &mut Manager, now: i64) -> (o: Overlay)
    requires
        old(manager)@.wf(),
        addable(r.schedule, now as int),
    ensures
        final(manager)@.wf(),
        match written {
            Ok(()) => final(manager)@.schedules == old(manager)@.schedules.push(r.schedule)
                && final(manager)@.messages == old(manager)@.messages.push(r.message@)
                && final(manager)@.cron_last == old(manager)@.cron_last.push(-1i64)
                && final(manager)@.every_next == old(manager)@.every_next.push(initial_next(r.schedule, now as int) as i64)
                && (o matches Overlay::Popup(p) && p.shown_at == now && p.message@ == "已添加提醒："@ + r.message@),
            Err(e) => final(manager)@ == old(manager)@ && (o matches Overlay::Input(b)
                && b.chars@ == line@ && b.cursor == line@.len()
                && (b.error matches Some(x) && x@ == "写入失败："@ + e@)),
        },
{
    match written {
        Ok(()) => {
            let mut message = String::from_str("已添加提醒：");
            message.append(r.message.as_str());
            manager.push(r, now);
            Overlay::Popup(Popup { message, shown_at: now })
        },
        Err(e) => {
            let mut m = String::from_str("写入失败：");
            m.append(e.as_str());
            Overlay::Input(InputBox::with_error(line, m))
        },
    }
}

/// The footer's word for the reminders: "no" when there are none, else "active".
pub fn reminder_count(manager: &Manager) -> (r: &'static str)
    ensures
        r@ == (if manager@.schedules.len() == 0 { "no"@ } else { "active"@ }),
{
    if manager.is_empty() {
        "no"
    } else {
        "active"
    }
}

/// A rectangle of terminal cells.
#[derive(Clone, Copy, Debug, PartialEq, Eq)]
pub struct Rect {
    pub x: u16,
    pub y: u16,
    pub width: u16,
    pub height: u16,
}

pub open spec fn min_int(a: int, b: int) -> int {
    if a < b { a } else { b }
}

pub open spec fn max_int(a: int, b: int) -> int {
    if a > b { a } else { b }
}

/// A `w` x `h` rectangle centered within `area` (clamped to fit).
pub open spec fn centered_spec(w: int, h: int, area: Rect) -> Rect {
    let w2 = min_int(w, area.width as int);
    let h2 = min_int(h, area.height as int);
    Rect {
        x: (area.x + (area.width - w2) / 2) as u16,
        y: (area.y + (area.height - h2) / 2) as u16,
        width: w2 as u16,
        height: h2 as u16,
    }
}

/// The centred rectangle's corner fits in `u16`.
pub open spec fn centerable(w: int, h: int, area: Rect) -> bool {
    &&& area.x + (area.width - min_int(w, area.width as int)) / 2 <= u16::MAX
    &&& area.y + (area.height - min_int(h, area.height as int)) / 2 <= u16::MAX
}

/// A `w` x `h` rectangle centered within `area` (clamped to fit).
pub fn centered_rect(w: u16, h: u16, area: Rect) -> (r: Rect)
    requires
        centerable(w as int, h as int, area),
    ensures
        r == centered_spec(w as int, h as int, area),
        r.width <= area.width && r.height <= area.height,
{
    let w = if w < area.width { w } else { area.width };
    let h = if h < area.height { h } else { area.height };
    Rect { x: area.x + (area.width - w) / 2, y: area.y + (area.height - h) / 2, width: w, height: h }
}

/// The size of the reminder popup: wide enough for the cat and (up to 32 columns
/// of) the message plus a margin, at least 20 wide, inside a 1-cell border of
/// `area`; tall enough for the cat plus 7 rows.
pub open spec fn popup_size(cat_width: int, msg_width: int, cat_rows: int, area: Rect) -> (int, int) {
    let inner = max_int(cat_width, min_int(msg_width, 32));
    let w = max_int(min_int((inner % 65536) + 8, if area.width >= 2 { area.width - 2 } else { 0 }), 20);
    let h = min_int((cat_rows % 65536) + 7, if area.height >= 2 { area.height - 2 } else { 0 });
    (w, h)
}

/// The popup's size arithmetic stays within `u16`.
pub open spec fn popup_fits(cat_width: int, msg_width: int, cat_rows: int) -> bool {
    &&& max_int(cat_width, min_int(msg_width, 32)) % 65536 + 8 <= u16::MAX
    &&& cat_rows % 65536 + 7 <= u16::MAX
}

/// Where the reminder popup goes within `area`.
pub fn popup_rect(cat_width: usize, msg_width: usize, cat_rows: usize, area: Rect) -> (r: Rect)
    requires
        popup_fits(cat_width as int, msg_width as int, cat_rows as int),
        centerable(popup_size(cat_width as int, msg_width as int, cat_rows as int, area).0,
            popup_size(cat_width as int, msg_width as int, cat_rows as int, area).1, area),
    ensures
        r == centered_spec(popup_size(cat_width as int, msg_width as int, cat_rows as int, area).0,
            popup_size(cat_width as int, msg_width as int, cat_rows as int, area).1, area),
{
    let m = if msg_width < 32 { msg_width } else { 32 };
    let inner = if cat_width > m { cat_width } else { m };
    let iw = (inner % 65536) as u16;
    let aw = area.width.saturating_sub(2);
    let w0 = if iw + 8 < aw { iw + 8 } else { aw };
    let w = if w0 > 20 { w0 } else { 20 };
    let ch = (cat_rows % 65536) as u16;
    let ah = area.height.saturating_sub(2);
    let h = if ch + 7 < ah { ch + 7 } else { ah };
    centered_rect(w, h, area)
}

/// The size of the reminder input box: up to 54 by 8 inside a 1-cell border of
/// `area`, at least 24 by 7.
pub open spec fn input_size(area: Rect) -> (int, int) {
    let w = max_int(min_int(54, if area.width >= 2 { area.width - 2 } else { 0 }), 24);
    let h = max_int(min_int(8, if area.height >= 2 { area.height - 2 } else { 0 }), 7);
    (w, h)
}

/// Where the input box goes within `area`.
pub fn input_rect(area: Rect) -> (r: Rect)
    requires
        centerable(input_size(area).0, input_size(area).1, area),
    ensures
        r == centered_spec(input_size(area).0, input_size(area).1, area),
{
    let aw = area.width.saturating_sub(2);
    let w0: u16 = if 54 < aw { 54 } else { aw };
    let w: u16 = if w0 > 24 { w0 } else { 24 };
    let ah = area.height.saturating_sub(2);
    let h0: u16 = if 8 < ah { 8 } else { ah };
    let h: u16 = if h0 > 7 { h0 } else { 7 };
    centered_rect(w, h, area)
}

/// The input line split at the caret: the text before it, the character under it
/// (a space past the end) and the text after it.
pub fn caret_split(b: &InputBox) -> (r: (String, String, String))
    requires
        b.wf(),
    ensures
        r.0@ == b.chars@.subrange(0, b.cursor as int),
        r.1@ == (if b.cursor < b.chars@.len() { seq![b.chars@[b.cursor as int]] } else { seq![' '] }),
        r.2@ == (if b.cursor < b.chars@.len() { b.chars@.subrange(b.cursor + 1, b.chars@.len() as int) } else { seq![] }),
{
    let before = string_of(&b.chars, 0, b.cursor);
    let n = b.chars.len();
    if b.cursor < n {
        let at = string_of(&b.chars, b.cursor, b.cursor + 1);
        assert(b.chars@.subrange(b.cursor as int, b.cursor + 1) =~= seq![b.chars@[b.cursor as int]]);
        let after = string_of(&b.chars, b.cursor + 1, n);
        (before, at, after)
    } else {
        let mut at = String::new();
        push_char(&mut at, ' ');
        assert(at@ =~= seq![' ']);
        (before, at, String::new())
    }
}

/// `text` without its colons.
pub open spec fn without_colons(s: Seq<char>) -> Seq<char>
    decreases s.len(),
{
    if s.len() == 0 {
        seq![]
    } else {
        without_colons(s.drop_last()) + if s.last() == ':' { seq![] } else { seq![s.last()] }
    }
}

proof fn lemma_without_colons_width(s: Seq<char>, scale: Scale)
    ensures
        width_spec(without_colons(s), scale) <= width_spec(s, scale),
        width_spec(without_colons(s), scale) >= 0,
    decreases s.len(),
{
    if s.len() > 0 {
        lemma_without_colons_width(s.drop_last(), scale);
        let p = without_colons(s.drop_last());
        assert(scale.px_w * scale.gap >= 0) by (nonlinear_arith);
        assert(5 * scale.px_w >= 0) by (nonlinear_arith);
        if s.last() != ':' {
            let q = p.push(s.last());
            assert(q.drop_last() =~= p);
            assert(without_colons(s) =~= q);
        } else {
            assert(without_colons(s) =~= p + seq![]);
            assert(p + Seq::<char>::empty() =~= p);
            assert(1 * scale.px_w >= 0) by (nonlinear_arith);
        }
    }
}

fn drop_colons(text: &str) -> (r: String)
    ensures
        r@ == without_colons(text@),
{
    let v = chars_of(text);
    let mut r = String::new();
    let mut i: usize = 0;
    while i < v.len()
        invariant
            i <= v@.len(),
            v@ == text@,
            r@ == without_colons(v@.take(i as int)),
        decreases v.len() - i,
    {
        assert(v@.take(i + 1).drop_last() =~= v@.take(i as int));
        if v[i] != ':' {
            push_char(&mut r, v[i]);
        }
        assert(r@ =~= without_colons(v@.take(i + 1)));
        i = i + 1;
    }
    assert(v@.take(v@.len() as int) =~= v@);
    r
}

/// What the big clock shows in a `max_w` x `max_h` area: `text` at the best scale
/// if that fits the width, else the text without its colons at its best scale.
pub open spec fn fit_spec(text: Seq<char>, max_w: int, max_h: int) -> (Seq<char>, Scale) {
    let s = best_from(text, max_w, max_h, 0);
    if width_spec(text, s) <= max_w {
        (text, s)
    } else {
        let c = without_colons(text);
        (c, best_from(c, max_w, max_h, 0))
    }
}

/// Choose what the big clock shows in a `max_w` x `max_h` area, dropping the
/// colons only when even the smallest scale is too wide.
pub fn fit_display(text: &str, max_w: usize, max_h: usize) -> (r: (String, Scale))
    requires
        width_spec(text@, Scale { px_w: 2, px_h: 2, gap: 1 }) <= usize::MAX,
    ensures
        r.0@ == fit_spec(text@, max_w as int, max_h as int).0,
        r.1 == fit_spec(text@, max_w as int, max_h as int).1,
{
    let s = best_scale(text, max_w, max_h);
    proof {
        crate::render::law_best_scale(text@, max_w as int, max_h as int);
        lemma_best_is_candidate(text@, max_w as int, max_h as int);
        lemma_width_le_default(text@, s);
    }
    if clock_width(text, s) <= max_w {
        (String::from_str(text), s)
    } else {
        let compact = drop_colons(text);
        proof {
            lemma_without_colons_width(text@, Scale { px_w: 2, px_h: 2, gap: 1 });
        }
        let s2 = best_scale(compact.as_str(), max_w, max_h);
        (compact, s2)
    }
}

proof fn lemma_best_is_candidate(text: Seq<char>, max_w: int, max_h: int)
    ensures
        ({
            let s = best_from(text, max_w, max_h, 0);
            s.px_w <= 2 && s.gap == 1
        }),
{
    reveal_with_fuel(best_from, 5);
}

proof fn lemma_width_le_default(text: Seq<char>, s: Scale)
    requires
        s.px_w <= 2,
        s.gap == 1,
    ensures
        width_spec(text, s) <= width_spec(text, Scale { px_w: 2, px_h: 2, gap: 1 }),
    decreases text.len(),
{
    if text.len() > 0 {
        lemma_width_le_default(text.drop_last(), s);
        let g = crate::font::glyph_width(text.last());
        assert(g * s.px_w <= g * 2) by (nonlinear_arith)
            requires s.px_w <= 2, g >= 0;
    }
}

/// Blank rows above the clock to centre `rows` rows in `height` rows.
pub fn top_pad(height: usize, rows: usize) -> (r: usize)
    ensures
        r == (if height > rows { (height - rows) / 2 } else { 0 }),
{
    height.saturating_sub(rows) / 2
}

/// The time text the clock shows: a fixed override, or the time of `dt`.
pub fn shown_text(fixed: &Option<String>, dt: &DateTime, hour24: bool) -> (r: String)
    ensures
        match fixed {
            Some(f) => r@ == f@,
            None => r@ == display_spec(Hms { h: dt.h, m: dt.m, s: dt.s }, hour24),
        },
{
    match fixed {
        Some(f) => f.clone(),
        None => format_display(dt.hms(), hour24),
    }
}

/// A year padded as `{:04}` pads it: zeros to four characters, a sign included.
pub open spec fn pad_year(y: int) -> Seq<char> {
    if y >= 0 {
        let d = dec(y as nat);
        if d.len() < 4 { Seq::new((4 - d.len()) as nat, |_i: int| '0') + d } else { d }
    } else {
        let d = dec((-y) as nat);
        seq!['-'] + if d.len() < 3 { Seq::new((3 - d.len()) as nat, |_i: int| '0') + d } else { d }
    }
}

proof fn lemma_dec_len(n: nat)
    ensures
        dec(n).len() >= 1,
        n < 10 ==> dec(n).len() == 1,
        10 <= n < 100 ==> dec(n).len() == 2,
        100 <= n < 1000 ==> dec(n).len() == 3,
        n >= 1000 ==> dec(n).len() >= 4,
        n >= 100 ==> dec(n).len() >= 3,
    decreases n,
{
    if n >= 10 {
        lemma_dec_len(n / 10);
    }
}

fn push_padded(s: &mut String, n: u64, width: usize)
    requires
        1 <= width <= 4,
    ensures
        final(s)@ == old(s)@ + (if dec(n as nat).len() < width {
            Seq::new((width - dec(n as nat).len()) as nat, |_i: int| '0') + dec(n as nat)
        } else {
            dec(n as nat)
        }),
{
    proof {
        lemma_dec_len(n as nat);
    }
    let digits: usize = if n < 10 { 1 } else if n < 100 { 2 } else if n < 1000 { 3 } else { 4 };
    let ghost s0 = s@;
    let mut k: usize = digits;
    while k < width
        invariant
            digits <= k <= width || (k == digits && digits >= width),
            width <= 4,
            digits as int == (if dec(n as nat).len() < 4 { dec(n as nat).len() as int } else { 4 }),
            s@ == s0 + Seq::new((k - digits) as nat, |_i: int| '0'),
        decreases width - k,
    {
        push_char(s, '0');
        k = k + 1;
        assert(s@ =~= s0 + Seq::new((k - digits) as nat, |_i: int| '0'));
    }
    let ghost s1 = s@;
    push_dec(s, n);
    proof {
        if dec(n as nat).len() < width {
            assert(s@ =~= s0 + (Seq::new((width - dec(n as nat).len()) as nat, |_i: int| '0') + dec(n as nat)));
        } else {
            assert(s1 =~= s0);
        }
    }
}

/// The date line: weekday, then `YYYY-MM-DD`.
pub open spec fn date_label_spec(dt: DateTime) -> Seq<char> {
    weekday_name_spec(dt.dow as int) + seq![' '] + pad_year(dt.year as int) + seq!['-'] + pad2(dt.month as nat)
        + seq!['-'] + pad2(dt.day as nat)
}

/// The date line shown above the clock, e.g. `Thu 2026-09-10`.
pub fn date_label(dt: &DateTime) -> (r: String)
    ensures
        r@ == date_label_spec(*dt),
{
    let mut r = String::from_str(weekday_name(dt.dow));
    push_char(&mut r, ' ');
    let ghost r0 = r@;
    if dt.year >= 0 {
        push_padded(&mut r, dt.year as u64, 4);
    } else {
        push_char(&mut r, '-');
        let a: u64 = if dt.year == i64::MIN { 0x8000_0000_0000_0000u64 } else { (-dt.year) as u64 };
        push_padded(&mut r, a, 3);
    }
    assert(r@ =~= r0 + pad_year(dt.year as int));
    let ghost r1 = r@;
    push_char(&mut r, '-');
    push_padded(&mut r, dt.month as u64, 2);
    push_char(&mut r, '-');
    push_padded(&mut r, dt.day as u64, 2);
    proof {
        lemma_dec_len(dt.month as nat);
        lemma_dec_len(dt.day as nat);
    }
    assert(r@ =~= date_label_spec(*dt));
    r
}

/// A number below 100 padded to two digits: two ASCII digits whose value is the
/// number.
proof fn lemma_pad2(n: nat)
    requires
        n < 100,
    ensures
        pad2(n).len() == 2,
        crate::text::all_digits(pad2(n)),
        10 * (pad2(n)[0] as int - 48) + (pad2(n)[1] as int - 48) == n,
{
    if n < 10 {
        assert(pad2(n) == seq!['0', crate::text::digit_char(n)]);
    } else {
        assert(dec(n / 10) == seq![crate::text::digit_char(n / 10)]);
        assert(pad2(n) == seq![crate::text::digit_char(n / 10), crate::text::digit_char(n % 10)]);
    }
}

/// The clock text is `HH:MM:SS`: two digits each for the shown hour, the minute
/// and the second, with colons between; in 12-hour form the hour runs 1 to 12.
pub proof fn law_display_fields(t: Hms, hour24: bool)
    requires
        t.h < 24,
        t.m < 60,
        t.s < 60,
    ensures
        ({
            let x = display_spec(t, hour24);
            let h: int = if hour24 { t.h as int } else if t.h % 12 == 0 { 12 } else { (t.h % 12) as int };
            &&& x.len() == 8
            &&& x[2] == ':' && x[5] == ':'
            &&& crate::text::all_digits(x.subrange(0, 2)) && crate::text::all_digits(x.subrange(3, 5)) && crate::text::all_digits(x.subrange(6, 8))
            &&& 10 * (x[0] as int - 48) + (x[1] as int - 48) == h
            &&& 10 * (x[3] as int - 48) + (x[4] as int - 48) == t.m
            &&& 10 * (x[6] as int - 48) + (x[7] as int - 48) == t.s
        }),
{
    let hh = shown_hour(t.h as int, hour24);
    lemma_pad2(hh as nat);
    lemma_pad2(t.m as nat);
    lemma_pad2(t.s as nat);
    let x = display_spec(t, hour24);
    let a = pad2(hh as nat);
    let b = pad2(t.m as nat);
    let c = pad2(t.s as nat);
    assert(x =~= seq![a[0], a[1], ':', b[0], b[1], ':', c[0], c[1]]);
    assert(crate::text::all_digits(x.subrange(0, 2))) by {
        assert(x.subrange(0, 2) =~= a);
    }
    assert(crate::text::all_digits(x.subrange(3, 5))) by {
        assert(x.subrange(3, 5) =~= b);
    }
    assert(crate::text::all_digits(x.subrange(6, 8))) by {
        assert(x.subrange(6, 8) =~= c);
    }
}

} // verus!
