//! The console's keyboard controls: what a key press does to the console's
//! settings, and what the console must then do with the session.
use vstd::prelude::*;
use super::{Filter, View};

verus! {

/// A key, as far as the controls tell keys apart.
#[derive(Debug, Clone, Copy, PartialEq, Eq, Structural)]
pub enum Key {
    Char(char),
    Esc,
    Enter,
    Backspace,
    Tab,
    BackTab,
    Left,
    Right,
    Up,
    Down,
    PageUp,
    PageDown,
    Home,
    End,
    Other,
}

/// One key event: the key, the modifiers held, and whether it is a release or
/// an automatic repeat.
#[derive(Debug, Clone, Copy, PartialEq, Eq, Structural)]
pub struct KeyPress {
    pub key: Key,
    pub control: bool,
    pub alt: bool,
    pub release: bool,
    pub repeat: bool,
}

/// The console settings the keys act on. `editing_bytes` is the length in bytes
/// of the search text being typed; `detail_open` says whether a payment's
/// dossier is open; `error` whether the session has stopped on an error.
#[derive(Debug, Clone, Copy, PartialEq, Eq, Structural)]
pub struct Controls {
    pub view: View,
    pub strategy: usize,
    pub running: bool,
    pub speed: usize,
    pub filter: Filter,
    pub editing: bool,
    pub editing_bytes: usize,
    pub help: bool,
    pub help_scroll: u16,
    pub detail_open: bool,
    pub rail_detail: bool,
    pub detail_scroll: u16,
    pub error: bool,
}

/// What the console does after a key, besides taking the new settings.
#[derive(Debug, Clone, Copy, PartialEq, Eq, Structural)]
pub enum Action {
    Nothing,
    Quit,
    /// Advance both runs one minute.
    Step,
    /// A fresh session: from the next seed or the same one, of the next preset
    /// or the same one.
    Restart { next_seed: bool, next_preset: bool },
    /// Keep the selected rows in range.
    Sync,
    /// Forget the selected payment, then keep the rows in range.
    Reselect,
    /// Keep the rows in range, then open the selected payment's dossier.
    OpenDetail,
    /// Move the selection or scroll, by this key.
    MoveRow(Key),
    /// Start typing a search, from the current one.
    BeginEdit,
    CancelEdit,
    /// The typed text becomes the search; then as `Reselect`.
    CommitEdit,
    Backspace,
    Type(char),
}

/// The fastest of the console's speeds.
pub const TOP_SPEED: usize = 4;

/// At most this many bytes of search text are typed.
pub const EDIT_BYTES: usize = 64;

pub open spec fn view_after(v: View) -> View {
    match v {
        View::Overview => View::Payments,
        View::Payments => View::Rails,
        View::Rails => View::Network,
        View::Network => View::Optimizer,
        View::Optimizer => View::Compare,
        View::Compare => View::Overview,
    }
}

pub open spec fn view_before(v: View) -> View {
    match v {
        View::Overview => View::Compare,
        View::Payments => View::Overview,
        View::Rails => View::Payments,
        View::Network => View::Rails,
        View::Optimizer => View::Network,
        View::Compare => View::Optimizer,
    }
}

/// The view a digit key names.
pub open spec fn numbered_view(c: char) -> Option<View> {
    if c == '1' {
        Some(View::Overview)
    } else if c == '2' {
        Some(View::Payments)
    } else if c == '3' {
        Some(View::Rails)
    } else if c == '4' {
        Some(View::Network)
    } else if c == '5' {
        Some(View::Optimizer)
    } else if c == '6' {
        Some(View::Compare)
    } else {
        None
    }
}

pub open spec fn filter_after(f: Filter) -> Filter {
    match f {
        Filter::All => Filter::Active,
        Filter::Active => Filter::Queued,
        Filter::Queued => Filter::Failed,
        Filter::Failed => Filter::Finished,
        Filter::Finished => Filter::All,
    }
}

pub open spec fn scroll_by(x: u16, up: bool, n: u16) -> u16 {
    if up {
        if x as int + n as int > u16::MAX as int {
            u16::MAX
        } else {
            (x + n) as u16
        }
    } else if x < n {
        0
    } else {
        (x - n) as u16
    }
}

pub open spec fn moves_row(k: Key) -> bool {
    k == Key::Down || k == Key::Up || k == Key::Char('j') || k == Key::Char('k') || k == Key::PageDown || k
        == Key::PageUp || k == Key::Home || k == Key::End
}

/// Keys whose repeat would redo a destructive or toggling control.
pub open spec fn no_repeat(k: Key) -> bool {
    k == Key::Char('r') || k == Key::Char('n') || k == Key::Char('c') || k == Key::Char(' ')
}

/// While typing a search.
pub open spec fn editing_outcome(c: Controls, k: Key) -> (Controls, Action) {
    match k {
        Key::Esc => (Controls { editing: false, ..c }, Action::CancelEdit),
        Key::Enter => (Controls { editing: false, ..c }, Action::CommitEdit),
        Key::Backspace => (c, Action::Backspace),
        Key::Char(ch) => if c.editing_bytes < EDIT_BYTES {
            (c, Action::Type(ch))
        } else {
            (c, Action::Nothing)
        },
        _ => (c, Action::Nothing),
    }
}

/// While the help is shown: scroll it.
pub open spec fn help_outcome(c: Controls, k: Key) -> Controls {
    let s = c.help_scroll;
    let next = if k == Key::Down || k == Key::Char('j') {
        scroll_by(s, true, 1)
    } else if k == Key::Up || k == Key::Char('k') {
        scroll_by(s, false, 1)
    } else if k == Key::PageDown {
        scroll_by(s, true, 8)
    } else if k == Key::PageUp {
        scroll_by(s, false, 8)
    } else if k == Key::Home {
        0
    } else if k == Key::End {
        u16::MAX
    } else {
        s
    };
    Controls { help_scroll: next, ..c }
}

/// The main controls, once no mode has taken the key.
pub open spec fn main_outcome(c: Controls, k: Key) -> (Controls, Action) {
    let inspecting = c.detail_open || c.rail_detail;
    if k == Key::Char(' ') && !inspecting && !c.error {
        (Controls { running: !c.running, ..c }, Action::Nothing)
    } else if k == Key::Char('.') {
        (Controls { running: false, ..c }, Action::Step)
    } else if k == Key::Char('+') || k == Key::Char('=') {
        (Controls { speed: if c.speed < TOP_SPEED { (c.speed + 1) as usize } else { TOP_SPEED }, ..c }, Action::Nothing)
    } else if k == Key::Char('-') {
        (Controls { speed: if c.speed == 0 { 0 } else { (c.speed - 1) as usize }, ..c }, Action::Nothing)
    } else if k == Key::Char('r') {
        (c, Action::Restart { next_seed: false, next_preset: false })
    } else if k == Key::Char('n') {
        (c, Action::Restart { next_seed: true, next_preset: false })
    } else if k == Key::Char('c') {
        (c, Action::Restart { next_seed: false, next_preset: true })
    } else if k == Key::Char('s') {
        (
            Controls {
                rail_detail: false,
                strategy: if c.strategy == 0 { 1 } else { 0 },
                detail_open: false,
                ..c
            },
            Action::Sync,
        )
    } else if k == Key::Char('/') {
        (
            Controls {
                rail_detail: false,
                view: View::Payments,
                detail_open: false,
                running: false,
                editing: true,
                ..c
            },
            Action::BeginEdit,
        )
    } else if k == Key::Char('f') && !inspecting {
        (Controls { view: View::Payments, filter: filter_after(c.filter), ..c }, Action::Reselect)
    } else if k == Key::Enter && c.view == View::Rails && !c.rail_detail {
        (Controls { rail_detail: true, detail_scroll: 0, running: false, ..c }, Action::Nothing)
    } else if k == Key::Enter && c.view == View::Payments && !c.detail_open {
        (Controls { detail_scroll: 0, running: false, ..c }, Action::OpenDetail)
    } else if moves_row(k) {
        (c, Action::MoveRow(k))
    } else if !inspecting {
        let view = if k == Key::Tab || k == Key::Right || k == Key::Char('l') {
            view_after(c.view)
        } else if k == Key::BackTab || k == Key::Left || k == Key::Char('h') {
            view_before(c.view)
        } else {
            match k {
                Key::Char(ch) => match numbered_view(ch) {
                    Some(v) => v,
                    None => c.view,
                },
                _ => c.view,
            }
        };
        (Controls { view, ..c }, Action::Sync)
    } else {
        (c, Action::Nothing)
    }
}

/// What a key press does: releases and other modified keys do nothing,
/// control-C and `q` quit, typing a search takes every key, `Esc` closes the
/// help, then an open inspection, then quits, `?` toggles the help and pauses,
/// the help takes the scrolling keys, and repeats of restart, run and
/// preset keys are ignored.
pub open spec fn key_outcome(c: Controls, p: KeyPress) -> (Controls, Action) {
    let k = p.key;
    if p.release {
        (c, Action::Nothing)
    } else if p.control && k == Key::Char('c') {
        (c, Action::Quit)
    } else if p.control || p.alt {
        (c, Action::Nothing)
    } else if c.editing {
        editing_outcome(c, k)
    } else if k == Key::Char('q') {
        (c, Action::Quit)
    } else if k == Key::Esc {
        if c.help {
            (Controls { help: false, ..c }, Action::Nothing)
        } else if c.detail_open || c.rail_detail {
            (Controls { detail_open: false, rail_detail: false, ..c }, Action::Nothing)
        } else {
            (c, Action::Quit)
        }
    } else if k == Key::Char('?') {
        (Controls { help: !c.help, running: false, ..c }, Action::Nothing)
    } else if c.help {
        (help_outcome(c, k), Action::Nothing)
    } else if p.repeat && no_repeat(k) {
        (c, Action::Nothing)
    } else {
        main_outcome(c, k)
    }
}

fn scroll(x: u16, up: bool, n: u16) -> (r: u16)
    ensures
        r == scroll_by(x, up, n),
{
    if up {
        if x > u16::MAX - n {
            u16::MAX
        } else {
            x + n
        }
    } else if x < n {
        0
    } else {
        x - n
    }
}

fn next_view(v: View) -> (r: View)
    ensures
        r == view_after(v),
{
    match v {
        View::Overview => View::Payments,
        View::Payments => View::Rails,
        View::Rails => View::Network,
        View::Network => View::Optimizer,
        View::Optimizer => View::Compare,
        View::Compare => View::Overview,
    }
}

fn previous_view(v: View) -> (r: View)
    ensures
        r == view_before(v),
{
    match v {
        View::Overview => View::Compare,
        View::Payments => View::Overview,
        View::Rails => View::Payments,
        View::Network => View::Rails,
        View::Optimizer => View::Network,
        View::Compare => View::Optimizer,
    }
}

fn view_numbered(c: char) -> (r: Option<View>)
    ensures
        r == numbered_view(c),
{
    if c == '1' {
        Some(View::Overview)
    } else if c == '2' {
        Some(View::Payments)
    } else if c == '3' {
        Some(View::Rails)
    } else if c == '4' {
        Some(View::Network)
    } else if c == '5' {
        Some(View::Optimizer)
    } else if c == '6' {
        Some(View::Compare)
    } else {
        None
    }
}

fn next_filter(f: Filter) -> (r: Filter)
    ensures
        r == filter_after(f),
{
    match f {
        Filter::All => Filter::Active,
        Filter::Active => Filter::Queued,
        Filter::Queued => Filter::Failed,
        Filter::Failed => Filter::Finished,
        Filter::Finished => Filter::All,
    }
}

fn is_row_key(k: Key) -> (r: bool)
    ensures
        r == moves_row(k),
{
    k == Key::Down || k == Key::Up || k == Key::Char('j') || k == Key::Char('k') || k == Key::PageDown || k
        == Key::PageUp || k == Key::Home || k == Key::End
}

fn while_editing(c: Controls, k: Key) -> (r: (Controls, Action))
    ensures
        r == editing_outcome(c, k),
{
    match k {
        Key::Esc => (Controls { editing: false, ..c }, Action::CancelEdit),
        Key::Enter => (Controls { editing: false, ..c }, Action::CommitEdit),
        Key::Backspace => (c, Action::Backspace),
        Key::Char(ch) => if c.editing_bytes < EDIT_BYTES {
            (c, Action::Type(ch))
        } else {
            (c, Action::Nothing)
        },
        _ => (c, Action::Nothing),
    }
}

fn in_help(c: Controls, k: Key) -> (r: Controls)
    ensures
        r == help_outcome(c, k),
{
    let s = c.help_scroll;
    let next = if k == Key::Down || k == Key::Char('j') {
        scroll(s, true, 1)
    } else if k == Key::Up || k == Key::Char('k') {
        scroll(s, false, 1)
    } else if k == Key::PageDown {
        scroll(s, true, 8)
    } else if k == Key::PageUp {
        scroll(s, false, 8)
    } else if k == Key::Home {
        0
    } else if k == Key::End {
        u16::MAX
    } else {
        s
    };
    Controls { help_scroll: next, ..c }
}

fn main_controls(c: Controls, k: Key) -> (r: (Controls, Action))
    ensures
        r == main_outcome(c, k),
{
    let inspecting = c.detail_open || c.rail_detail;
    if k == Key::Char(' ') && !inspecting && !c.error {
        (Controls { running: !c.running, ..c }, Action::Nothing)
    } else if k == Key::Char('.') {
        (Controls { running: false, ..c }, Action::Step)
    } else if k == Key::Char('+') || k == Key::Char('=') {
        (Controls { speed: if c.speed < TOP_SPEED { c.speed + 1 } else { TOP_SPEED }, ..c }, Action::Nothing)
    } else if k == Key::Char('-') {
        (Controls { speed: if c.speed == 0 { 0 } else { c.speed - 1 }, ..c }, Action::Nothing)
    } else if k == Key::Char('r') {
        (c, Action::Restart { next_seed: false, next_preset: false })
    } else if k == Key::Char('n') {
        (c, Action::Restart { next_seed: true, next_preset: false })
    } else if k == Key::Char('c') {
        (c, Action::Restart { next_seed: false, next_preset: true })
    } else if k == Key::Char('s') {
        (
            Controls {
                rail_detail: false,
                strategy: if c.strategy == 0 { 1 } else { 0 },
                detail_open: false,
                ..c
            },
            Action::Sync,
        )
    } else if k == Key::Char('/') {
        (
            Controls {
                rail_detail: false,
                view: View::Payments,
                detail_open: false,
                running: false,
                editing: true,
                ..c
            },
            Action::BeginEdit,
        )
    } else if k == Key::Char('f') && !inspecting {
        (Controls { view: View::Payments, filter: next_filter(c.filter), ..c }, Action::Reselect)
    } else if k == Key::Enter && c.view == View::Rails && !c.rail_detail {
        (Controls { rail_detail: true, detail_scroll: 0, running: false, ..c }, Action::Nothing)
    } else if k == Key::Enter && c.view == View::Payments && !c.detail_open {
        (Controls { detail_scroll: 0, running: false, ..c }, Action::OpenDetail)
    } else if is_row_key(k) {
        (c, Action::MoveRow(k))
    } else if !inspecting {
        let view = if k == Key::Tab || k == Key::Right || k == Key::Char('l') {
            next_view(c.view)
        } else if k == Key::BackTab || k == Key::Left || k == Key::Char('h') {
            previous_view(c.view)
        } else {
            match k {
                Key::Char(ch) => match view_numbered(ch) {
                    Some(v) => v,
                    None => c.view,
                },
                _ => c.view,
            }
        };
        (Controls { view, ..c }, Action::Sync)
    } else {
        (c, Action::Nothing)
    }
}

/// The console's settings after a key press, and what it must then do.
pub fn press(c: Controls, p: KeyPress) -> (r: (Controls, Action))
    ensures
        r == key_outcome(c, p),
{
    let k = p.key;
    if p.release {
        (c, Action::Nothing)
    } else if p.control && k == Key::Char('c') {
        (c, Action::Quit)
    } else if p.control || p.alt {
        (c, Action::Nothing)
    } else if c.editing {
        while_editing(c, k)
    } else if k == Key::Char('q') {
        (c, Action::Quit)
    } else if k == Key::Esc {
        if c.help {
            (Controls { help: false, ..c }, Action::Nothing)
        } else if c.detail_open || c.rail_detail {
            (Controls { detail_open: false, rail_detail: false, ..c }, Action::Nothing)
        } else {
            (c, Action::Quit)
        }
    } else if k == Key::Char('?') {
        (Controls { help: !c.help, running: false, ..c }, Action::Nothing)
    } else if c.help {
        (in_help(c, k), Action::Nothing)
    } else if p.repeat && (k == Key::Char('r') || k == Key::Char('n') || k == Key::Char('c') || k == Key::Char(' ')) {
        (c, Action::Nothing)
    } else {
        main_controls(c, k)
    }
}

/// `Esc` peels one layer: it closes the help, else an open inspection, and
/// quits only when neither is open; `?` toggles the help and pauses.
pub proof fn lemma_escape_layers(c: Controls, p: KeyPress)
    requires
        !p.release && !p.control && !p.alt && !c.editing,
    ensures
        p.key == Key::Esc && c.help ==> key_outcome(c, p) == (Controls { help: false, ..c }, Action::Nothing),
        p.key == Key::Esc && !c.help && (c.detail_open || c.rail_detail) ==> key_outcome(c, p) == (
            Controls { detail_open: false, rail_detail: false, ..c },
            Action::Nothing,
        ),
        p.key == Key::Esc ==> (key_outcome(c, p).1 == Action::Quit <==> !c.help && !c.detail_open && !c.rail_detail),
        p.key == Key::Char('?') ==> key_outcome(c, p) == (Controls { help: !c.help, running: false, ..c }, Action::Nothing),
{
}

/// A plain key outside every mode: no modifier, no release or repeat, no search
/// being typed and no help shown.
pub open spec fn plain_main(c: Controls, p: KeyPress) -> bool {
    !p.release && !p.control && !p.alt && !p.repeat && !c.editing && !c.help
}

/// The session keys: `r` restarts the same session (same seed, same preset),
/// `n` restarts on the next seed, `c` moves to the next preset, `.` pauses and
/// advances one minute; none of them changes any other setting.
pub proof fn lemma_session_keys(c: Controls, p: KeyPress)
    requires
        plain_main(c, p),
    ensures
        p.key == Key::Char('r') ==> key_outcome(c, p) == (c, Action::Restart { next_seed: false, next_preset: false }),
        p.key == Key::Char('n') ==> key_outcome(c, p) == (c, Action::Restart { next_seed: true, next_preset: false }),
        p.key == Key::Char('c') ==> key_outcome(c, p) == (c, Action::Restart { next_seed: false, next_preset: true }),
        p.key == Key::Char('.') ==> key_outcome(c, p) == (Controls { running: false, ..c }, Action::Step),
        p.key == Key::Char('q') ==> key_outcome(c, p).1 == Action::Quit,
{
}

/// The speed keys move one step within the console's speeds, `+` and `=` up,
/// `-` down, and stop at either end.
pub proof fn lemma_speed_keys(c: Controls, p: KeyPress)
    requires
        plain_main(c, p),
        c.speed <= TOP_SPEED,
    ensures
        p.key == Key::Char('+') || p.key == Key::Char('=') ==> key_outcome(c, p).0.speed == if c.speed == TOP_SPEED {
            c.speed as int
        } else {
            c.speed + 1
        },
        p.key == Key::Char('-') ==> key_outcome(c, p).0.speed == if c.speed == 0 { 0 } else { c.speed - 1 },
        p.key == Key::Char('+') || p.key == Key::Char('=') || p.key == Key::Char('-') ==> key_outcome(c, p)
            == (Controls { speed: key_outcome(c, p).0.speed, ..c }, Action::Nothing),
{
}

/// With nothing open, the view keys step through the six views in a cycle:
/// forward and back are inverse, and the digits name the views in order.
pub proof fn lemma_view_keys(c: Controls, p: KeyPress)
    requires
        plain_main(c, p),
        !c.detail_open,
        !c.rail_detail,
    ensures
        p.key == Key::Tab ==> key_outcome(c, p).1 == Action::Sync && view_before(key_outcome(c, p).0.view) == c.view,
        p.key == Key::BackTab ==> key_outcome(c, p).1 == Action::Sync && view_after(key_outcome(c, p).0.view) == c.view,
        p.key == Key::Tab && c.view == View::Overview ==> key_outcome(c, p).0.view == View::Payments,
        p.key == Key::Tab && c.view == View::Compare ==> key_outcome(c, p).0.view == View::Overview,
        p.key == Key::Char('1') ==> key_outcome(c, p).0.view == View::Overview,
        p.key == Key::Char('2') ==> key_outcome(c, p).0.view == View::Payments,
        p.key == Key::Char('6') ==> key_outcome(c, p).0.view == View::Compare,
        p.key == Key::Char('f') ==> key_outcome(c, p) == (
            Controls { view: View::Payments, filter: filter_after(c.filter), ..c },
            Action::Reselect,
        ) && filter_after(c.filter) != c.filter,
{
}

/// The inspection keys: `s` switches to the other strategy and closes any
/// inspection, `/` starts typing a search on the payments view, `Enter` opens
/// the rail inspection on the rails view or the selected payment's dossier on
/// the payments view, pausing either way, and the row keys move the selection.
pub proof fn lemma_inspection_keys(c: Controls, p: KeyPress)
    requires
        plain_main(c, p),
        c.strategy <= 1,
    ensures
        p.key == Key::Char('s') ==> key_outcome(c, p) == (
            Controls { strategy: (1 - c.strategy) as usize, detail_open: false, rail_detail: false, ..c },
            Action::Sync,
        ),
        p.key == Key::Char('/') ==> key_outcome(c, p) == (
            Controls { view: View::Payments, editing: true, running: false, detail_open: false, rail_detail: false, ..c },
            Action::BeginEdit,
        ),
        p.key == Key::Enter && c.view == View::Rails && !c.rail_detail ==> key_outcome(c, p) == (
            Controls { rail_detail: true, detail_scroll: 0, running: false, ..c },
            Action::Nothing,
        ),
        p.key == Key::Enter && c.view == View::Payments && !c.detail_open && !c.rail_detail ==> key_outcome(c, p)
            == (Controls { detail_scroll: 0, running: false, ..c }, Action::OpenDetail),
        p.key == Key::Down || p.key == Key::Up || p.key == Key::PageDown || p.key == Key::PageUp || p.key == Key::Home
            || p.key == Key::End ==> key_outcome(c, p) == (c, Action::MoveRow(p.key)),
{
}

/// While the help is shown the row keys scroll it, by one or by a page of
/// eight, never past either end, and nothing else changes.
pub proof fn lemma_help_scroll(c: Controls, p: KeyPress)
    requires
        !p.release && !p.control && !p.alt && !c.editing && c.help,
    ensures
        p.key == Key::Down ==> key_outcome(c, p).0.help_scroll == if c.help_scroll == u16::MAX {
            u16::MAX as int
        } else {
            c.help_scroll + 1
        },
        p.key == Key::Up ==> key_outcome(c, p).0.help_scroll == if c.help_scroll == 0 { 0 } else { c.help_scroll - 1 },
        p.key == Key::PageDown ==> key_outcome(c, p).0.help_scroll == if c.help_scroll + 8 > u16::MAX {
            u16::MAX as int
        } else {
            c.help_scroll + 8
        },
        p.key == Key::PageUp ==> key_outcome(c, p).0.help_scroll == if c.help_scroll < 8 { 0 } else { c.help_scroll - 8 },
        p.key == Key::Home ==> key_outcome(c, p).0.help_scroll == 0,
        p.key == Key::End ==> key_outcome(c, p).0.help_scroll == u16::MAX,
        p.key != Key::Esc && p.key != Key::Char('?') && p.key != Key::Char('q') ==> key_outcome(c, p) == (
            Controls { help_scroll: key_outcome(c, p).0.help_scroll, ..c },
            Action::Nothing,
        ),
{
}

/// Typing a search: every key goes to the search, `Enter` commits it and
/// `Esc` drops it, and no more than the byte limit is typed.
pub proof fn lemma_typing_keys(c: Controls, p: KeyPress, ch: char)
    requires
        !p.release && !p.control && !p.alt,
        c.editing,
    ensures
        p.key == Key::Enter ==> key_outcome(c, p) == (Controls { editing: false, ..c }, Action::CommitEdit),
        p.key == Key::Esc ==> key_outcome(c, p) == (Controls { editing: false, ..c }, Action::CancelEdit),
        p.key == Key::Char(ch) ==> key_outcome(c, p) == (c, if c.editing_bytes < EDIT_BYTES {
            Action::Type(ch)
        } else {
            Action::Nothing
        }),
        p.key == Key::Backspace ==> key_outcome(c, p) == (c, Action::Backspace),
        p.key == Key::Char('q') ==> key_outcome(c, p).1 != Action::Quit,
{
}

/// A release does nothing; control-C quits from anywhere; any other key held
/// with control or alt does nothing.
pub proof fn lemma_modified_keys(c: Controls, p: KeyPress)
    ensures
        p.release ==> key_outcome(c, p) == (c, Action::Nothing),
        !p.release && p.control && p.key == Key::Char('c') ==> key_outcome(c, p) == (c, Action::Quit),
        !p.release && (p.control || p.alt) && !(p.control && p.key == Key::Char('c')) ==> key_outcome(c, p) == (
            c,
            Action::Nothing,
        ),
{
}

/// A paused console is set running only by the space key, pressed plainly,
/// while no search is typed, no help or inspection is open, and the session
/// has not stopped on an error.
pub proof fn lemma_running_needs_space(c: Controls, p: KeyPress)
    requires
        !c.running,
    ensures
        key_outcome(c, p).0.running ==> p.key == Key::Char(' ') && !p.release && !p.control && !p.alt
            && !c.editing && !c.help && !c.detail_open && !c.rail_detail && !c.error,
{
}

} // verus!
