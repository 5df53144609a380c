use payment_routing::console::controls::{press, Action, Controls, Key, KeyPress};
use payment_routing::console::{Filter, View};

fn paused() -> Controls {
    Controls {
        view: View::Overview,
        strategy: 1,
        running: false,
        speed: 1,
        filter: Filter::All,
        editing: false,
        editing_bytes: 0,
        help: false,
        help_scroll: 0,
        detail_open: false,
        rail_detail: false,
        detail_scroll: 0,
        error: false,
    }
}

fn plain(key: Key) -> KeyPress {
    KeyPress { key, control: false, alt: false, release: false, repeat: false }
}

#[test]
fn space_runs_and_pauses_but_not_over_an_inspection_or_error() {
    let (c, a) = press(paused(), plain(Key::Char(' ')));
    assert!(c.running);
    assert_eq!(a, Action::Nothing);
    let (c, _) = press(c, plain(Key::Char(' ')));
    assert!(!c.running);
    let inspecting = Controls { detail_open: true, ..paused() };
    assert!(!press(inspecting, plain(Key::Char(' '))).0.running);
    let failed = Controls { error: true, ..paused() };
    assert!(!press(failed, plain(Key::Char(' '))).0.running);
    let repeated = KeyPress { repeat: true, ..plain(Key::Char(' ')) };
    assert_eq!(press(paused(), repeated), (paused(), Action::Nothing));
}

#[test]
fn quitting_help_and_escape_layers() {
    let ctrl_c = KeyPress { control: true, ..plain(Key::Char('c')) };
    assert_eq!(press(paused(), ctrl_c).1, Action::Quit);
    let alt_q = KeyPress { alt: true, ..plain(Key::Char('q')) };
    assert_eq!(press(paused(), alt_q).1, Action::Nothing);
    assert_eq!(press(paused(), plain(Key::Char('q'))).1, Action::Quit);
    let running = Controls { running: true, ..paused() };
    let (c, a) = press(running, plain(Key::Char('?')));
    assert!(c.help && !c.running);
    assert_eq!(a, Action::Nothing);
    let (c, _) = press(c, plain(Key::PageDown));
    assert_eq!(c.help_scroll, 8);
    let (c, _) = press(c, plain(Key::End));
    assert_eq!(c.help_scroll, u16::MAX);
    let (c, _) = press(c, plain(Key::Down));
    assert_eq!(c.help_scroll, u16::MAX);
    let (c, a) = press(c, plain(Key::Esc));
    assert!(!c.help);
    assert_eq!(a, Action::Nothing);
    let open = Controls { rail_detail: true, view: View::Rails, ..paused() };
    let (c, a) = press(open, plain(Key::Esc));
    assert!(!c.rail_detail && !c.detail_open);
    assert_eq!(a, Action::Nothing);
    assert_eq!(press(c, plain(Key::Esc)).1, Action::Quit);
    let release = KeyPress { release: true, ..plain(Key::Char('q')) };
    assert_eq!(press(paused(), release).1, Action::Nothing);
}

#[test]
fn views_filters_speeds_and_restarts() {
    assert_eq!(press(paused(), plain(Key::Tab)).0.view, View::Payments);
    assert_eq!(press(paused(), plain(Key::Left)).0.view, View::Compare);
    let (c, a) = press(paused(), plain(Key::Char('5')));
    assert_eq!(c.view, View::Optimizer);
    assert_eq!(a, Action::Sync);
    let (c, a) = press(paused(), plain(Key::Char('f')));
    assert_eq!((c.view, c.filter, a), (View::Payments, Filter::Active, Action::Reselect));
    let fast = Controls { speed: 4, ..paused() };
    assert_eq!(press(fast, plain(Key::Char('+'))).0.speed, 4);
    assert_eq!(press(paused(), plain(Key::Char('='))).0.speed, 2);
    let slow = Controls { speed: 0, ..paused() };
    assert_eq!(press(slow, plain(Key::Char('-'))).0.speed, 0);
    assert_eq!(press(paused(), plain(Key::Char('n'))).1, Action::Restart { next_seed: true, next_preset: false });
    assert_eq!(press(paused(), plain(Key::Char('c'))).1, Action::Restart { next_seed: false, next_preset: true });
    let (c, a) = press(Controls { running: true, ..paused() }, plain(Key::Char('.')));
    assert!(!c.running);
    assert_eq!(a, Action::Step);
    let (c, a) = press(paused(), plain(Key::Char('s')));
    assert_eq!((c.strategy, a), (0, Action::Sync));
    assert_eq!(press(paused(), plain(Key::Char('j'))).1, Action::MoveRow(Key::Char('j')));
}

#[test]
fn typing_a_search_takes_every_key_up_to_the_byte_limit() {
    let (c, a) = press(paused(), plain(Key::Char('/')));
    assert!(c.editing);
    assert_eq!((c.view, a), (View::Payments, Action::BeginEdit));
    assert_eq!(press(c, plain(Key::Char('q'))).1, Action::Type('q'));
    let full = Controls { editing_bytes: 64, ..c };
    assert_eq!(press(full, plain(Key::Char('x'))).1, Action::Nothing);
    assert_eq!(press(c, plain(Key::Backspace)).1, Action::Backspace);
    let (done, a) = press(c, plain(Key::Enter));
    assert!(!done.editing);
    assert_eq!(a, Action::CommitEdit);
    let (gone, a) = press(c, plain(Key::Esc));
    assert!(!gone.editing);
    assert_eq!(a, Action::CancelEdit);
}
