use tui_from_zero::harness::{diff_snapshot, snapshot};
use tui_from_zero::counter::State;
use tui_from_zero::input::{KeyCode, KeyEvent, KeyModifiers};
use tui_from_zero::ptop::{handle_key, status_line, view, Snapshot};

#[test]
fn fixture_view_paints_within_buffer_bounds() {
    let snap = Snapshot::fixture();
    let buf = view(&snap);
    for y in 0..buf.height() {
        for x in 0..buf.width() {
            let _ = buf.get(x, y);
        }
    }
}

#[test]
fn fixture_is_deterministic() {
    let a = view(&Snapshot::fixture());
    let b = view(&Snapshot::fixture());
    assert!(diff_snapshot(&a, &snapshot(&b)).is_empty(), "fixture view diverged across calls");
}

#[test]
fn probar_snapshot_fixture_view() {
    let snap = Snapshot::fixture();
    let buf = view(&snap);
    let actual = snapshot(&buf);
    assert!(actual.contains("CpuGrid"), "title bar mentions CpuGrid");
    assert!(actual.contains("NAME"), "ProcessTable header present");
    assert!(actual.contains("rustc"), "fixture's rustc process present");
    assert!(actual.contains("ptop-mini"), "fixture's ptop-mini process present");
    assert!(actual.contains("["), "memory bar opener present");
    assert!(actual.contains("]"), "memory bar closer present");
    assert!(actual.contains("█"), "filled-cell glyph (cpu grid + memory) present");
    let buf2 = view(&snap);
    assert!(diff_snapshot(&buf2, &actual).is_empty(), "view(fixture) is non-deterministic");
}

#[test]
fn fixture_frame_rows() {
    let snap = Snapshot::fixture();
    assert_eq!(snap.cores.len(), 8);
    assert_eq!(snap.history.len(), 28);
    assert_eq!(snap.processes.len(), 5);
    let text = snapshot(&view(&snap));
    let rows: Vec<&str> = text.lines().collect();
    assert_eq!(rows.len(), 10);
    assert_eq!(rows[5], format!("{:<60}", "NAME              CPU%   MEM%"));
    assert!(rows[6].starts_with("ptop-mini         14.2    0.9"));
    assert!(rows[9].starts_with("code              25.7    7.2"));
    assert_eq!(rows[3].chars().filter(|c| *c == '█').count(), 58 * 94 / 160);
}

fn key(code: KeyCode, modifiers: KeyModifiers) -> KeyEvent {
    KeyEvent::new(code, modifiers)
}

#[test]
fn keys_drive_the_live_counter() {
    let s = State { count: 4 };
    assert_eq!(handle_key(s, key(KeyCode::Char('+'), KeyModifiers::none())), (State { count: 5 }, false));
    assert_eq!(handle_key(s, key(KeyCode::Down, KeyModifiers::none())), (State { count: 3 }, false));
    assert_eq!(handle_key(s, key(KeyCode::Char('r'), KeyModifiers::none())), (State { count: 0 }, false));
    assert_eq!(handle_key(s, key(KeyCode::Char('z'), KeyModifiers::none())), (s, false));
}

#[test]
fn quit_keys_close_the_live_view() {
    let s = State { count: 4 };
    assert_eq!(handle_key(s, key(KeyCode::Char('q'), KeyModifiers::none())), (s, true));
    assert_eq!(handle_key(s, key(KeyCode::Esc, KeyModifiers::none())), (s, true));
    assert_eq!(handle_key(s, key(KeyCode::Char('c'), KeyModifiers::control())), (s, true));
    assert_eq!(handle_key(s, key(KeyCode::Char('d'), KeyModifiers::control())), (s, true));
    assert_eq!(handle_key(s, key(KeyCode::Char('d'), KeyModifiers::none())), (s, false));
    assert_eq!(handle_key(s, key(KeyCode::Char('c'), KeyModifiers::none())), (s, false));
}

#[test]
fn status_line_formats_uptime_ticks_and_counter() {
    assert_eq!(
        status_line(7, 3, -2),
        "\x1b[11;1H\x1b[38;5;7m  q/Esc to quit · uptime    7s · ticks 3 · counter=-2\x1b[0m\x1b[K"
    );
    assert_eq!(
        status_line(12345, 0, 10),
        "\x1b[11;1H\x1b[38;5;7m  q/Esc to quit · uptime 12345s · ticks 0 · counter=10\x1b[0m\x1b[K"
    );
}
