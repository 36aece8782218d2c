use tui_from_zero::counter::Msg;
use tui_from_zero::input::{dispatch, KeyCode, KeyEvent, KeyModifiers};

fn k(code: KeyCode) -> KeyEvent {
    KeyEvent::new(code, KeyModifiers::none())
}

#[test]
fn plus_maps_to_increment() {
    assert_eq!(dispatch(k(KeyCode::Char('+'))), Some(Msg::Increment));
    assert_eq!(dispatch(k(KeyCode::Up)), Some(Msg::Increment));
}

#[test]
fn minus_maps_to_decrement() {
    assert_eq!(dispatch(k(KeyCode::Char('-'))), Some(Msg::Decrement));
    assert_eq!(dispatch(k(KeyCode::Down)), Some(Msg::Decrement));
}

#[test]
fn q_and_esc_quit() {
    assert_eq!(dispatch(k(KeyCode::Char('q'))), Some(Msg::Quit));
    assert_eq!(dispatch(k(KeyCode::Esc)), Some(Msg::Quit));
}

#[test]
fn ctrl_c_quits() {
    assert_eq!(
        dispatch(KeyEvent::new(KeyCode::Char('c'), KeyModifiers::control())),
        Some(Msg::Quit)
    );
}

#[test]
fn unmapped_keys_return_none() {
    assert_eq!(dispatch(k(KeyCode::Char('z'))), None);
    assert_eq!(dispatch(k(KeyCode::F(1))), None);
}

fn dispatch_table() -> String {
    let probes: Vec<(&str, KeyEvent)> = vec![
        ("+", k(KeyCode::Char('+'))),
        ("Up", k(KeyCode::Up)),
        ("-", k(KeyCode::Char('-'))),
        ("Down", k(KeyCode::Down)),
        ("r", k(KeyCode::Char('r'))),
        ("q", k(KeyCode::Char('q'))),
        ("Esc", k(KeyCode::Esc)),
        ("Ctrl+c", KeyEvent::new(KeyCode::Char('c'), KeyModifiers::control())),
        ("z", k(KeyCode::Char('z'))),
    ];
    probes
        .into_iter()
        .map(|(label, ev)| format!("{label:<8} -> {:?}\n", dispatch(ev)))
        .collect()
}

#[test]
fn probar_snapshot_dispatch_table() {
    let golden = "\
+        -> Some(Increment)
Up       -> Some(Increment)
-        -> Some(Decrement)
Down     -> Some(Decrement)
r        -> Some(Reset)
q        -> Some(Quit)
Esc      -> Some(Quit)
Ctrl+c   -> Some(Quit)
z        -> None
";
    assert_eq!(dispatch_table(), golden);
}

#[test]
fn ctrl_c_quits_with_other_modifiers_held() {
    let ctrl_shift_alt = KeyModifiers { bits: 2 | 1 | 4 };
    assert_eq!(dispatch(KeyEvent::new(KeyCode::Char('c'), ctrl_shift_alt)), Some(Msg::Quit));
    let shift_only = KeyModifiers { bits: 1 };
    assert_eq!(dispatch(KeyEvent::new(KeyCode::Char('c'), shift_only)), None);
}

#[test]
fn every_mapped_key() {
    assert_eq!(dispatch(k(KeyCode::Char('='))), Some(Msg::Increment));
    assert_eq!(dispatch(k(KeyCode::Char('_'))), Some(Msg::Decrement));
    assert_eq!(dispatch(k(KeyCode::Char('R'))), Some(Msg::Reset));
    assert_eq!(dispatch(k(KeyCode::Char('Q'))), Some(Msg::Quit));
    assert_eq!(dispatch(k(KeyCode::Enter)), None);
    assert_eq!(dispatch(k(KeyCode::Other)), None);
    assert_eq!(
        dispatch(KeyEvent::new(KeyCode::Char('+'), KeyModifiers::control())),
        Some(Msg::Increment)
    );
    assert!(KeyModifiers { bits: 6 }.contains(KeyModifiers::control()));
    assert!(!KeyModifiers { bits: 4 }.contains(KeyModifiers::control()));
}
