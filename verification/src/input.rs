//! Key dispatch, the input boundary of the counter: every key event maps to
//! a message or to nothing.

use vstd::prelude::*;
use crate::counter::Msg;

verus! {

/// The key of a key event.
#[derive(Debug, Clone, Copy, PartialEq, Eq, Structural)]
pub enum KeyCode {
    Backspace,
    Enter,
    Left,
    Right,
    Up,
    Down,
    Home,
    End,
    PageUp,
    PageDown,
    Tab,
    BackTab,
    Delete,
    Insert,
    /// Function key `F(n)`.
    F(u8),
    Char(char),
    Null,
    Esc,
    /// Any other key (lock keys, media keys, lone modifiers, ...).
    Other,
}

/// Held modifier keys as bit flags: shift 1, control 2, alt 4, super 8,
/// hyper 16, meta 32.
#[derive(Debug, Clone, Copy, PartialEq, Eq, Structural)]
pub struct KeyModifiers {
    pub bits: u8,
}

impl KeyModifiers {
    /// No modifier held.
    pub fn none() -> (m: Self)
        ensures
            m.bits == 0,
    {
        KeyModifiers { bits: 0 }
    }

    /// Control held.
    pub fn control() -> (m: Self)
        ensures
            m.bits == 2,
    {
        KeyModifiers { bits: 2 }
    }

    /// Whether every flag of `other` is set here.
    pub fn contains(&self, other: KeyModifiers) -> (r: bool)
        ensures
            r == (self.bits & other.bits == other.bits),
    {
        self.bits & other.bits == other.bits
    }
}

/// Control is among the held modifiers.
pub open spec fn control_held(m: KeyModifiers) -> bool {
    m.bits & 2 == 2
}

/// A key press: the key and the modifiers held with it.
#[derive(Debug, Clone, Copy, PartialEq, Eq, Structural)]
pub struct KeyEvent {
    pub code: KeyCode,
    pub modifiers: KeyModifiers,
}

impl KeyEvent {
    pub fn new(code: KeyCode, modifiers: KeyModifiers) -> (e: Self)
        ensures
            e == (KeyEvent { code, modifiers }),
    {
        KeyEvent { code, modifiers }
    }
}

/// The key map: Ctrl-C quits; `+`, `=` and Up increment; `-`, `_` and Down
/// decrement; `r`/`R` reset; `q`, `Q` and Esc quit; any other key is ignored.
pub open spec fn key_message(ev: KeyEvent) -> Option<Msg> {
    if control_held(ev.modifiers) && ev.code == KeyCode::Char('c') {
        Some(Msg::Quit)
    } else {
        match ev.code {
            KeyCode::Char('+') | KeyCode::Char('=') | KeyCode::Up => Some(Msg::Increment),
            KeyCode::Char('-') | KeyCode::Char('_') | KeyCode::Down => Some(Msg::Decrement),
            KeyCode::Char('r') | KeyCode::Char('R') => Some(Msg::Reset),
            KeyCode::Char('q') | KeyCode::Char('Q') | KeyCode::Esc => Some(Msg::Quit),
            _ => None,
        }
    }
}

/// Map a key event to the message it stands for, or `None` for an ignored
/// key. Total: defined for every event.
pub fn dispatch(ev: KeyEvent) -> (m: Option<Msg>)
    ensures
        m == key_message(ev),
{
    if ev.modifiers.contains(KeyModifiers::control()) && ev.code == KeyCode::Char('c') {
        return Some(Msg::Quit);
    }
    match ev.code {
        KeyCode::Char('+') | KeyCode::Char('=') | KeyCode::Up => Some(Msg::Increment),
        KeyCode::Char('-') | KeyCode::Char('_') | KeyCode::Down => Some(Msg::Decrement),
        KeyCode::Char('r') | KeyCode::Char('R') => Some(Msg::Reset),
        KeyCode::Char('q') | KeyCode::Char('Q') | KeyCode::Esc => Some(Msg::Quit),
        _ => None,
    }
}

/// Ctrl-C quits, whatever other modifiers are held.
pub proof fn lemma_ctrl_c_always_quits(m: KeyModifiers)
    requires
        control_held(m),
    ensures
        key_message(KeyEvent { code: KeyCode::Char('c'), modifiers: m }) == Some(Msg::Quit),
{
}

/// Only the keys of the key map give a message: Ctrl-C, `+`, `=`, Up, `-`,
/// `_`, Down, `r`, `R`, `q`, `Q` and Esc. Every other key (Left, Right, Tab,
/// function keys, other characters, ...) is ignored.
pub proof fn lemma_unmapped_keys_are_ignored(ev: KeyEvent)
    requires
        !(control_held(ev.modifiers) && ev.code == KeyCode::Char('c')),
        ev.code != KeyCode::Char('+'),
        ev.code != KeyCode::Char('='),
        ev.code != KeyCode::Up,
        ev.code != KeyCode::Char('-'),
        ev.code != KeyCode::Char('_'),
        ev.code != KeyCode::Down,
        ev.code != KeyCode::Char('r'),
        ev.code != KeyCode::Char('R'),
        ev.code != KeyCode::Char('q'),
        ev.code != KeyCode::Char('Q'),
        ev.code != KeyCode::Esc,
    ensures
        key_message(ev) is None,
{
}

/// Each key of the key map gives its message, whatever modifiers are held
/// (Ctrl-C quits before the map is read): `+`, `=` and Up increment; `-`,
/// `_` and Down decrement; `r` and `R` reset; `q`, `Q` and Esc quit.
pub proof fn lemma_mapped_keys(ev: KeyEvent)
    ensures
        control_held(ev.modifiers) && ev.code == KeyCode::Char('c') ==> key_message(ev) == Some(
            Msg::Quit,
        ),
        ev.code == KeyCode::Char('+') || ev.code == KeyCode::Char('=') || ev.code == KeyCode::Up
            ==> key_message(ev) == Some(Msg::Increment),
        ev.code == KeyCode::Char('-') || ev.code == KeyCode::Char('_') || ev.code == KeyCode::Down
            ==> key_message(ev) == Some(Msg::Decrement),
        ev.code == KeyCode::Char('r') || ev.code == KeyCode::Char('R') ==> key_message(ev) == Some(
            Msg::Reset,
        ),
        ev.code == KeyCode::Char('q') || ev.code == KeyCode::Char('Q') || ev.code == KeyCode::Esc
            ==> key_message(ev) == Some(Msg::Quit),
{
}

/// Marker line the input demo prints when it finishes.
pub fn contract_marker() -> (s: &'static str)
    ensures
        s@ == "contract: tui-lifecycle-v1 holds — OK"@,
{
    "contract: tui-lifecycle-v1 holds — OK"
}

} // verus!
