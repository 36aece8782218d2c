//! The process dashboard: a sampled system snapshot and the frame it is
//! drawn as.

use vstd::prelude::*;
use crate::cellbuffer::CellBuffer;
use crate::counter::{Msg, State, step, update};
use crate::input::{KeyCode, KeyEvent, KeyModifiers, control_held, dispatch, key_message};
use crate::panels::{Process, dashboard_frame, pad_left, push_padded_left, render_dashboard};
use crate::text::{decimal, push_decimal, push_signed_decimal, push_str, signed_decimal, string_of};

verus! {

/// A sample of the system: load per core (thousandths), memory used and
/// total (tenths of a gigabyte), recent load history (hundredths), and the
/// process list.
#[derive(Debug, Clone, Default)]
pub struct Snapshot {
    pub cores: Vec<u32>,
    pub mem_used_gb: i64,
    pub mem_total_gb: i64,
    pub history: Vec<u64>,
    pub processes: Vec<Process>,
}

fn process(name: &str, cpu: i32, mem: i32) -> (p: Process)
    ensures
        p.name@ == name@,
        p.cpu == cpu,
        p.mem == mem,
{
    Process { name: String::from_str(name), cpu, mem }
}

impl Snapshot {
    /// A fixed snapshot: eight cores, 9.4 of 16 GB in use, a 28-sample
    /// load history (5.5 + 3.5 sin 0.35i, in hundredths) and five processes.
    pub fn fixture() -> (s: Self)
        ensures
            s.cores@ == seq![180u32, 420, 710, 880, 550, 340, 620, 270],
            s.mem_used_gb == 94,
            s.mem_total_gb == 160,
            s.history@ == seq![
                550u64, 670, 775, 854, 895, 894, 852, 773, 667, 547, 427, 322, 245, 205,
                206, 249, 329, 436, 556, 676, 780, 856, 896, 893, 849, 769, 662, 541,
            ],
            s.processes@.len() == 5,
            s.processes@[0].name@ == "ptop-mini"@ && s.processes@[0].cpu == 142
                && s.processes@[0].mem == 9,
            s.processes@[1].name@ == "rustc"@ && s.processes@[1].cpu == 885
                && s.processes@[1].mem == 46,
            s.processes@[2].name@ == "cargo"@ && s.processes@[2].cpu == 64
                && s.processes@[2].mem == 11,
            s.processes@[3].name@ == "code"@ && s.processes@[3].cpu == 257
                && s.processes@[3].mem == 72,
            s.processes@[4].name@ == "kani"@ && s.processes@[4].cpu == 510
                && s.processes@[4].mem == 24,
    {
        let cores: Vec<u32> = vec![180, 420, 710, 880, 550, 340, 620, 270];
        let history: Vec<u64> = vec![
            550, 670, 775, 854, 895, 894, 852, 773, 667, 547, 427, 322, 245, 205,
            206, 249, 329, 436, 556, 676, 780, 856, 896, 893, 849, 769, 662, 541,
        ];
        let mut processes: Vec<Process> = Vec::new();
        processes.push(process("ptop-mini", 142, 9));
        processes.push(process("rustc", 885, 46));
        processes.push(process("cargo", 64, 11));
        processes.push(process("code", 257, 72));
        processes.push(process("kani", 510, 24));
        Snapshot { cores, mem_used_gb: 94, mem_total_gb: 160, history, processes }
    }
}

impl Snapshot {
    /// Slide the load history one sample along: drop the oldest sample and
    /// append `sample`. The history must not be empty.
    pub fn push_sample(&mut self, sample: u64)
        requires
            old(self).history@.len() > 0,
        ensures
            final(self).history@ == old(self).history@.drop_first().push(sample),
            final(self).cores@ == old(self).cores@,
            final(self).mem_used_gb == old(self).mem_used_gb,
            final(self).mem_total_gb == old(self).mem_total_gb,
            final(self).processes@ == old(self).processes@,
    {
        self.history.remove(0);
        self.history.push(sample);
        assert(self.history@ =~= old(self).history@.drop_first().push(sample));
    }
}

/// Draw a snapshot as the dashboard frame.
pub fn view(snap: &Snapshot) -> (buf: CellBuffer)
    requires
        snap.history@.len() <= usize::MAX - 30,
    ensures
        buf@.wf(),
        buf@ == dashboard_frame(
            snap.cores@,
            snap.processes@,
            snap.mem_used_gb,
            snap.mem_total_gb,
            snap.history@,
        ),
{
    render_dashboard(
        snap.cores.as_slice(),
        snap.processes.as_slice(),
        snap.mem_used_gb,
        snap.mem_total_gb,
        snap.history.as_slice(),
    )
}

/// Ctrl-D, the terminal's end-of-input key.
pub open spec fn is_ctrl_d(ev: KeyEvent) -> bool {
    ev.code == KeyCode::Char('d') && control_held(ev.modifiers)
}

/// The live view's reaction to a key: the counter after the key's message
/// (unchanged for an ignored key), and whether the view closes, on `Quit`
/// or on Ctrl-D.
pub open spec fn key_step(state: State, ev: KeyEvent) -> (State, bool) {
    match key_message(ev) {
        Some(m) => (step(state, m), m == Msg::Quit || is_ctrl_d(ev)),
        None => (state, is_ctrl_d(ev)),
    }
}

/// Fold a key press into the live view's counter; the flag says whether the
/// view closes.
pub fn handle_key(state: State, ev: KeyEvent) -> (r: (State, bool))
    ensures
        r == key_step(state, ev),
{
    let mut next = state;
    let mut quit = false;
    if let Some(msg) = dispatch(ev) {
        next = update(state, msg);
        if msg == Msg::Quit {
            quit = true;
        }
    }
    if ev.code == KeyCode::Char('d') && ev.modifiers.contains(KeyModifiers::control()) {
        quit = true;
    }
    (next, quit)
}

/// `q`, `Q`, Esc, Ctrl-C and Ctrl-D close the live view, whatever the state.
pub proof fn lemma_quit_keys_close(state: State, ev: KeyEvent)
    requires
        ev.code == KeyCode::Char('q') || ev.code == KeyCode::Char('Q') || ev.code == KeyCode::Esc
            || (control_held(ev.modifiers) && (ev.code == KeyCode::Char('c') || ev.code
            == KeyCode::Char('d'))),
    ensures
        key_step(state, ev).1,
{
}

/// How keys move the live view's counter: Up adds one and Down takes one
/// away (away from the `i32` bounds), `r` sets it to zero, and a key that
/// gives no message leaves it as it was and keeps the view open unless it
/// is Ctrl-D.
pub proof fn lemma_keys_move_counter(state: State, ev: KeyEvent)
    ensures
        ev.code == KeyCode::Up && state.count < i32::MAX ==> key_step(state, ev).0.count
            == state.count + 1 && !key_step(state, ev).1,
        ev.code == KeyCode::Down && state.count > i32::MIN ==> key_step(state, ev).0.count
            == state.count - 1 && !key_step(state, ev).1,
        ev.code == KeyCode::Char('r') ==> key_step(state, ev).0.count == 0 && !key_step(
            state,
            ev,
        ).1,
        key_message(ev) is None ==> key_step(state, ev).0 == state && (key_step(state, ev).1
            <==> is_ctrl_d(ev)),
{
}

/// The status line under the live view: cursor to row 11, grey text with the
/// uptime in seconds (right-aligned in 4 columns), the tick count and the
/// counter, then an attribute reset and a clear to the end of the line.
pub open spec fn status_text(uptime_secs: u64, ticks: u64, counter: i32) -> Seq<char> {
    "\x1b[11;1H\x1b[38;5;7m  q/Esc to quit · uptime "@ + pad_left(decimal(uptime_secs as nat), 4)
        + "s · ticks "@ + decimal(ticks as nat) + " · counter="@ + signed_decimal(counter as int)
        + "\x1b[0m\x1b[K"@
}

/// Format the status line.
pub fn status_line(uptime_secs: u64, ticks: u64, counter: i32) -> (s: String)
    ensures
        s@ == status_text(uptime_secs, ticks, counter),
{
    let mut out: Vec<char> = Vec::new();
    push_str(&mut out, "\x1b[11;1H\x1b[38;5;7m  q/Esc to quit · uptime ");
    let mut secs: Vec<char> = Vec::new();
    push_decimal(&mut secs, uptime_secs);
    push_padded_left(&mut out, &secs, 4);
    push_str(&mut out, "s · ticks ");
    push_decimal(&mut out, ticks);
    push_str(&mut out, " · counter=");
    push_signed_decimal(&mut out, counter as i64);
    push_str(&mut out, "\x1b[0m\x1b[K");
    assert(out@ =~= status_text(uptime_secs, ticks, counter));
    string_of(&out)
}

/// Marker line the dashboard prints when it finishes.
pub fn contract_marker() -> (s: &'static str)
    ensures
        s@ == "contract: tui-panels-v1 holds — OK"@,
{
    "contract: tui-panels-v1 holds — OK"
}

} // verus!
