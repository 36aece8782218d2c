//! The Elm architecture on a counter: `init` gives the first state,
//! `update` folds one message into the state, `view` draws a state.

use vstd::prelude::*;
use crate::cellbuffer::{
    BufView, Cell, CellBuffer, blank_cell, lemma_filled_get, lemma_write_chars, write_chars,
};
use crate::text::{
    decimal, lemma_decimal_shape, lemma_signed_decimal_injective, pow10, push_signed_decimal,
    push_str, signed_decimal, string_of,
};
use crate::harness::{lemma_row_text, row_text};
use crate::panels::pad_right;
use crate::widgets::{
    Label, Rect, Widget, bordered, lemma_bordered_inside, lemma_bordered_sides,
    lemma_bordered_top_bottom, paint_border, shown,
};

verus! {

/// Counter state: a single `i32`.
#[derive(Debug, Clone, Copy, PartialEq, Eq, Structural)]
pub struct State {
    pub count: i32,
}

impl Default for State {
    fn default() -> (s: Self)
        ensures
            s == (State { count: 0 }),
    {
        State { count: 0 }
    }
}

/// The messages the runtime dispatches.
#[derive(Debug, Clone, Copy, PartialEq, Eq, Structural)]
pub enum Msg {
    Increment,
    Decrement,
    Reset,
    Quit,
}

/// The state after one message: increments and decrements saturate at the
/// `i32` bounds, `Reset` returns to zero and `Quit` leaves the state alone.
pub open spec fn step(state: State, msg: Msg) -> State {
    match msg {
        Msg::Increment => State {
            count: if state.count == i32::MAX {
                i32::MAX
            } else {
                (state.count + 1) as i32
            },
        },
        Msg::Decrement => State {
            count: if state.count == i32::MIN {
                i32::MIN
            } else {
                (state.count - 1) as i32
            },
        },
        Msg::Reset => State { count: 0 },
        Msg::Quit => state,
    }
}

/// The state after replaying `msgs` from `state`, first to last.
pub open spec fn replay(state: State, msgs: Seq<Msg>) -> State
    decreases msgs.len(),
{
    if msgs.len() == 0 {
        state
    } else {
        step(replay(state, msgs.drop_last()), msgs.last())
    }
}

/// The initial state: a count of zero.
pub fn init() -> (s: State)
    ensures
        s == (State { count: 0 }),
{
    State::default()
}

/// Fold one message into the state. Total: every state and message give a
/// state, with no overflow.
pub fn update(state: State, msg: Msg) -> (s: State)
    ensures
        s == step(state, msg),
{
    match msg {
        Msg::Increment => State {
            count: if state.count == i32::MAX {
                i32::MAX
            } else {
                state.count + 1
            },
        },
        Msg::Decrement => State {
            count: if state.count == i32::MIN {
                i32::MIN
            } else {
                state.count - 1
            },
        },
        Msg::Reset => State::default(),
        Msg::Quit => state,
    }
}

/// Replaying `a` then `b` is replaying `a + b`.
pub proof fn lemma_replay_append(s: State, a: Seq<Msg>, b: Seq<Msg>)
    ensures
        replay(s, a + b) == replay(replay(s, a), b),
    decreases b.len(),
{
    if b.len() > 0 {
        assert((a + b).drop_last() =~= a + b.drop_last());
        lemma_replay_append(s, a, b.drop_last());
    }
}

/// The messages after the last `Reset` (all of them when there is none).
pub open spec fn since_reset(msgs: Seq<Msg>) -> Seq<Msg>
    decreases msgs.len(),
{
    if msgs.len() == 0 {
        seq![]
    } else if msgs.last() == Msg::Reset {
        seq![]
    } else {
        since_reset(msgs.drop_last()).push(msgs.last())
    }
}

/// Increments minus decrements.
pub open spec fn net_count(msgs: Seq<Msg>) -> int
    decreases msgs.len(),
{
    if msgs.len() == 0 {
        0
    } else {
        net_count(msgs.drop_last()) + match msgs.last() {
            Msg::Increment => 1int,
            Msg::Decrement => -1int,
            _ => 0int,
        }
    }
}

proof fn lemma_since_reset_net(msgs: Seq<Msg>)
    ensures
        since_reset(msgs).len() <= msgs.len(),
        -(since_reset(msgs).len() as int) <= net_count(since_reset(msgs)) <= since_reset(msgs).len(),
    decreases msgs.len(),
{
    if msgs.len() > 0 && msgs.last() != Msg::Reset {
        let t = since_reset(msgs.drop_last());
        lemma_since_reset_net(msgs.drop_last());
        assert(t.push(msgs.last()).drop_last() =~= t);
    }
}

/// Replaying messages from the initial state: the count is the number of
/// increments minus the number of decrements since the last `Reset` (the
/// bounds are never reached in fewer than 2^31 messages). So replaying the
/// same messages from `init()` always lands on the same state.
pub proof fn lemma_replay_from_init(msgs: Seq<Msg>)
    requires
        msgs.len() < 0x8000_0000,
    ensures
        replay(State { count: 0 }, msgs).count == net_count(since_reset(msgs)),
    decreases msgs.len(),
{
    if msgs.len() > 0 {
        let p = msgs.drop_last();
        lemma_replay_from_init(p);
        lemma_since_reset_net(p);
        let t = since_reset(p);
        if msgs.last() != Msg::Reset {
            assert(t.push(msgs.last()).drop_last() =~= t);
        }
    }
}

/// A history that ends in `Reset` lands on zero, whatever came before.
pub proof fn lemma_reset_forgets_history(s: State, a: Seq<Msg>)
    ensures
        replay(s, a.push(Msg::Reset)) == (State { count: 0 }),
{
    assert(a.push(Msg::Reset).drop_last() =~= a);
}

/// Increment and decrement undo each other away from the bounds they
/// saturate at.
pub proof fn lemma_increment_decrement_inverse(s: State)
    ensures
        s.count < i32::MAX ==> step(step(s, Msg::Increment), Msg::Decrement) == s,
        s.count > i32::MIN ==> step(step(s, Msg::Decrement), Msg::Increment) == s,
{
}

/// The text on the count row: `count = ` and the count in decimal.
pub open spec fn count_text(state: State) -> Seq<char> {
    "count = "@ + signed_decimal(state.count as int)
}

/// The frame for `state`: a box around the 40 × 7 grid, the title on the
/// top border, the count on row 2 and the key hints on row 4.
pub open spec fn counter_frame(state: State) -> BufView {
    let framed = write_chars(bordered(BufView::blank(40, 7)), 2, 0, shown(" M2 · Elm Counter "@, 36), 4);
    let counted = write_chars(framed, 4, 2, shown(count_text(state), 32), 2);
    write_chars(counted, 4, 4, shown("+ inc · - dec · r reset · q quit"@, 32), 7)
}

/// Draw `state` into a fresh 40 × 7 buffer.
pub fn view(state: State) -> (buf: CellBuffer)
    ensures
        buf@.wf(),
        buf@ == counter_frame(state),
{
    let mut buf = CellBuffer::new(40, 7);
    paint_border(&mut buf);
    let title = Label { text: String::from_str(" M2 · Elm Counter "), fg: 4 };
    title.paint(&mut buf, Rect { x: 2, y: 0, w: 36, h: 1 });
    let mut count_chars: Vec<char> = Vec::new();
    push_str(&mut count_chars, "count = ");
    push_signed_decimal(&mut count_chars, state.count as i64);
    let count_label = Label { text: string_of(&count_chars), fg: 2 };
    count_label.paint(&mut buf, Rect { x: 4, y: 2, w: 32, h: 1 });
    let hints = Label { text: String::from_str("+ inc · - dec · r reset · q quit"), fg: 7 };
    hints.paint(&mut buf, Rect { x: 4, y: 4, w: 32, h: 1 });
    buf
}

proof fn lemma_count_text(state: State)
    ensures
        9 <= count_text(state).len() <= 19,
        count_text(state).skip(8) == signed_decimal(state.count as int),
        forall|m: int| 8 <= m < count_text(state).len() ==> #[trigger] count_text(state)[m] != ' ',
{
    reveal_strlit("count = ");
    let n = state.count as int;
    let mag: nat = if n < 0 {
        (-n) as nat
    } else {
        n as nat
    };
    assert(pow10(10) == 10000000000) by {
        reveal_with_fuel(pow10, 11);
    }
    lemma_decimal_shape(mag, 10);
    let t = count_text(state);
    assert(t.skip(8) =~= signed_decimal(n));
    assert forall|m: int| 8 <= m < t.len() implies #[trigger] t[m] != ' ' by {
        assert(t[m] == signed_decimal(n)[m - 8]);
        if n < 0 && m > 8 {
            assert(signed_decimal(n)[m - 8] == decimal(mag)[m - 9]);
        } else if n >= 0 {
            assert(signed_decimal(n)[m - 8] == decimal(mag)[m - 8]);
        }
    }
}

proof fn lemma_frame_row2(state: State, m: int)
    requires
        0 <= m < 35,
    ensures
        counter_frame(state).get(4 + m, 2) == if m < count_text(state).len() {
            Cell { ch: count_text(state)[m], fg: 2, bg: 0 }
        } else {
            blank_cell()
        },
{
    lemma_count_text(state);
    let blank = BufView::blank(40, 7);
    let boxed = bordered(blank);
    let framed = write_chars(boxed, 2, 0, shown(" M2 · Elm Counter "@, 36), 4);
    let counted = write_chars(framed, 4, 2, shown(count_text(state), 32), 2);
    lemma_filled_get(blank, blank_cell(), 4 + m, 2);
    lemma_bordered_inside(blank, 4 + m, 2);
    lemma_write_chars(boxed, 2, 0, shown(" M2 · Elm Counter "@, 36), 4, 4 + m, 2);
    lemma_write_chars(framed, 4, 2, shown(count_text(state), 32), 2, 4 + m, 2);
    lemma_write_chars(counted, 4, 4, shown("+ inc · - dec · r reset · q quit"@, 32), 7, 4 + m, 2);
}

/// The count row of a frame: `│`, three spaces, `count = ` and the count
/// left-aligned in 35 columns, `│`.
pub open spec fn count_row(state: State) -> Seq<char> {
    seq!['│', ' ', ' ', ' '] + pad_right(count_text(state), 35) + seq!['│']
}

/// Row 2 of the frame reads as the count row.
pub proof fn lemma_count_row(state: State)
    ensures
        row_text(counter_frame(state), 2, 40) == count_row(state),
{
    lemma_count_text(state);
    let blank = BufView::blank(40, 7);
    let boxed = bordered(blank);
    let framed = write_chars(boxed, 2, 0, shown(" M2 · Elm Counter "@, 36), 4);
    let counted = write_chars(framed, 4, 2, shown(count_text(state), 32), 2);
    let f = counter_frame(state);
    let want = count_row(state);
    lemma_row_text(f, 2, 40, 0);
    assert(want.len() == 40);
    assert forall|x: int| 0 <= x < 40 implies #[trigger] row_text(f, 2, 40)[x] == want[x] by {
        lemma_row_text(f, 2, 40, x);
        lemma_filled_get(blank, blank_cell(), x, 2);
        lemma_bordered_inside(blank, x, 2);
        lemma_bordered_sides(blank, 2);
        lemma_write_chars(boxed, 2, 0, shown(" M2 · Elm Counter "@, 36), 4, x, 2);
        lemma_write_chars(framed, 4, 2, shown(count_text(state), 32), 2, x, 2);
        lemma_write_chars(counted, 4, 4, shown("+ inc · - dec · r reset · q quit"@, 32), 7, x, 2);
        if 4 <= x < 39 {
            lemma_frame_row2(state, x - 4);
        }
    }
    assert(row_text(f, 2, 40) =~= want);
}

/// The character at column `x` of row `y` of the frame for `state`.
pub open spec fn frame_char(state: State, x: int, y: int) -> char {
    let title = " M2 · Elm Counter "@;
    let hints = "+ inc · - dec · r reset · q quit"@;
    let ct = count_text(state);
    if y == 0 {
        if x == 0 {
            '┌'
        } else if x == 39 {
            '┐'
        } else if 2 <= x < 2 + title.len() {
            title[x - 2]
        } else {
            '─'
        }
    } else if y == 6 {
        if x == 0 {
            '└'
        } else if x == 39 {
            '┘'
        } else {
            '─'
        }
    } else if x == 0 || x == 39 {
        '│'
    } else if y == 2 && 4 <= x < 4 + ct.len() {
        ct[x - 4]
    } else if y == 4 && 4 <= x < 4 + hints.len() {
        hints[x - 4]
    } else {
        ' '
    }
}

proof fn lemma_frame_char(state: State, x: int, y: int)
    requires
        0 <= x < 40,
        0 <= y < 7,
    ensures
        counter_frame(state).get(x, y).ch == frame_char(state, x, y),
{
    reveal_strlit(" M2 · Elm Counter ");
    reveal_strlit("+ inc · - dec · r reset · q quit");
    lemma_count_text(state);
    let blank = BufView::blank(40, 7);
    let boxed = bordered(blank);
    let title = " M2 · Elm Counter "@;
    let hints = "+ inc · - dec · r reset · q quit"@;
    let framed = write_chars(boxed, 2, 0, shown(title, 36), 4);
    let counted = write_chars(framed, 4, 2, shown(count_text(state), 32), 2);
    lemma_filled_get(blank, blank_cell(), x, y);
    lemma_bordered_inside(blank, x, y);
    if 0 < y < 6 {
        lemma_bordered_sides(blank, y);
    }
    if 0 < x < 39 {
        lemma_bordered_top_bottom(blank, x);
    } else {
        lemma_bordered_top_bottom(blank, 1);
    }
    lemma_write_chars(boxed, 2, 0, shown(title, 36), 4, x, y);
    lemma_write_chars(framed, 4, 2, shown(count_text(state), 32), 2, x, y);
    lemma_write_chars(counted, 4, 4, shown(hints, 32), 7, x, y);
}

/// The rows of the frame: the top border with the title from column 2, a
/// blank row, the count row, a blank row, the key hints from column 4, a
/// blank row and the bottom border.
pub open spec fn frame_row(state: State, y: int) -> Seq<char> {
    let across = |n: nat| Seq::new(n, |i: int| '─');
    let spaces = |n: nat| Seq::new(n, |i: int| ' ');
    if y == 0 {
        seq!['┌', '─'] + " M2 · Elm Counter "@ + across(19) + seq!['┐']
    } else if y == 2 {
        count_row(state)
    } else if y == 4 {
        seq!['│'] + spaces(3) + "+ inc · - dec · r reset · q quit"@ + spaces(3) + seq!['│']
    } else if y == 6 {
        seq!['└'] + across(38) + seq!['┘']
    } else {
        seq!['│'] + spaces(38) + seq!['│']
    }
}

/// Each of the frame's seven rows reads as `frame_row`.
pub proof fn lemma_frame_rows(state: State, y: int)
    requires
        0 <= y < 7,
    ensures
        row_text(counter_frame(state), y as nat, 40) == frame_row(state, y),
{
    reveal_strlit(" M2 · Elm Counter ");
    reveal_strlit("+ inc · - dec · r reset · q quit");
    lemma_count_text(state);
    if y == 2 {
        lemma_count_row(state);
    } else {
        let f = counter_frame(state);
        let want = frame_row(state, y);
        lemma_row_text(f, y as nat, 40, 0);
        assert(want.len() == 40);
        assert forall|x: int| 0 <= x < 40 implies #[trigger] row_text(f, y as nat, 40)[x]
            == want[x] by {
            lemma_row_text(f, y as nat, 40, x);
            lemma_frame_char(state, x, y);
        }
        assert(row_text(f, y as nat, 40) =~= want);
    }
}

/// Every state has exactly one frame, and different states have different
/// frames: the count is written out on row 2.
pub proof fn lemma_view_injective(s1: State, s2: State)
    ensures
        counter_frame(s1) == counter_frame(s2) <==> s1 == s2,
{
    if s1 != s2 {
        let t1 = count_text(s1);
        let t2 = count_text(s2);
        lemma_count_text(s1);
        lemma_count_text(s2);
        if t1 == t2 {
            lemma_signed_decimal_injective(s1.count as int, s2.count as int);
        }
        assert(t1 != t2);
        let m: int = if t1.len() == t2.len() {
            assert(!(t1 =~= t2));
            choose|m: int| 0 <= m < t1.len() && t1[m] != t2[m]
        } else if t1.len() < t2.len() {
            t1.len() as int
        } else {
            t2.len() as int
        };
        lemma_frame_row2(s1, m);
        lemma_frame_row2(s2, m);
        assert(counter_frame(s1).get(4 + m, 2) != counter_frame(s2).get(4 + m, 2));
    }
}

/// Marker line the counter demo prints when it finishes.
pub fn contract_marker() -> (s: &'static str)
    ensures
        s@ == "contract: tui-lifecycle-v1 holds — OK"@,
{
    "contract: tui-lifecycle-v1 holds — OK"
}

} // verus!
