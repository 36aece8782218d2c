use tui_from_zero::counter::{init, update, view, Msg, State};
use tui_from_zero::harness::{diff_snapshot, snapshot};

#[test]
fn init_is_zero() {
    assert_eq!(init().count, 0);
}

#[test]
fn increment_then_decrement_is_identity() {
    let s = init();
    let s2 = update(update(s, Msg::Increment), Msg::Decrement);
    assert_eq!(s, s2);
}

#[test]
fn reset_returns_to_zero() {
    let s = update(update(init(), Msg::Increment), Msg::Increment);
    assert_eq!(update(s, Msg::Reset).count, 0);
}

#[test]
fn update_never_panics_on_i32_extremes() {
    let max = State { count: i32::MAX };
    assert_eq!(update(max, Msg::Increment).count, i32::MAX);
    let min = State { count: i32::MIN };
    assert_eq!(update(min, Msg::Decrement).count, i32::MIN);
}

#[test]
fn quit_is_a_noop_on_state() {
    let s = State { count: 7 };
    assert_eq!(update(s, Msg::Quit), s);
}

#[test]
fn view_renders_full_frame() {
    let buf = view(State { count: 42 });
    assert_eq!(buf.width(), 40);
    assert_eq!(buf.height(), 7);
    assert_eq!(buf.get(0, 0).ch, '┌');
    assert_eq!(buf.get(39, 0).ch, '┐');
    assert_eq!(buf.get(0, 6).ch, '└');
    assert_eq!(buf.get(39, 6).ch, '┘');
    let row2: String = (0..40).map(|x| buf.get(x, 2).ch).collect();
    assert!(row2.contains("count = 42"), "row 2 missing count text: {row2:?}");
}

#[test]
fn view_handles_negative_count() {
    let buf = view(State { count: -1 });
    let row2: String = (0..40).map(|x| buf.get(x, 2).ch).collect();
    assert!(row2.contains("-1"));
}

#[test]
fn probar_snapshot_count_zero_frame() {
    let buf = view(State { count: 0 });
    let actual = snapshot(&buf);
    assert!(actual.lines().count() >= 7, "view should produce 7+ rows");
    assert!(actual.contains("┌"));
    assert!(actual.contains("┐"));
    assert!(actual.contains("└"));
    assert!(actual.contains("┘"));
    assert!(actual.contains("count = 0"));
    assert!(actual.contains("+ inc"));
    let buf2 = view(State { count: 0 });
    assert!(diff_snapshot(&buf2, &actual).is_empty());
}

#[test]
fn probar_snapshot_count_negative() {
    let buf = view(State { count: -7 });
    let actual = snapshot(&buf);
    assert!(actual.contains("count = -7"));
}

#[test]
fn event_replay_deterministic() {
    let msgs = [
        Msg::Increment,
        Msg::Increment,
        Msg::Decrement,
        Msg::Reset,
        Msg::Increment,
        Msg::Decrement,
        Msg::Decrement,
    ];
    let s1 = msgs.iter().copied().fold(init(), update);
    let s2 = msgs.iter().copied().fold(init(), update);
    assert_eq!(s1, s2);
    assert_eq!(s1.count, -1);
    assert_eq!(snapshot(&view(s1)), snapshot(&view(s2)));
}

#[test]
fn replay_splits_at_any_point() {
    let a = [Msg::Increment, Msg::Increment, Msg::Quit];
    let b = [Msg::Decrement, Msg::Increment, Msg::Increment];
    let whole: Vec<Msg> = a.iter().chain(b.iter()).copied().collect();
    let direct = whole.iter().copied().fold(init(), update);
    let split = b.iter().copied().fold(a.iter().copied().fold(init(), update), update);
    assert_eq!(direct, split);
    assert_eq!(direct.count, 3);
}

#[test]
fn reset_forgets_history() {
    let s = [Msg::Increment, Msg::Increment, Msg::Reset]
        .iter()
        .copied()
        .fold(State { count: -40 }, update);
    assert_eq!(s, State { count: 0 });
}

#[test]
fn view_frame_rows_are_exact() {
    let snap = snapshot(&view(State { count: i32::MIN }));
    let rows: Vec<&str> = snap.lines().collect();
    assert_eq!(rows.len(), 7);
    assert_eq!(rows[0], "┌─ M2 · Elm Counter ───────────────────┐");
    assert_eq!(rows[1], "│                                      │");
    assert_eq!(rows[2], "│   count = -2147483648                │");
    assert_eq!(rows[4], "│   + inc · - dec · r reset · q quit   │");
    assert_eq!(rows[6], "└──────────────────────────────────────┘");
    let buf = view(State { count: 5 });
    assert_eq!(buf.get(4, 2).fg, 2);
    assert_eq!(buf.get(2, 0).fg, 4);
    assert_eq!(buf.get(0, 3).fg, 6);
}

#[test]
fn count_is_net_increments_since_the_last_reset() {
    let cases: [(&[Msg], i32); 5] = [
        (&[], 0),
        (&[Msg::Increment, Msg::Increment, Msg::Reset], 0),
        (
            &[
                Msg::Increment,
                Msg::Increment,
                Msg::Reset,
                Msg::Decrement,
                Msg::Quit,
                Msg::Increment,
                Msg::Increment,
            ],
            1,
        ),
        (&[Msg::Decrement, Msg::Decrement, Msg::Decrement, Msg::Quit], -3),
        (
            &[
                Msg::Reset,
                Msg::Increment,
                Msg::Reset,
                Msg::Increment,
                Msg::Increment,
                Msg::Decrement,
                Msg::Increment,
            ],
            2,
        ),
    ];
    for (msgs, want) in cases {
        assert_eq!(msgs.iter().copied().fold(init(), update).count, want);
    }
}

#[test]
fn distinct_counts_give_distinct_frames_and_the_count_row_is_exact() {
    let counts = [0, 1, -1, 10, -10, 42, i32::MAX, i32::MIN];
    for a in counts {
        for b in counts {
            assert_eq!(view(State { count: a }) == view(State { count: b }), a == b);
        }
        let snap = snapshot(&view(State { count: a }));
        let row2 = snap.lines().nth(2).unwrap().to_string();
        assert_eq!(row2, format!("│   {:<35}│", format!("count = {a}")));
    }
}

#[test]
fn every_frame_row_is_exact() {
    let snap = snapshot(&view(State { count: -7 }));
    let rows: Vec<&str> = snap.lines().collect();
    assert_eq!(rows.len(), 7);
    assert_eq!(rows[0], format!("┌─ M2 · Elm Counter {}┐", "─".repeat(19)));
    assert_eq!(rows[2], format!("│   {:<35}│", "count = -7"));
    assert_eq!(rows[4], "│   + inc · - dec · r reset · q quit   │");
    for y in [1, 3, 5] {
        assert_eq!(rows[y], format!("│{}│", " ".repeat(38)));
    }
    assert_eq!(rows[6], format!("└{}┘", "─".repeat(38)));
}
