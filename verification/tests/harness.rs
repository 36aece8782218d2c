use tui_from_zero::cellbuffer::{Cell, CellBuffer};
use tui_from_zero::harness::{build_frame, diff_snapshot, snapshot};

#[test]
fn snapshot_of_empty_buffer_is_spaces() {
    let buf = CellBuffer::new(3, 2);
    assert_eq!(snapshot(&buf), "   \n   \n");
}

#[test]
fn diff_of_matching_snapshot_is_empty() {
    let mut buf = CellBuffer::new(3, 1);
    buf.set(0, 0, Cell::new('a', 1));
    buf.set(1, 0, Cell::new('b', 1));
    buf.set(2, 0, Cell::new('c', 1));
    assert!(diff_snapshot(&buf, "abc\n").is_empty());
}

#[test]
fn diff_reports_mismatches() {
    let mut buf = CellBuffer::new(3, 1);
    buf.set(0, 0, Cell::new('a', 1));
    buf.set(1, 0, Cell::new('X', 1));
    buf.set(2, 0, Cell::new('c', 1));
    let d = diff_snapshot(&buf, "abc\n");
    assert_eq!(d.len(), 1);
    assert_eq!(d[0], (1, 0, 'b', 'X'));
}

#[test]
fn probar_snapshot_harness_roundtrips() {
    let mut buf = CellBuffer::new(4, 2);
    for (i, sym) in ['t', 'u', 'i', '*'].iter().enumerate() {
        buf.set(i, 0, Cell::new(*sym, 2));
    }
    for (i, sym) in ['o', 'k', '!', '*'].iter().enumerate() {
        buf.set(i, 1, Cell::new(*sym, 2));
    }
    let s = snapshot(&buf);
    assert_eq!(s, "tui*\nok!*\n");
    assert!(diff_snapshot(&buf, &s).is_empty(), "self-diff must be empty");
}

#[test]
fn golden_lines_pad_with_spaces_and_ignore_crlf() {
    let mut buf = CellBuffer::new(3, 3);
    buf.write_str(0, 0, "ab", 1);
    buf.write_str(0, 1, "xyz", 1);
    assert!(diff_snapshot(&buf, "ab\r\nxyz").is_empty());
    assert!(diff_snapshot(&buf, "ab \nxyz\n   \n").is_empty());
    let d = diff_snapshot(&buf, "");
    assert_eq!(
        d,
        vec![(0, 0, ' ', 'a'), (1, 0, ' ', 'b'), (0, 1, ' ', 'x'), (1, 1, ' ', 'y'), (2, 1, ' ', 'z')]
    );
    let d = diff_snapshot(&buf, "abQ\n\nextra row\n");
    assert_eq!(d, vec![(2, 0, 'Q', ' '), (0, 1, ' ', 'x'), (1, 1, ' ', 'y'), (2, 1, ' ', 'z'), (0, 2, 'e', ' '), (1, 2, 'x', ' '), (2, 2, 't', ' ')]);
}

#[test]
fn snapshot_has_height_rows_of_width_plus_newline() {
    let mut buf = CellBuffer::new(5, 3);
    buf.write_str(1, 1, "ñé", 1);
    let s = snapshot(&buf);
    assert_eq!(s.chars().count(), 3 * 6);
    assert_eq!(s, "     \n ñé  \n     \n");
}

#[test]
fn build_frame_matches_its_golden() {
    let golden = "\
┌──────────────────────────────┐
│ M4.2 · snapshot test         │
│                              │
│ render -> string -> diff     │
└──────────────────────────────┘
";
    let buf = build_frame();
    assert!(diff_snapshot(&buf, golden).is_empty());
    assert_eq!(snapshot(&buf), golden);
    assert_eq!(buf.get(0, 0).fg, 6);
    assert_eq!(buf.get(2, 1).fg, 4);
}

#[test]
fn snapshot_match_ignores_colours_but_not_characters() {
    let mut golden = CellBuffer::new(3, 2);
    golden.write_str(0, 0, "ab", 1);
    golden.write_str(1, 1, "z", 2);
    let mut same_chars = CellBuffer::new(3, 2);
    same_chars.write_str(0, 0, "ab", 5);
    same_chars.set(1, 1, Cell { ch: 'z', fg: 3, bg: 4 });
    assert!(diff_snapshot(&same_chars, &snapshot(&golden)).is_empty());
    let mut other = same_chars.clone();
    other.set(2, 1, Cell::new('!', 5));
    assert_eq!(diff_snapshot(&other, &snapshot(&golden)), vec![(2, 1, ' ', '!')]);
}
