use tui_from_zero::cellbuffer::{
    build_frame, cells_equal, contract_marker, count_changed_cells, diff, full, render_ansi, Cell,
    CellBuffer, DrawOp,
};
use tui_from_zero::harness::{diff_snapshot, snapshot};

#[test]
fn out_of_bounds_get_returns_default() {
    let buf = CellBuffer::new(10, 5);
    assert_eq!(buf.get(100, 100), Cell::default());
    assert_eq!(buf.get(10, 0), Cell::default());
}

#[test]
fn out_of_bounds_set_is_silently_ignored() {
    let mut buf = CellBuffer::new(10, 5);
    buf.set(99, 99, Cell::new('X', 1));
    assert_eq!(buf.get(0, 0), Cell::default());
}

#[test]
fn diff_returns_only_changed_cells() {
    let prev = CellBuffer::new(4, 2);
    let mut next = CellBuffer::new(4, 2);
    next.set(1, 0, Cell::new('X', 2));
    next.set(3, 1, Cell::new('Y', 3));
    let ops = diff(&prev, &next);
    assert_eq!(ops.len(), 2);
    assert!(ops.iter().any(|o| o.x == 1 && o.y == 0));
    assert!(ops.iter().any(|o| o.x == 3 && o.y == 1));
}

#[test]
fn diff_of_equal_buffers_is_empty() {
    let prev = CellBuffer::new(8, 4);
    let next = prev.clone();
    assert!(diff(&prev, &next).is_empty());
}

#[test]
fn full_emits_every_cell() {
    let buf = CellBuffer::new(3, 2);
    assert_eq!(full(&buf).len(), 6);
}

#[test]
fn diff_never_emits_more_than_buffer_holds() {
    let prev = CellBuffer::new(5, 5);
    let mut next = CellBuffer::new(5, 5);
    for y in 0..5 {
        for x in 0..5 {
            next.set(x, y, Cell::new('*', 1));
        }
    }
    let ops = diff(&prev, &next);
    assert!(ops.len() <= prev.len());
    assert_eq!(ops.len(), 25);
}

#[test]
fn write_str_paints_text() {
    let mut buf = CellBuffer::new(10, 1);
    buf.write_str(0, 0, "hi", 4);
    assert_eq!(buf.get(0, 0).ch, 'h');
    assert_eq!(buf.get(1, 0).ch, 'i');
    assert_eq!(buf.get(2, 0).ch, ' ');
}

#[test]
fn render_ansi_is_nonempty() {
    let buf = CellBuffer::new(2, 1);
    let s = render_ansi(&full(&buf));
    assert!(s.contains("\x1b["));
}

#[test]
fn dims_and_emptiness_track_construction() {
    let buf = CellBuffer::new(3, 2);
    assert_eq!(buf.width(), 3);
    assert_eq!(buf.height(), 2);
    assert_eq!(buf.len(), 6);
    assert!(!buf.is_empty());
}

#[test]
fn clear_fills_every_cell() {
    let mut buf = CellBuffer::new(4, 3);
    buf.clear(Cell::new('Z', 5));
    for y in 0..3 {
        for x in 0..4 {
            assert_eq!(buf.get(x, y).ch, 'Z');
            assert_eq!(buf.get(x, y).fg, 5);
        }
    }
}

#[test]
fn probar_snapshot_two_line_label() {
    let mut buf = CellBuffer::new(12, 2);
    buf.write_str(0, 0, "render OK", 4);
    buf.write_str(0, 1, "diff = min", 2);
    let golden = "\
render OK
diff = min
";
    let mismatches = diff_snapshot(&buf, golden);
    assert!(
        mismatches.is_empty(),
        "probar snapshot diverged:\n actual:\n{}\nmismatches: {:?}",
        snapshot(&buf),
        mismatches
    );
}

#[test]
fn contract_marker_matches() {
    let markers = [
        contract_marker(),
        tui_from_zero::widgets::contract_marker(),
        tui_from_zero::counter::contract_marker(),
        tui_from_zero::input::contract_marker(),
        tui_from_zero::harness::contract_marker(),
    ];
    for m in markers {
        assert!(m.starts_with("contract:"));
        assert!(m.ends_with("— OK"));
    }
}

#[test]
fn lib_contract_marker_matches() {
    let markers = [
        tui_from_zero::sparkline::contract_marker(),
        tui_from_zero::panels::contract_marker(),
        tui_from_zero::scene::contract_marker(),
        tui_from_zero::ptop::contract_marker(),
    ];
    for m in markers {
        assert!(m.starts_with("contract:"));
        assert!(m.ends_with("— OK"));
    }
}

fn apply(buf: &mut CellBuffer, ops: &[DrawOp]) {
    for op in ops {
        buf.set(op.x, op.y, op.cell);
    }
}

#[test]
fn replaying_diff_reproduces_next_frame() {
    let mut prev = CellBuffer::new(6, 3);
    prev.write_str(0, 0, "abcdef", 1);
    prev.write_str(0, 2, "zz", 2);
    let mut next = CellBuffer::new(6, 3);
    next.write_str(0, 0, "abXdeY", 1);
    next.write_str(1, 1, "mid", 3);
    let ops = diff(&prev, &next);
    assert_eq!(ops.len(), 7);
    let mut replay = prev.clone();
    apply(&mut replay, &ops);
    assert_eq!(replay, next);
    for op in &ops {
        assert_ne!(prev.get(op.x, op.y), next.get(op.x, op.y));
        assert_eq!(op.cell, next.get(op.x, op.y));
    }
}

#[test]
fn full_repaint_reproduces_frame_from_anything() {
    let mut next = CellBuffer::new(3, 2);
    next.write_str(0, 1, "ok!", 5);
    let mut other = CellBuffer::new(3, 2);
    other.clear(Cell::new('#', 9));
    let ops = full(&next);
    assert_eq!(ops.len(), next.len());
    assert_eq!(ops[0], DrawOp { x: 0, y: 0, cell: Cell::default() });
    assert_eq!(ops[3], DrawOp { x: 0, y: 1, cell: Cell::new('o', 5) });
    apply(&mut other, &ops);
    assert_eq!(other, next);
}

#[test]
fn render_ansi_exact_sequence() {
    let ops = [DrawOp { x: 4, y: 0, cell: Cell { ch: 'Q', fg: 12, bg: 200 } }];
    assert_eq!(render_ansi(&ops), "\x1b[1;5H\x1b[38;5;12m\x1b[48;5;200mQ\x1b[0m");
    assert_eq!(render_ansi(&[]), "\x1b[0m");
}

#[test]
fn write_str_clips_at_the_edge() {
    let mut buf = CellBuffer::new(4, 2);
    buf.write_str(2, 1, "wxyz", 3);
    assert_eq!(buf.get(2, 1), Cell::new('w', 3));
    assert_eq!(buf.get(3, 1), Cell::new('x', 3));
    assert_eq!(buf.get(0, 1), Cell::default());
    assert_eq!(buf.get(1, 1), Cell::default());
    assert_eq!(buf.get(0, 0), Cell::default());
}

#[test]
fn set_then_get_reads_back_and_leaves_neighbours() {
    let mut buf = CellBuffer::new(3, 3);
    buf.set(1, 2, Cell { ch: 'é', fg: 1, bg: 4 });
    assert_eq!(buf.get(1, 2), Cell { ch: 'é', fg: 1, bg: 4 });
    assert_eq!(buf.get(2, 1), Cell::default());
    assert_eq!(buf.get(0, 2), Cell::default());
    assert_eq!(Cell::default(), Cell { ch: ' ', fg: 7, bg: 0 });
}

#[test]
fn cell_at_reads_inside_and_gives_none_outside() {
    let mut buf = CellBuffer::new(3, 2);
    buf.set(1, 1, Cell::new('x', 1));
    assert_eq!(buf.cell_at(1, 1), Some(&Cell::new('x', 1)));
    assert_eq!(buf.cell_at(0, 0), Some(&Cell::default()));
    assert_eq!(buf.cell_at(3, 0), None);
    assert_eq!(buf.cell_at(0, 2), None);
}

#[test]
fn cells_equal_compares_presence_and_content() {
    let a = Cell::new('a', 1);
    let b = Cell { ch: 'a', fg: 1, bg: 5 };
    assert!(cells_equal(Some(&a), Some(&a)));
    assert!(!cells_equal(Some(&a), Some(&b)));
    assert!(!cells_equal(Some(&a), None));
    assert!(!cells_equal(None, Some(&a)));
    assert!(cells_equal(None, None));
}

#[test]
fn moving_dot_changes_two_cells() {
    let prev = build_frame(40, 5, 0);
    let next = build_frame(40, 5, 1);
    assert_eq!(count_changed_cells(&prev, &next), 2);
    assert_eq!(count_changed_cells(&prev, &next), diff(&prev, &next).len());
    assert_eq!(count_changed_cells(&next, &next), 0);
}

#[test]
fn cells_missing_from_the_old_grid_count_as_changed() {
    let prev = CellBuffer::new(2, 1);
    let next = CellBuffer::new(3, 2);
    assert_eq!(count_changed_cells(&prev, &next), 4);
    assert_eq!(count_changed_cells(&next, &prev), 0);
}

#[test]
fn build_frame_lays_out_title_dot_and_hint() {
    assert_eq!(
        snapshot(&build_frame(40, 5, 3)),
        "  M1 · presentar CellBuffer + DiffRender\n                                        \n     ●                                  \n                                        \n  press Ctrl-C to quit (interactive)    \n"
    );
}

#[test]
fn build_frame_dot_wraps_and_hint_paints_over_it() {
    assert_eq!(build_frame(10, 3, 6).get(2, 2).ch, 'p');
    assert_eq!(build_frame(10, 4, 6).get(2, 2).ch, '●');
    assert_eq!(build_frame(10, 4, 7).get(3, 2).ch, '●');
    assert_eq!(snapshot(&build_frame(10, 3, 6)), "  M1 · pre\n          \n  press Ct\n");
}

#[test]
fn diff_ops_come_once_each_in_row_major_order() {
    let mut prev = CellBuffer::new(5, 4);
    let mut next = CellBuffer::new(5, 4);
    for (x, y) in [(4, 0), (0, 1), (2, 1), (3, 3), (0, 3)] {
        next.set(x, y, Cell::new('#', 3));
    }
    prev.set(1, 2, Cell::new('o', 1));
    let ops = diff(&prev, &next);
    let positions: Vec<(usize, usize)> = ops.iter().map(|o| (o.y, o.x)).collect();
    assert_eq!(positions, vec![(0, 4), (1, 0), (1, 2), (2, 1), (3, 0), (3, 3)]);
    assert!(positions.windows(2).all(|w| w[0] < w[1]));
}

#[test]
fn diff_is_the_full_repaint_without_unchanged_cells() {
    let mut prev = CellBuffer::new(4, 3);
    prev.write_str(0, 1, "abcd", 2);
    let mut next = prev.clone();
    next.write_str(1, 1, "xc", 2);
    next.set(3, 2, Cell::new('!', 9));
    let kept: Vec<DrawOp> =
        full(&next).into_iter().filter(|op| prev.get(op.x, op.y) != op.cell).collect();
    assert_eq!(diff(&prev, &next), kept);
    assert_eq!(kept.len(), 2);
}
