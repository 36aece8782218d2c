use tui_from_zero::cellbuffer::{Cell, CellBuffer};
use tui_from_zero::harness::{diff_snapshot, snapshot};
use tui_from_zero::sparkline::paint_sparkline;

#[test]
fn probar_snapshot_ramp_samples() {
    let mut buf = CellBuffer::new(8, 1);
    let samples: Vec<u64> = (0..8).map(|i| i as u64).collect();
    paint_sparkline(&mut buf, 0, 0, &samples, 2);
    let golden = " ▁▂▃▄▅▆▇\n";
    let mismatches = diff_snapshot(&buf, golden);
    assert!(mismatches.is_empty(), "probar snapshot diverged: {mismatches:?}");
}

#[test]
fn sparkline_levels_scale_with_the_largest_sample() {
    let mut buf = CellBuffer::new(6, 2);
    paint_sparkline(&mut buf, 1, 1, &[1000, 0, 500, 999, 143], 5);
    assert_eq!(snapshot(&buf), "      \n ▇ ▃▆▁\n");
    assert_eq!(buf.get(1, 1), Cell::new('▇', 5));
}

#[test]
fn all_zero_samples_are_blank_and_overflow_is_dropped() {
    let mut buf = CellBuffer::new(3, 1);
    paint_sparkline(&mut buf, 0, 0, &[0, 0, 0, 0, 0], 3);
    assert_eq!(snapshot(&buf), "   \n");
    assert_eq!(buf.get(2, 0), Cell::new(' ', 3));
    let mut buf = CellBuffer::new(3, 1);
    paint_sparkline(&mut buf, 1, 0, &[2, 4, 8, 16], 3);
    assert_eq!(snapshot(&buf), "  ▁\n");
}

#[test]
fn sparkline_levels_are_monotone() {
    let samples: Vec<u64> = (0..=70).collect();
    let mut buf = CellBuffer::new(71, 1);
    paint_sparkline(&mut buf, 0, 0, &samples, 1);
    let glyphs = " ▁▂▃▄▅▆▇";
    let level = |c: char| glyphs.chars().position(|g| g == c).unwrap();
    let mut last = 0;
    for x in 0..71 {
        let l = level(buf.get(x, 0).ch);
        assert!(l >= last);
        last = l;
    }
    assert_eq!(last, 7);
}
