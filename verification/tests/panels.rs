use tui_from_zero::cellbuffer::{Cell, CellBuffer};
use tui_from_zero::harness::snapshot;
use tui_from_zero::panels::{paint_memory_bar, render_dashboard, CpuGrid, Process, ProcessTable};
use tui_from_zero::widgets::{Rect, Widget};

#[test]
fn cpu_grid_never_overflows_rect() {
    let mut buf = CellBuffer::new(20, 1);
    let cores = vec![500u32; 16];
    CpuGrid { cores: &cores }.paint(&mut buf, Rect { x: 0, y: 0, w: 16, h: 1 });
    for x in 16..20 {
        assert_eq!(buf.get(x, 0).ch, ' ', "overflow at x={x}");
    }
}

#[test]
fn process_table_clips_rows_to_rect() {
    let mut buf = CellBuffer::new(40, 3);
    let processes = vec![Process { name: "a".into(), cpu: 10, mem: 10 }; 10];
    ProcessTable { processes: &processes }.paint(&mut buf, Rect { x: 0, y: 0, w: 40, h: 3 });
    assert_eq!(buf.height(), 3);
}

#[test]
fn memory_bar_clamps_above_total() {
    let mut buf = CellBuffer::new(10, 1);
    paint_memory_bar(&mut buf, Rect { x: 0, y: 0, w: 10, h: 1 }, 999, 100);
    assert_eq!(buf.get(1, 0).ch, '█');
    assert_eq!(buf.get(8, 0).ch, '█');
}

#[test]
fn probar_snapshot_cpugrid_shape() {
    let mut buf = CellBuffer::new(8, 1);
    CpuGrid { cores: &[200, 600, 900, 100] }.paint(&mut buf, Rect { x: 0, y: 0, w: 8, h: 1 });
    let actual = snapshot(&buf);
    assert_eq!(actual, "████████\n");
}

#[test]
fn probar_snapshot_memory_bar_half_full() {
    let mut buf = CellBuffer::new(12, 1);
    paint_memory_bar(&mut buf, Rect { x: 0, y: 0, w: 12, h: 1 }, 5, 10);
    let actual = snapshot(&buf);
    assert!(actual.starts_with('['));
    assert!(actual.contains("█████"));
    assert!(actual.contains("     "));
    assert!(actual.trim_end().ends_with(']'));
}

#[test]
fn probar_snapshot_process_table_header() {
    let mut buf = CellBuffer::new(32, 2);
    let processes = vec![Process { name: "rustc".into(), cpu: 885, mem: 46 }];
    ProcessTable { processes: &processes }.paint(&mut buf, Rect { x: 0, y: 0, w: 32, h: 2 });
    let actual = snapshot(&buf);
    assert!(actual.contains("NAME"));
    assert!(actual.contains("CPU%"));
    assert!(actual.contains("rustc"));
    assert!(actual.contains("88.5"));
}

#[test]
fn cpu_grid_colours_by_load() {
    let mut buf = CellBuffer::new(9, 2);
    CpuGrid { cores: &[801, 800, 501, 500] }.paint(&mut buf, Rect { x: 1, y: 1, w: 8, h: 1 });
    assert_eq!(buf.get(1, 1), Cell::new('█', 1));
    assert_eq!(buf.get(2, 1), Cell::new('█', 1));
    assert_eq!(buf.get(3, 1), Cell::new('█', 3));
    assert_eq!(buf.get(5, 1), Cell::new('█', 3));
    assert_eq!(buf.get(7, 1), Cell::new('█', 2));
    assert_eq!(buf.get(8, 1), Cell::new('█', 2));
    assert_eq!(buf.get(0, 1), Cell::default());
    assert_eq!(snapshot(&buf), "         \n ████████\n");
}

#[test]
fn cpu_grid_with_more_cores_than_columns() {
    let mut buf = CellBuffer::new(5, 1);
    CpuGrid { cores: &[900; 7] }.paint(&mut buf, Rect { x: 1, y: 0, w: 3, h: 1 });
    assert_eq!(snapshot(&buf), " ███ \n");
}

#[test]
fn memory_bar_exact_cells() {
    let mut buf = CellBuffer::new(8, 1);
    paint_memory_bar(&mut buf, Rect { x: 1, y: 0, w: 7, h: 1 }, 2, 3);
    assert_eq!(snapshot(&buf), " [███  ]\n");
    assert_eq!(buf.get(2, 0), Cell::new('█', 2));
    assert_eq!(buf.get(5, 0), Cell::new(' ', 8));
    assert_eq!(buf.get(1, 0), Cell::new('[', 6));
    let mut buf = CellBuffer::new(4, 1);
    paint_memory_bar(&mut buf, Rect { x: 0, y: 0, w: 4, h: 1 }, -5, 10);
    assert_eq!(snapshot(&buf), "[  ]\n");
    let mut buf = CellBuffer::new(4, 1);
    paint_memory_bar(&mut buf, Rect { x: 0, y: 0, w: 4, h: 1 }, 5, 0);
    assert_eq!(snapshot(&buf), "    \n");
    paint_memory_bar(&mut buf, Rect { x: 0, y: 0, w: 1, h: 1 }, 5, 10);
    assert_eq!(snapshot(&buf), "    \n");
}

#[test]
fn process_rows_are_formatted_in_columns() {
    let mut buf = CellBuffer::new(40, 4);
    let processes = vec![
        Process { name: "kani".into(), cpu: 510, mem: 24 },
        Process { name: "a-very-long-process-name".into(), cpu: -5, mem: 1000 },
    ];
    ProcessTable { processes: &processes }.paint(&mut buf, Rect { x: 0, y: 0, w: 40, h: 4 });
    let snap = snapshot(&buf);
    let rows: Vec<&str> = snap.lines().collect();
    assert_eq!(rows[0], "NAME              CPU%   MEM%           ");
    assert_eq!(rows[1], "kani              51.0    2.4           ");
    assert_eq!(rows[2], "a-very-long-process-name  -0.5   100.0  ");
    assert_eq!(rows[3], "                                        ");
}

#[test]
fn dashboard_composes_every_panel() {
    let processes = vec![Process { name: "rustc".into(), cpu: 882, mem: 41 }];
    let buf = render_dashboard(&[120, 910], &processes, 114, 160, &[0, 5, 10]);
    let snap = snapshot(&buf);
    let rows: Vec<&str> = snap.lines().collect();
    assert_eq!(rows.len(), 10);
    assert!(rows[0].starts_with(" M3 · panels — CpuGrid"));
    assert_eq!(buf.get(0, 2), Cell::new('█', 2));
    assert_eq!(buf.get(15, 2), Cell::new('█', 1));
    assert_eq!(buf.get(30, 2), Cell::default());
    assert_eq!(buf.get(31, 2).ch, ' ');
    assert_eq!(buf.get(32, 2), Cell::new('▃', 2));
    assert_eq!(buf.get(33, 2), Cell::new('▇', 2));
    let filled = rows[3].chars().filter(|c| *c == '█').count();
    assert_eq!(filled, 41);
    assert!(rows[3].starts_with('['));
    assert!(rows[3].ends_with(']'));
    assert!(rows[5].starts_with("NAME"));
    assert!(rows[6].starts_with(&format!("{:<16}  {:>4}   {:>4}", "rustc", "88.2", "4.1")));
}

#[test]
fn panels_are_idempotent() {
    let processes = vec![Process { name: "x".into(), cpu: 1, mem: 2 }];
    let mut buf = CellBuffer::new(12, 4);
    buf.write_str(0, 3, "keep me here", 5);
    let grid = CpuGrid { cores: &[100, 900, 600] };
    let table = ProcessTable { processes: &processes };
    grid.paint(&mut buf, Rect { x: 1, y: 0, w: 10, h: 1 });
    table.paint(&mut buf, Rect { x: 0, y: 1, w: 12, h: 2 });
    paint_memory_bar(&mut buf, Rect { x: 2, y: 3, w: 6, h: 1 }, 7, 9);
    let once = buf.clone();
    grid.paint(&mut buf, Rect { x: 1, y: 0, w: 10, h: 1 });
    table.paint(&mut buf, Rect { x: 0, y: 1, w: 12, h: 2 });
    paint_memory_bar(&mut buf, Rect { x: 2, y: 3, w: 6, h: 1 }, 7, 9);
    assert_eq!(buf, once);
    assert_eq!(snapshot(&once), " █████████  \nNAME        \nx           \nke[███ ]here\n");
}

#[test]
fn dashboard_leaves_the_gaps_between_panels_blank() {
    let processes = vec![Process { name: "x".into(), cpu: 10, mem: 10 }];
    let buf = render_dashboard(&[950; 8], &processes, 160, 160, &[3, 1, 4, 1, 5]);
    for x in 0..60 {
        assert_eq!(buf.get(x, 1), Cell::default());
        assert_eq!(buf.get(x, 4), Cell::default());
    }
    assert_eq!(buf.get(30, 2), Cell::default());
    for x in 36..60 {
        assert_eq!(buf.get(x, 2), Cell::default());
    }
    assert_eq!(buf.get(35, 2).fg, 2);
}
