use tui_from_zero::cellbuffer::{Cell, CellBuffer};
use tui_from_zero::harness::{diff_snapshot, snapshot};
use tui_from_zero::widgets::{
    paint_border, Block, Container, Direction, Label, Rect, Widget, WidgetNode,
};

#[test]
fn label_paints_text() {
    let mut buf = CellBuffer::new(20, 1);
    let l = Label { text: "hello".into(), fg: 4 };
    l.paint(&mut buf, Rect { x: 2, y: 0, w: 20, h: 1 });
    assert_eq!(buf.get(2, 0).ch, 'h');
    assert_eq!(buf.get(6, 0).ch, 'o');
}

#[test]
fn row_lays_out_children_no_overflow() {
    let row = Container {
        direction: Direction::Row,
        children: vec![
            WidgetNode::Block(Block { ch: 'A', fg: 1 }),
            WidgetNode::Block(Block { ch: 'B', fg: 2 }),
        ],
    };
    let mut buf = CellBuffer::new(10, 1);
    row.paint(&mut buf, Rect { x: 0, y: 0, w: 10, h: 1 });
    assert_eq!(buf.get(0, 0).ch, 'A');
    assert_eq!(buf.get(5, 0).ch, 'B');
    assert_eq!(buf.get(9, 0).ch, 'B');
}

#[test]
fn column_lays_out_children_no_overflow() {
    let col = Container {
        direction: Direction::Column,
        children: vec![
            WidgetNode::Block(Block { ch: 'A', fg: 1 }),
            WidgetNode::Block(Block { ch: 'B', fg: 2 }),
        ],
    };
    let mut buf = CellBuffer::new(1, 6);
    col.paint(&mut buf, Rect { x: 0, y: 0, w: 1, h: 6 });
    assert_eq!(buf.get(0, 0).ch, 'A');
    assert_eq!(buf.get(0, 3).ch, 'B');
}

#[test]
fn empty_container_is_noop() {
    let row = Container { direction: Direction::Row, children: vec![] };
    let mut buf = CellBuffer::new(4, 1);
    row.paint(&mut buf, Rect { x: 0, y: 0, w: 4, h: 1 });
    for x in 0..4 {
        assert_eq!(buf.get(x, 0).ch, ' ');
    }
}

#[test]
fn probar_snapshot_three_label_row() {
    let row = Container {
        direction: Direction::Row,
        children: vec![
            WidgetNode::Label(Label { text: "R".into(), fg: 4 }),
            WidgetNode::Label(Label { text: "E".into(), fg: 5 }),
            WidgetNode::Label(Label { text: "C".into(), fg: 2 }),
        ],
    };
    let mut buf = CellBuffer::new(9, 1);
    row.paint(&mut buf, Rect { x: 0, y: 0, w: 9, h: 1 });
    let golden = "R  E  C  \n";
    let mismatches = diff_snapshot(&buf, golden);
    assert!(
        mismatches.is_empty(),
        "probar snapshot diverged:\n actual:\n{}\nmismatches: {:?}",
        snapshot(&buf),
        mismatches
    );
}

#[test]
fn block_fills_exactly_its_rect() {
    let mut buf = CellBuffer::new(5, 4);
    Block { ch: '#', fg: 3 }.paint(&mut buf, Rect { x: 1, y: 1, w: 3, h: 2 });
    assert_eq!(snapshot(&buf), "     \n ### \n ### \n     \n");
    assert_eq!(buf.get(2, 2), Cell::new('#', 3));
}

#[test]
fn block_rect_past_the_edge_is_clipped() {
    let mut buf = CellBuffer::new(3, 2);
    Block { ch: '%', fg: 1 }.paint(&mut buf, Rect { x: 2, y: 1, w: 100, h: 100 });
    assert_eq!(snapshot(&buf), "   \n  %\n");
}

#[test]
fn label_is_cut_to_the_rect_width() {
    let mut buf = CellBuffer::new(8, 1);
    Label { text: "truncate".into(), fg: 2 }.paint(&mut buf, Rect { x: 1, y: 0, w: 3, h: 1 });
    assert_eq!(snapshot(&buf), " tru    \n");
}

#[test]
fn nested_containers_stay_inside_their_slices() {
    let inner = Container {
        direction: Direction::Column,
        children: vec![
            WidgetNode::Block(Block { ch: 'x', fg: 1 }),
            WidgetNode::Label(Label { text: "yy".into(), fg: 2 }),
        ],
    };
    let outer = Container {
        direction: Direction::Row,
        children: vec![
            WidgetNode::Block(Block { ch: 'a', fg: 1 }),
            WidgetNode::Container(inner),
            WidgetNode::Label(Label { text: "long label".into(), fg: 3 }),
        ],
    };
    let mut buf = CellBuffer::new(8, 5);
    outer.paint(&mut buf, Rect { x: 1, y: 1, w: 6, h: 2 });
    assert_eq!(snapshot(&buf), "        \n aaxxlo \n aayy   \n        \n        \n");
}

#[test]
fn column_with_more_children_than_rows_keeps_to_the_top_row() {
    let col = Container {
        direction: Direction::Column,
        children: vec![
            WidgetNode::Label(Label { text: "one".into(), fg: 1 }),
            WidgetNode::Label(Label { text: "tw".into(), fg: 1 }),
            WidgetNode::Label(Label { text: "3".into(), fg: 1 }),
        ],
    };
    let mut buf = CellBuffer::new(5, 3);
    col.paint(&mut buf, Rect { x: 1, y: 1, w: 4, h: 2 });
    assert_eq!(snapshot(&buf), "     \n 3we \n     \n");
}

#[test]
fn painting_twice_is_painting_once() {
    let tree = Container {
        direction: Direction::Column,
        children: vec![
            WidgetNode::Label(Label { text: "top".into(), fg: 1 }),
            WidgetNode::Container(Container {
                direction: Direction::Row,
                children: vec![
                    WidgetNode::Block(Block { ch: '=', fg: 2 }),
                    WidgetNode::Label(Label { text: "right".into(), fg: 3 }),
                ],
            }),
        ],
    };
    let rect = Rect { x: 1, y: 0, w: 8, h: 4 };
    let mut once = CellBuffer::new(10, 5);
    once.write_str(0, 4, "background", 9);
    tree.paint(&mut once, rect);
    let mut twice = once.clone();
    tree.paint(&mut twice, rect);
    assert_eq!(once, twice);
    assert_eq!(snapshot(&once), " top      \n          \n ====righ \n ====     \nbackground\n");
}

#[test]
fn paint_border_boxes_the_buffer() {
    let mut buf = CellBuffer::new(4, 3);
    buf.set(1, 1, Cell::new('x', 2));
    paint_border(&mut buf);
    assert_eq!(snapshot(&buf), "┌──┐\n│x │\n└──┘\n");
    assert_eq!(buf.get(3, 2).fg, 6);
    assert_eq!(buf.get(1, 1).fg, 2);
}

#[test]
fn paint_border_on_a_single_cell_leaves_the_last_corner() {
    let mut buf = CellBuffer::new(1, 1);
    paint_border(&mut buf);
    assert_eq!(snapshot(&buf), "┘\n");
}
