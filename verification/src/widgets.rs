//! Widgets that paint into a rectangle of a `CellBuffer`: solid blocks,
//! one-line labels, and containers that split their rectangle evenly
//! between their children.

use vstd::prelude::*;
use crate::cellbuffer::{
    BufView, Cell, CellBuffer, CellWrite, apply_writes, blank_cell, write_chars, lemma_get_set,
    lemma_view_ext, lemma_write_chars,
};
use crate::text::{chars_of, string_of};

verus! {

/// A rectangle of the grid: top-left corner `(x, y)`, `w` columns, `h` rows.
#[derive(Debug, Clone, Copy, PartialEq, Eq, Structural)]
pub struct Rect {
    pub x: usize,
    pub y: usize,
    pub w: usize,
    pub h: usize,
}

/// The positions a widget painted into `r` may touch: the columns of `r`
/// and its rows, where a rectangle of height 0 still owns its top row.
pub open spec fn paint_area(r: Rect, i: int, j: int) -> bool {
    &&& r.x <= i < r.x + r.w
    &&& r.y <= j < r.y + if r.h == 0 { 1 } else { r.h as int }
}

/// Something that paints itself into a rectangle of a buffer.
pub trait Widget {
    /// Painting into `rect` computes no coordinate past `usize::MAX`.
    spec fn fits(&self, rect: Rect) -> bool;

    /// The grid after painting into `rect`.
    spec fn painted(&self, b: BufView, rect: Rect) -> BufView;

    fn paint(&self, buf: &mut CellBuffer, rect: Rect)
        requires
            old(buf)@.wf(),
            self.fits(rect),
        ensures
            final(buf)@.wf(),
            final(buf)@ == self.painted(old(buf)@, rect),
    ;
}

/// `a + len`, capped at `usize::MAX`.
pub open spec fn saturating_end(a: usize, len: usize) -> int {
    if a + len > usize::MAX {
        usize::MAX as int
    } else {
        a + len
    }
}

/// `c` written at columns `x0 .. x0 + n` of row `y`, left to right.
pub open spec fn fill_span(b: BufView, y: int, x0: int, n: nat, c: Cell) -> BufView
    decreases n,
{
    if n == 0 {
        b
    } else {
        fill_span(b, y, x0, (n - 1) as nat, c).set(x0 + n - 1, y, c)
    }
}

/// The write of `c` at `(x, y)`.
pub open spec fn cell_write(x: int, y: int, c: Cell) -> CellWrite {
    CellWrite { x, y, cell: c }
}

/// The writes of `fill_span`.
pub open spec fn span_writes(y: int, x0: int, n: nat, c: Cell) -> Seq<CellWrite>
    decreases n,
{
    if n == 0 {
        seq![]
    } else {
        span_writes(y, x0, (n - 1) as nat, c).push(cell_write(x0 + n - 1, y, c))
    }
}

pub proof fn lemma_fill_span_as_writes(b: BufView, y: int, x0: int, n: nat, c: Cell)
    ensures
        fill_span(b, y, x0, n, c) == apply_writes(b, span_writes(y, x0, n, c)),
    decreases n,
{
    if n > 0 {
        lemma_fill_span_as_writes(b, y, x0, (n - 1) as nat, c);
        let ws = span_writes(y, x0, (n - 1) as nat, c);
        assert(ws.push(cell_write(x0 + n - 1, y, c)).drop_last() =~= ws);
    }
}

/// `c` written over columns `x0 .. x0 + w` of rows `y0 .. y0 + n`, top to bottom.
pub open spec fn fill_block(b: BufView, x0: int, w: nat, y0: int, n: nat, c: Cell) -> BufView
    decreases n,
{
    if n == 0 {
        b
    } else {
        fill_span(fill_block(b, x0, w, y0, (n - 1) as nat, c), y0 + n - 1, x0, w, c)
    }
}

pub proof fn lemma_fill_span(b: BufView, y: int, x0: int, n: nat, c: Cell, i: int, j: int)
    requires
        b.wf(),
    ensures
        fill_span(b, y, x0, n, c).wf(),
        fill_span(b, y, x0, n, c).width == b.width,
        fill_span(b, y, x0, n, c).height == b.height,
        fill_span(b, y, x0, n, c).get(i, j) == if j == y && x0 <= i < x0 + n && b.in_bounds(i, j) {
            c
        } else {
            b.get(i, j)
        },
    decreases n,
{
    if n > 0 {
        lemma_fill_span(b, y, x0, (n - 1) as nat, c, i, j);
        lemma_get_set(fill_span(b, y, x0, (n - 1) as nat, c), x0 + n - 1, y, c, i, j);
    }
}

/// A filled block holds `c` exactly on the in-grid part of its rectangle.
pub proof fn lemma_fill_block(
    b: BufView,
    x0: int,
    w: nat,
    y0: int,
    n: nat,
    c: Cell,
    i: int,
    j: int,
)
    requires
        b.wf(),
    ensures
        fill_block(b, x0, w, y0, n, c).wf(),
        fill_block(b, x0, w, y0, n, c).width == b.width,
        fill_block(b, x0, w, y0, n, c).height == b.height,
        fill_block(b, x0, w, y0, n, c).get(i, j) == if y0 <= j < y0 + n && x0 <= i < x0 + w
            && b.in_bounds(i, j) {
            c
        } else {
            b.get(i, j)
        },
    decreases n,
{
    if n > 0 {
        let prev = fill_block(b, x0, w, y0, (n - 1) as nat, c);
        lemma_fill_block(b, x0, w, y0, (n - 1) as nat, c, i, j);
        lemma_fill_span(prev, y0 + n - 1, x0, w, c, i, j);
    }
}

/// Solid fill: every cell of the rectangle becomes `ch` in colour `fg`.
pub struct Block {
    pub ch: char,
    pub fg: u8,
}

impl Widget for Block {
    open spec fn fits(&self, rect: Rect) -> bool {
        true
    }

    open spec fn painted(&self, b: BufView, rect: Rect) -> BufView {
        fill_block(
            b,
            rect.x as int,
            (saturating_end(rect.x, rect.w) - rect.x) as nat,
            rect.y as int,
            (saturating_end(rect.y, rect.h) - rect.y) as nat,
            Cell { ch: self.ch, fg: self.fg, bg: 0 },
        )
    }

    fn paint(&self, buf: &mut CellBuffer, rect: Rect) {
        let cell = Cell::new(self.ch, self.fg);
        let x_end = rect.x.saturating_add(rect.w);
        let y_end = rect.y.saturating_add(rect.h);
        let ghost b0 = buf@;
        let ghost w = (x_end - rect.x) as nat;
        let mut y = rect.y;
        while y < y_end
            invariant
                rect.y <= y <= y_end,
                y_end == saturating_end(rect.y, rect.h),
                x_end == saturating_end(rect.x, rect.w),
                w == x_end - rect.x,
                b0.wf(),
                buf@.wf(),
                buf@ == fill_block(b0, rect.x as int, w, rect.y as int, (y - rect.y) as nat, cell),
            decreases y_end - y,
        {
            let ghost row_start = buf@;
            proof {
                lemma_fill_block(b0, rect.x as int, w, rect.y as int, (y - rect.y) as nat, cell, 0, 0);
            }
            let mut x = rect.x;
            while x < x_end
                invariant
                    rect.x <= x <= x_end,
                    rect.y <= y < y_end,
                    row_start.wf(),
                    buf@.wf(),
                    buf@ == fill_span(row_start, y as int, rect.x as int, (x - rect.x) as nat, cell),
                decreases x_end - x,
            {
                buf.set(x, y, cell);
                x = x + 1;
            }
            y = y + 1;
        }
    }
}

/// The characters of `text` that fit in `w` columns.
pub open spec fn shown(text: Seq<char>, w: usize) -> Seq<char> {
    if text.len() <= w {
        text
    } else {
        text.take(w as int)
    }
}

/// One line of text, cut to the rectangle's width, on the rectangle's top row.
pub struct Label {
    pub text: String,
    pub fg: u8,
}

impl Widget for Label {
    open spec fn fits(&self, rect: Rect) -> bool {
        rect.x + shown(self.text@, rect.w).len() <= usize::MAX + 1
    }

    open spec fn painted(&self, b: BufView, rect: Rect) -> BufView {
        write_chars(b, rect.x as int, rect.y as int, shown(self.text@, rect.w), self.fg)
    }

    fn paint(&self, buf: &mut CellBuffer, rect: Rect) {
        let chars = chars_of(self.text.as_str());
        let mut cut: Vec<char> = Vec::new();
        let mut i: usize = 0;
        while i < chars.len() && i < rect.w
            invariant
                i <= chars@.len(),
                i <= rect.w,
                cut@ == chars@.take(i as int),
            decreases chars@.len() - i,
        {
            cut.push(chars[i]);
            assert(chars@.take(i + 1) =~= chars@.take(i as int).push(chars@[i as int]));
            i = i + 1;
        }
        assert(cut@ =~= shown(self.text@, rect.w));
        let truncated = string_of(&cut);
        buf.write_str(rect.x, rect.y, truncated.as_str(), self.fg);
    }
}

/// What a label leaves on the grid: its text, cut to the rectangle's width,
/// on the rectangle's top row from its left edge, in its colour; every
/// other cell is unchanged.
pub proof fn lemma_label_cells(l: Label, b: BufView, r: Rect, i: int, j: int)
    requires
        b.wf(),
    ensures
        l.painted(b, r).get(i, j) == if j == r.y && r.x <= i < r.x + shown(l.text@, r.w).len()
            && b.in_bounds(i, j) {
            Cell { ch: shown(l.text@, r.w)[i - r.x], fg: l.fg, bg: 0 }
        } else {
            b.get(i, j)
        },
{
    lemma_write_chars(b, r.x as int, r.y as int, shown(l.text@, r.w), l.fg, i, j);
}

/// The axis along which a container splits its rectangle.
#[derive(Debug, Clone, Copy, PartialEq, Eq, Structural)]
pub enum Direction {
    Row,
    Column,
}

/// A child of a container: any of the widgets of this module.
pub enum WidgetNode {
    Block(Block),
    Label(Label),
    Container(Container),
}

/// Composite widget: gives each of its `n` children an equal slice of its
/// rectangle (`w / n` columns in a row, `h / n` rows in a column), in order.
pub struct Container {
    pub direction: Direction,
    pub children: Vec<WidgetNode>,
}

/// The rectangle of child `i` of `n` (`n > 0`).
pub open spec fn child_rect(dir: Direction, r: Rect, n: nat, i: nat) -> Rect {
    match dir {
        Direction::Row => {
            let each = r.w as nat / n;
            Rect { x: (r.x + i * each) as usize, y: r.y, w: each as usize, h: r.h }
        },
        Direction::Column => {
            let each = r.h as nat / n;
            Rect { x: r.x, y: (r.y + i * each) as usize, w: r.w, h: each as usize }
        },
    }
}

/// The corner of child `i` of `n` is computed without overflow.
pub open spec fn child_origin_fits(dir: Direction, r: Rect, n: nat, i: nat) -> bool {
    match dir {
        Direction::Row => r.x + i * (r.w as nat / n) <= usize::MAX,
        Direction::Column => r.y + i * (r.h as nat / n) <= usize::MAX,
    }
}

/// Painting `w` into `r` computes no coordinate past `usize::MAX`.
pub open spec fn node_fits(w: WidgetNode, r: Rect) -> bool
    decreases w, 0nat,
{
    match w {
        WidgetNode::Block(_) => true,
        WidgetNode::Label(l) => r.x + shown(l.text@, r.w).len() <= usize::MAX + 1,
        WidgetNode::Container(c) => children_fit(c, r, c.children@.len()),
    }
}

/// The first `k` children of `c` fit their slices of `r`.
pub open spec fn children_fit(c: Container, r: Rect, k: nat) -> bool
    decreases c, k,
{
    let n = c.children@.len();
    if k == 0 || k > n {
        true
    } else {
        &&& children_fit(c, r, (k - 1) as nat)
        &&& child_origin_fits(c.direction, r, n, (k - 1) as nat)
        &&& node_fits(c.children@[k - 1], child_rect(c.direction, r, n, (k - 1) as nat))
    }
}

/// The grid after painting `w` into `r`.
pub open spec fn paint_node(w: WidgetNode, b: BufView, r: Rect) -> BufView
    decreases w, 0nat,
{
    match w {
        WidgetNode::Block(bl) => bl.painted(b, r),
        WidgetNode::Label(l) => l.painted(b, r),
        WidgetNode::Container(c) => paint_children(c, b, r, c.children@.len()),
    }
}

/// The grid after painting the first `k` children of `c` into their slices of `r`.
pub open spec fn paint_children(c: Container, b: BufView, r: Rect, k: nat) -> BufView
    decreases c, k,
{
    let n = c.children@.len();
    if k == 0 || k > n {
        b
    } else {
        paint_node(
            c.children@[k - 1],
            paint_children(c, b, r, (k - 1) as nat),
            child_rect(c.direction, r, n, (k - 1) as nat),
        )
    }
}

/// `i` slices of `w / n` fit in `w` together with one more slice.
pub proof fn lemma_slices_fit(w: nat, n: nat, i: nat)
    requires
        n > 0,
        i < n,
    ensures
        i * (w / n) + w / n <= w,
        i * (w / n) <= w,
        0 <= i * (w / n),
        w / n <= w,
{
    let q = w / n;
    vstd::arithmetic::div_mod::lemma_fundamental_div_mod(w as int, n as int);
    assert(i * q + q <= n * q && 0 <= i * q && q <= n * q) by (nonlinear_arith)
        requires
            i < n,
            q >= 0,
    ;
    assert(0 <= (w as int) % (n as int));
}

proof fn lemma_children_fit_prefix(c: Container, r: Rect, k: nat, m: nat)
    requires
        children_fit(c, r, k),
        m <= k <= c.children@.len(),
    ensures
        children_fit(c, r, m),
    decreases k,
{
    if m < k {
        lemma_children_fit_prefix(c, r, (k - 1) as nat, m);
    }
}

fn paint_widget(w: &WidgetNode, buf: &mut CellBuffer, rect: Rect)
    requires
        old(buf)@.wf(),
        node_fits(*w, rect),
    ensures
        final(buf)@.wf(),
        final(buf)@ == paint_node(*w, old(buf)@, rect),
    decreases *w, 0nat,
{
    match w {
        WidgetNode::Block(b) => b.paint(buf, rect),
        WidgetNode::Label(l) => l.paint(buf, rect),
        WidgetNode::Container(c) => paint_container(c, buf, rect),
    }
}

fn paint_container(c: &Container, buf: &mut CellBuffer, rect: Rect)
    requires
        old(buf)@.wf(),
        children_fit(*c, rect, c.children@.len()),
    ensures
        final(buf)@.wf(),
        final(buf)@ == paint_children(*c, old(buf)@, rect, c.children@.len()),
    decreases *c, 0nat,
{
    let n = c.children.len();
    if n == 0 {
        return;
    }
    let ghost b0 = buf@;
    let mut i: usize = 0;
    while i < n
        invariant
            n == c.children@.len(),
            n > 0,
            i <= n,
            children_fit(*c, rect, n as nat),
            buf@.wf(),
            buf@ == paint_children(*c, b0, rect, i as nat),
        decreases n - i,
    {
        proof {
            lemma_children_fit_prefix(*c, rect, n as nat, (i + 1) as nat);
        }
        let child_r = match c.direction {
            Direction::Row => {
                let each = rect.w / n;
                proof {
                    lemma_slices_fit(rect.w as nat, n as nat, i as nat);
                }
                Rect { x: rect.x + i * each, y: rect.y, w: each, h: rect.h }
            },
            Direction::Column => {
                let each = rect.h / n;
                proof {
                    lemma_slices_fit(rect.h as nat, n as nat, i as nat);
                }
                Rect { x: rect.x, y: rect.y + i * each, w: rect.w, h: each }
            },
        };
        assert(child_r == child_rect(c.direction, rect, n as nat, i as nat));
        paint_widget(&c.children[i], buf, child_r);
        i = i + 1;
    }
}

impl Widget for Container {
    open spec fn fits(&self, rect: Rect) -> bool {
        children_fit(*self, rect, self.children@.len())
    }

    open spec fn painted(&self, b: BufView, rect: Rect) -> BufView {
        paint_children(*self, b, rect, self.children@.len())
    }

    fn paint(&self, buf: &mut CellBuffer, rect: Rect) {
        paint_container(self, buf, rect);
    }
}

impl Widget for WidgetNode {
    open spec fn fits(&self, rect: Rect) -> bool {
        node_fits(*self, rect)
    }

    open spec fn painted(&self, b: BufView, rect: Rect) -> BufView {
        paint_node(*self, b, rect)
    }

    fn paint(&self, buf: &mut CellBuffer, rect: Rect) {
        paint_widget(self, buf, rect);
    }
}

/// Each child's paint area lies inside its parent's.
pub proof fn lemma_child_area_inside(dir: Direction, r: Rect, n: nat, k: nat, i: int, j: int)
    requires
        n > 0,
        k < n,
        child_origin_fits(dir, r, n, k),
        paint_area(child_rect(dir, r, n, k), i, j),
    ensures
        paint_area(r, i, j),
{
    let cr = child_rect(dir, r, n, k);
    match dir {
        Direction::Row => {
            let e = r.w as nat / n;
            lemma_slices_fit(r.w as nat, n, k);
            assert(cr.x as int == r.x + k * e);
            assert(cr.w as int == e);
        },
        Direction::Column => {
            let e = r.h as nat / n;
            lemma_slices_fit(r.h as nat, n, k);
            assert(e == 0 ==> k * e == 0) by (nonlinear_arith);
            assert(cr.y as int == r.y + k * e);
            assert(cr.h as int == e);
        },
    }
}

/// No overflow: painting a widget into `r` changes no cell outside `r`'s
/// paint area, and keeps the grid's shape.
pub proof fn lemma_paint_stays_inside(w: WidgetNode, b: BufView, r: Rect, i: int, j: int)
    requires
        b.wf(),
        node_fits(w, r),
    ensures
        paint_node(w, b, r).wf(),
        paint_node(w, b, r).width == b.width,
        paint_node(w, b, r).height == b.height,
        !paint_area(r, i, j) ==> paint_node(w, b, r).get(i, j) == b.get(i, j),
    decreases w, 0nat,
{
    match w {
        WidgetNode::Block(bl) => {
            lemma_fill_block(
                b,
                r.x as int,
                (saturating_end(r.x, r.w) - r.x) as nat,
                r.y as int,
                (saturating_end(r.y, r.h) - r.y) as nat,
                Cell { ch: bl.ch, fg: bl.fg, bg: 0 },
                i,
                j,
            );
        },
        WidgetNode::Label(l) => {
            lemma_write_chars(b, r.x as int, r.y as int, shown(l.text@, r.w), l.fg, i, j);
        },
        WidgetNode::Container(c) => {
            lemma_children_stay_inside(c, b, r, c.children@.len(), i, j);
        },
    }
}

/// The children of a container, painted in turn, stay inside its paint area.
pub proof fn lemma_children_stay_inside(c: Container, b: BufView, r: Rect, k: nat, i: int, j: int)
    requires
        b.wf(),
        children_fit(c, r, k),
    ensures
        paint_children(c, b, r, k).wf(),
        paint_children(c, b, r, k).width == b.width,
        paint_children(c, b, r, k).height == b.height,
        !paint_area(r, i, j) ==> paint_children(c, b, r, k).get(i, j) == b.get(i, j),
    decreases c, k,
{
    let n = c.children@.len();
    if k > 0 && k <= n {
        let prev = paint_children(c, b, r, (k - 1) as nat);
        let cr = child_rect(c.direction, r, n, (k - 1) as nat);
        lemma_children_stay_inside(c, b, r, (k - 1) as nat, i, j);
        lemma_paint_stays_inside(c.children@[k - 1], prev, cr, i, j);
        if paint_area(cr, i, j) {
            lemma_child_area_inside(c.direction, r, n, (k - 1) as nat, i, j);
        }
    }
}

/// Children of a container get pairwise disjoint slices of its rectangle, in
/// order along its direction.
pub proof fn lemma_child_rects_disjoint(dir: Direction, r: Rect, n: nat, a: nat, k: nat)
    requires
        n > 0,
        a < k < n,
        child_origin_fits(dir, r, n, a),
        child_origin_fits(dir, r, n, k),
    ensures
        dir == Direction::Row ==> child_rect(dir, r, n, a).x + child_rect(dir, r, n, a).w
            <= child_rect(dir, r, n, k).x,
        dir == Direction::Column ==> child_rect(dir, r, n, a).y + child_rect(dir, r, n, a).h
            <= child_rect(dir, r, n, k).y,
{
    let each = if dir == Direction::Row {
        r.w as nat / n
    } else {
        r.h as nat / n
    };
    assert(a * each + each <= k * each) by (nonlinear_arith)
        requires
            a < k,
    ;
    lemma_slices_fit(r.w as nat, n, k);
    lemma_slices_fit(r.h as nat, n, k);
}

/// Whether painting `w` into `r` writes position `(i, j)` (before clipping
/// to the grid).
pub open spec fn node_touches(w: WidgetNode, r: Rect, i: int, j: int) -> bool
    decreases w, 0nat,
{
    match w {
        WidgetNode::Block(_) => r.y <= j < saturating_end(r.y, r.h) && r.x <= i < saturating_end(
            r.x,
            r.w,
        ),
        WidgetNode::Label(l) => j == r.y && r.x <= i < r.x + shown(l.text@, r.w).len(),
        WidgetNode::Container(c) => children_touch(c, r, c.children@.len(), i, j),
    }
}

/// Whether one of the first `k` children of `c` writes `(i, j)`.
pub open spec fn children_touch(c: Container, r: Rect, k: nat, i: int, j: int) -> bool
    decreases c, k,
{
    let n = c.children@.len();
    if k == 0 || k > n {
        false
    } else {
        children_touch(c, r, (k - 1) as nat, i, j) || node_touches(
            c.children@[k - 1],
            child_rect(c.direction, r, n, (k - 1) as nat),
            i,
            j,
        )
    }
}

/// The cell that painting `w` into `r` leaves at a position it writes.
pub open spec fn node_value(w: WidgetNode, r: Rect, i: int, j: int) -> Cell
    decreases w, 0nat,
{
    match w {
        WidgetNode::Block(bl) => Cell { ch: bl.ch, fg: bl.fg, bg: 0 },
        WidgetNode::Label(l) => Cell { ch: shown(l.text@, r.w)[i - r.x], fg: l.fg, bg: 0 },
        WidgetNode::Container(c) => children_value(c, r, c.children@.len(), i, j),
    }
}

/// The cell left at `(i, j)` by the last of the first `k` children that writes it.
pub open spec fn children_value(c: Container, r: Rect, k: nat, i: int, j: int) -> Cell
    decreases c, k,
{
    let n = c.children@.len();
    if k == 0 || k > n {
        blank_cell()
    } else {
        let cr = child_rect(c.direction, r, n, (k - 1) as nat);
        if node_touches(c.children@[k - 1], cr, i, j) {
            node_value(c.children@[k - 1], cr, i, j)
        } else {
            children_value(c, r, (k - 1) as nat, i, j)
        }
    }
}

/// What a widget leaves at each position: its own cell where it writes,
/// whatever was there before elsewhere. The written positions and cells do
/// not depend on the grid painted over.
pub proof fn lemma_paint_effect(w: WidgetNode, b: BufView, r: Rect, i: int, j: int)
    requires
        b.wf(),
        node_fits(w, r),
    ensures
        paint_node(w, b, r).get(i, j) == if node_touches(w, r, i, j) && b.in_bounds(i, j) {
            node_value(w, r, i, j)
        } else {
            b.get(i, j)
        },
    decreases w, 0nat,
{
    match w {
        WidgetNode::Block(bl) => {
            lemma_fill_block(
                b,
                r.x as int,
                (saturating_end(r.x, r.w) - r.x) as nat,
                r.y as int,
                (saturating_end(r.y, r.h) - r.y) as nat,
                Cell { ch: bl.ch, fg: bl.fg, bg: 0 },
                i,
                j,
            );
        },
        WidgetNode::Label(l) => {
            lemma_write_chars(b, r.x as int, r.y as int, shown(l.text@, r.w), l.fg, i, j);
        },
        WidgetNode::Container(c) => {
            lemma_children_effect(c, b, r, c.children@.len(), i, j);
        },
    }
}

/// The children of a container, painted in turn, leave at each position the
/// cell of the last child that writes it.
pub proof fn lemma_children_effect(c: Container, b: BufView, r: Rect, k: nat, i: int, j: int)
    requires
        b.wf(),
        children_fit(c, r, k),
    ensures
        paint_children(c, b, r, k).get(i, j) == if children_touch(c, r, k, i, j) && b.in_bounds(
            i,
            j,
        ) {
            children_value(c, r, k, i, j)
        } else {
            b.get(i, j)
        },
    decreases c, k,
{
    let n = c.children@.len();
    if k > 0 && k <= n {
        let prev = paint_children(c, b, r, (k - 1) as nat);
        let cr = child_rect(c.direction, r, n, (k - 1) as nat);
        lemma_children_effect(c, b, r, (k - 1) as nat, i, j);
        lemma_children_stay_inside(c, b, r, (k - 1) as nat, i, j);
        lemma_paint_effect(c.children@[k - 1], prev, cr, i, j);
    }
}

/// Layout is idempotent: painting a widget a second time into the same
/// rectangle changes nothing.
pub proof fn lemma_paint_idempotent(w: WidgetNode, b: BufView, r: Rect)
    requires
        b.wf(),
        node_fits(w, r),
    ensures
        paint_node(w, paint_node(w, b, r), r) == paint_node(w, b, r),
{
    let once = paint_node(w, b, r);
    lemma_paint_stays_inside(w, b, r, 0, 0);
    lemma_paint_stays_inside(w, once, r, 0, 0);
    assert forall|i: int, j: int| once.in_bounds(i, j) implies #[trigger] paint_node(
        w,
        once,
        r,
    ).get(i, j) == once.get(i, j) by {
        lemma_paint_effect(w, b, r, i, j);
        lemma_paint_effect(w, once, r, i, j);
    }
    lemma_view_ext(paint_node(w, once, r), once);
}

/// A border cell: `c` in colour 6.
pub open spec fn edge(c: char) -> Cell {
    Cell { ch: c, fg: 6, bg: 0 }
}

/// `─` on rows 0 and `h - 1` of columns `0 .. k`.
pub open spec fn border_rows(b: BufView, h: nat, k: nat) -> BufView
    decreases k,
{
    if k == 0 {
        b
    } else {
        border_rows(b, h, (k - 1) as nat).set(k - 1, 0, edge('─')).set(k - 1, h - 1, edge('─'))
    }
}

/// `│` on columns 0 and `w - 1` of rows `0 .. k`.
pub open spec fn border_cols(b: BufView, w: nat, k: nat) -> BufView
    decreases k,
{
    if k == 0 {
        b
    } else {
        border_cols(b, w, (k - 1) as nat).set(0, k - 1, edge('│')).set(w - 1, k - 1, edge('│'))
    }
}

/// The grid with a box drawn around its edge: `─` across the top and bottom
/// rows, `│` down the first and last columns, and the four corners.
pub open spec fn bordered(b: BufView) -> BufView {
    let w = b.width;
    let h = b.height;
    border_cols(border_rows(b, h, w), w, h).set(0, 0, edge('┌')).set(w - 1, 0, edge('┐')).set(
        0,
        h - 1,
        edge('└'),
    ).set(w - 1, h - 1, edge('┘'))
}

proof fn lemma_border_rows(b: BufView, h: nat, k: nat, i: int, j: int)
    requires
        b.wf(),
    ensures
        border_rows(b, h, k).wf(),
        border_rows(b, h, k).width == b.width,
        border_rows(b, h, k).height == b.height,
        j != 0 && j != h - 1 ==> border_rows(b, h, k).get(i, j) == b.get(i, j),
    decreases k,
{
    if k > 0 {
        let p = border_rows(b, h, (k - 1) as nat);
        lemma_border_rows(b, h, (k - 1) as nat, i, j);
        lemma_get_set(p, k - 1, 0, edge('─'), i, j);
        lemma_get_set(p.set(k - 1, 0, edge('─')), k - 1, h - 1, edge('─'), i, j);
    }
}

proof fn lemma_border_cols(b: BufView, w: nat, k: nat, i: int, j: int)
    requires
        b.wf(),
    ensures
        border_cols(b, w, k).wf(),
        border_cols(b, w, k).width == b.width,
        border_cols(b, w, k).height == b.height,
        i != 0 && i != w - 1 ==> border_cols(b, w, k).get(i, j) == b.get(i, j),
    decreases k,
{
    if k > 0 {
        let p = border_cols(b, w, (k - 1) as nat);
        lemma_border_cols(b, w, (k - 1) as nat, i, j);
        lemma_get_set(p, 0, k - 1, edge('│'), i, j);
        lemma_get_set(p.set(0, k - 1, edge('│')), w - 1, k - 1, edge('│'), i, j);
    }
}

proof fn lemma_border_cols_edge(b: BufView, w: nat, k: nat, j: int)
    requires
        b.wf(),
        w == b.width,
        0 <= j < k <= b.height,
    ensures
        border_cols(b, w, k).get(0, j) == edge('│'),
        border_cols(b, w, k).get(w - 1, j) == edge('│'),
    decreases k,
{
    let p = border_cols(b, w, (k - 1) as nat);
    lemma_border_cols(b, w, (k - 1) as nat, 0, j);
    if j < k - 1 {
        lemma_border_cols_edge(b, w, (k - 1) as nat, j);
    }
    lemma_get_set(p, 0, k - 1, edge('│'), 0, j);
    lemma_get_set(p.set(0, k - 1, edge('│')), w - 1, k - 1, edge('│'), 0, j);
    lemma_get_set(p, 0, k - 1, edge('│'), w - 1, j);
    lemma_get_set(p.set(0, k - 1, edge('│')), w - 1, k - 1, edge('│'), w - 1, j);
}

proof fn lemma_border_rows_edge(b: BufView, h: nat, k: nat, x: int)
    requires
        b.wf(),
        h == b.height,
        0 <= x < k <= b.width,
    ensures
        border_rows(b, h, k).get(x, 0) == edge('─'),
        border_rows(b, h, k).get(x, h - 1) == edge('─'),
    decreases k,
{
    let p = border_rows(b, h, (k - 1) as nat);
    lemma_border_rows(b, h, (k - 1) as nat, x, 0);
    if x < k - 1 {
        lemma_border_rows_edge(b, h, (k - 1) as nat, x);
    }
    lemma_get_set(p, k - 1, 0, edge('─'), x, 0);
    lemma_get_set(p.set(k - 1, 0, edge('─')), k - 1, h - 1, edge('─'), x, 0);
    lemma_get_set(p, k - 1, 0, edge('─'), x, h - 1);
    lemma_get_set(p.set(k - 1, 0, edge('─')), k - 1, h - 1, edge('─'), x, h - 1);
}

/// On a grid at least 2 × 2, the border puts `─` along the top and bottom
/// rows between the corners, and `┌ ┐ └ ┘` in the corners.
pub proof fn lemma_bordered_top_bottom(b: BufView, x: int)
    requires
        b.wf(),
        b.width >= 2,
        b.height >= 2,
        0 < x < b.width - 1,
    ensures
        bordered(b).get(x, 0) == edge('─'),
        bordered(b).get(x, b.height - 1) == edge('─'),
        bordered(b).get(0, 0) == edge('┌'),
        bordered(b).get(b.width - 1, 0) == edge('┐'),
        bordered(b).get(0, b.height - 1) == edge('└'),
        bordered(b).get(b.width - 1, b.height - 1) == edge('┘'),
{
    let w = b.width;
    let h = b.height;
    let rows = border_rows(b, h, w);
    let cols = border_cols(rows, w, h);
    lemma_border_rows(b, h, w, 0, 0);
    lemma_border_rows_edge(b, h, w, x);
    lemma_border_cols(rows, w, h, x, 0);
    lemma_border_cols(rows, w, h, x, h - 1);
    let c1 = cols.set(0, 0, edge('┌'));
    let c2 = c1.set(w - 1, 0, edge('┐'));
    let c3 = c2.set(0, h - 1, edge('└'));
    let c4 = c3.set(w - 1, h - 1, edge('┘'));
    assert forall|i: int, j: int| #![auto] (i == x && (j == 0 || j == h - 1)) || ((i == 0 || i
        == w - 1) && (j == 0 || j == h - 1)) implies c4.get(i, j) == if i == x {
        edge('─')
    } else if i == 0 && j == 0 {
        edge('┌')
    } else if j == 0 {
        edge('┐')
    } else if i == 0 {
        edge('└')
    } else {
        edge('┘')
    } by {
        lemma_border_cols(rows, w, h, i, j);
        lemma_get_set(cols, 0, 0, edge('┌'), i, j);
        lemma_get_set(c1, w - 1, 0, edge('┐'), i, j);
        lemma_get_set(c2, 0, h - 1, edge('└'), i, j);
        lemma_get_set(c3, w - 1, h - 1, edge('┘'), i, j);
    }
    assert(c4.get(x, 0) == edge('─'));
    assert(c4.get(x, h - 1) == edge('─'));
    assert(c4.get(0, 0) == edge('┌'));
    assert(c4.get(w - 1, 0) == edge('┐'));
    assert(c4.get(0, h - 1) == edge('└'));
    assert(c4.get(w - 1, h - 1) == edge('┘'));
}

/// Between the top and bottom rows, the border puts `│` in the first and
/// last columns.
pub proof fn lemma_bordered_sides(b: BufView, j: int)
    requires
        b.wf(),
        0 < j < b.height - 1,
    ensures
        bordered(b).get(0, j) == edge('│'),
        bordered(b).get(b.width - 1, j) == edge('│'),
{
    let w = b.width;
    let h = b.height;
    let rows = border_rows(b, h, w);
    let cols = border_cols(rows, w, h);
    lemma_border_rows(b, h, w, 0, j);
    lemma_border_cols_edge(rows, w, h, j);
    lemma_border_cols(rows, w, h, 0, j);
    let c1 = cols.set(0, 0, edge('┌'));
    let c2 = c1.set(w - 1, 0, edge('┐'));
    let c3 = c2.set(0, h - 1, edge('└'));
    lemma_get_set(cols, 0, 0, edge('┌'), 0, j);
    lemma_get_set(c1, w - 1, 0, edge('┐'), 0, j);
    lemma_get_set(c2, 0, h - 1, edge('└'), 0, j);
    lemma_get_set(c3, w - 1, h - 1, edge('┘'), 0, j);
    lemma_get_set(cols, 0, 0, edge('┌'), w - 1, j);
    lemma_get_set(c1, w - 1, 0, edge('┐'), w - 1, j);
    lemma_get_set(c2, 0, h - 1, edge('└'), w - 1, j);
    lemma_get_set(c3, w - 1, h - 1, edge('┘'), w - 1, j);
}

/// The border touches only the edge: the grid keeps its shape and every
/// cell off the first and last rows and columns is unchanged.
pub proof fn lemma_bordered_inside(b: BufView, i: int, j: int)
    requires
        b.wf(),
    ensures
        bordered(b).wf(),
        bordered(b).width == b.width,
        bordered(b).height == b.height,
        0 < i < b.width - 1 && 0 < j < b.height - 1 ==> bordered(b).get(i, j) == b.get(i, j),
{
    let w = b.width;
    let h = b.height;
    let rows = border_rows(b, h, w);
    let cols = border_cols(rows, w, h);
    lemma_border_rows(b, h, w, i, j);
    lemma_border_cols(rows, w, h, i, j);
    let c1 = cols.set(0, 0, edge('┌'));
    let c2 = c1.set(w - 1, 0, edge('┐'));
    let c3 = c2.set(0, h - 1, edge('└'));
    lemma_get_set(cols, 0, 0, edge('┌'), i, j);
    lemma_get_set(c1, w - 1, 0, edge('┐'), i, j);
    lemma_get_set(c2, 0, h - 1, edge('└'), i, j);
    lemma_get_set(c3, w - 1, h - 1, edge('┘'), i, j);
}

/// Draw a box around the edge of the buffer, in colour 6.
pub fn paint_border(buf: &mut CellBuffer)
    requires
        old(buf)@.wf(),
    ensures
        final(buf)@.wf(),
        final(buf)@ == bordered(old(buf)@),
{
    let w = buf.width();
    let h = buf.height();
    let ghost b0 = buf@;
    let mut x: usize = 0;
    while x < w
        invariant
            x <= w == b0.width,
            h == b0.height,
            b0.wf(),
            buf@.wf(),
            buf@.width == w,
            buf@.height == h,
            buf@ == border_rows(b0, h as nat, x as nat),
        decreases w - x,
    {
        buf.set(x, 0, Cell::new('─', 6));
        buf.set(x, h - 1, Cell::new('─', 6));
        x = x + 1;
    }
    let ghost b1 = buf@;
    let mut y: usize = 0;
    while y < h
        invariant
            y <= h == b0.height,
            w == b0.width,
            buf@.wf(),
            buf@.width == w,
            buf@.height == h,
            b1 == border_rows(b0, h as nat, w as nat),
            buf@ == border_cols(b1, w as nat, y as nat),
        decreases h - y,
    {
        buf.set(0, y, Cell::new('│', 6));
        buf.set(w - 1, y, Cell::new('│', 6));
        y = y + 1;
    }
    buf.set(0, 0, Cell::new('┌', 6));
    buf.set(w - 1, 0, Cell::new('┐', 6));
    buf.set(0, h - 1, Cell::new('└', 6));
    buf.set(w - 1, h - 1, Cell::new('┘', 6));
}

/// Marker line the widget demo prints when it finishes.
pub fn contract_marker() -> (s: &'static str)
    ensures
        s@ == "contract: tui-rendering-v1 holds — OK"@,
{
    "contract: tui-rendering-v1 holds — OK"
}

} // verus!
