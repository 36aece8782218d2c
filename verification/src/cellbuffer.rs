//! The cell grid: one `Cell` per terminal position, stored row by row.

use vstd::prelude::*;
use crate::text::{decimal, push_decimal, string_of};

verus! {

/// One terminal cell: a character with 8-bit foreground and background colours.
#[derive(Debug, Clone, Copy, PartialEq, Eq, Structural)]
pub struct Cell {
    pub ch: char,
    pub fg: u8,
    pub bg: u8,
}

/// The blank cell: a space, light grey on black.
pub open spec fn blank_cell() -> Cell {
    Cell { ch: ' ', fg: 7, bg: 0 }
}

impl Default for Cell {
    fn default() -> (c: Self)
        ensures
            c == blank_cell(),
    {
        Cell { ch: ' ', fg: 7, bg: 0 }
    }
}

impl Cell {
    /// A cell with the given character and foreground on a black background.
    pub fn new(ch: char, fg: u8) -> (c: Self)
        ensures
            c == (Cell { ch, fg, bg: 0 }),
    {
        Cell { ch, fg, bg: 0 }
    }
}

/// The mathematical model of a cell buffer: its dimensions and its cells,
/// row by row (`cells[y * width + x]`).
pub struct BufView {
    pub width: nat,
    pub height: nat,
    pub cells: Seq<Cell>,
}

/// `y * w + x` lies in `0 .. w * h` for an in-bounds position.
pub proof fn lemma_index_bounds(x: int, y: int, w: int, h: int)
    requires
        0 <= x < w,
        0 <= y < h,
    ensures
        0 <= y * w + x < w * h,
{
    assert(0 <= y * w + x < w * h) by (nonlinear_arith)
        requires
            0 <= x < w,
            0 <= y < h,
    ;
}

/// Distinct in-bounds positions have distinct row-major indices.
pub proof fn lemma_index_injective(x1: int, y1: int, x2: int, y2: int, w: int)
    requires
        0 <= x1 < w,
        0 <= x2 < w,
        0 <= y1,
        0 <= y2,
        y1 * w + x1 == y2 * w + x2,
    ensures
        x1 == x2,
        y1 == y2,
{
    if y1 < y2 {
        assert(y1 * w + w <= y2 * w) by (nonlinear_arith)
            requires
                y1 < y2,
                0 <= w,
        ;
    } else if y2 < y1 {
        assert(y2 * w + w <= y1 * w) by (nonlinear_arith)
            requires
                y2 < y1,
                0 <= w,
        ;
    }
}

impl BufView {
    /// Positive dimensions and exactly `width * height` cells.
    pub open spec fn wf(self) -> bool {
        &&& self.width > 0
        &&& self.height > 0
        &&& self.cells.len() == self.width * self.height
        &&& self.width * self.height <= usize::MAX
        &&& self.width <= usize::MAX
        &&& self.height <= usize::MAX
    }

    pub open spec fn in_bounds(self, x: int, y: int) -> bool {
        0 <= x < self.width && 0 <= y < self.height
    }

    /// The cell at `(x, y)`; the blank cell outside the grid.
    pub open spec fn get(self, x: int, y: int) -> Cell {
        if self.in_bounds(x, y) {
            self.cells[y * self.width + x]
        } else {
            blank_cell()
        }
    }

    /// The grid with `(x, y)` replaced by `c`; unchanged outside the grid.
    pub open spec fn set(self, x: int, y: int, c: Cell) -> BufView {
        if self.in_bounds(x, y) {
            BufView { cells: self.cells.update(y * self.width + x, c), ..self }
        } else {
            self
        }
    }

    /// A `width × height` grid of blank cells.
    pub open spec fn blank(width: nat, height: nat) -> BufView {
        BufView { width, height, cells: Seq::new(width * height, |i: int| blank_cell()) }
    }

    /// A grid of the same size with every cell replaced by `c`.
    pub open spec fn filled(self, c: Cell) -> BufView {
        BufView { cells: Seq::new(self.cells.len(), |i: int| c), ..self }
    }

    /// The cell at `(x, y)`, or `None` outside the grid.
    pub open spec fn cell_opt(self, x: int, y: int) -> Option<Cell> {
        if self.in_bounds(x, y) {
            Some(self.cells[y * self.width + x])
        } else {
            None
        }
    }
}

/// Reading back a write: the written position holds the new cell, every
/// other position is unchanged, and the dimensions stay the same.
pub proof fn lemma_get_set(b: BufView, x: int, y: int, c: Cell, i: int, j: int)
    requires
        b.wf(),
    ensures
        b.set(x, y, c).wf(),
        b.set(x, y, c).width == b.width,
        b.set(x, y, c).height == b.height,
        b.set(x, y, c).get(i, j) == if i == x && j == y && b.in_bounds(x, y) {
            c
        } else {
            b.get(i, j)
        },
{
    if b.in_bounds(x, y) {
        lemma_index_bounds(x, y, b.width as int, b.height as int);
        if b.in_bounds(i, j) {
            lemma_index_bounds(i, j, b.width as int, b.height as int);
            if j * b.width + i == y * b.width + x {
                lemma_index_injective(i, j, x, y, b.width as int);
            }
        }
    }
}

/// Two well-formed grids of the same shape that agree at every in-bounds
/// position are equal.
pub proof fn lemma_view_ext(a: BufView, b: BufView)
    requires
        a.wf(),
        b.wf(),
        a.width == b.width,
        a.height == b.height,
        forall|i: int, j: int| a.in_bounds(i, j) ==> #[trigger] a.get(i, j) == b.get(i, j),
    ensures
        a == b,
{
    let w = a.width as int;
    let h = a.height as int;
    assert forall|k: int| 0 <= k < a.cells.len() implies a.cells[k] == b.cells[k] by {
        vstd::arithmetic::div_mod::lemma_fundamental_div_mod(k, w);
        vstd::arithmetic::div_mod::lemma_mod_bound(k, w);
        vstd::arithmetic::div_mod::lemma_div_pos_is_pos(k, w);
        assert(w * h == h * w) by (nonlinear_arith);
        vstd::arithmetic::div_mod::lemma_multiply_divide_lt(k, w, h);
        let x = k % w;
        let y = k / w;
        assert(k == y * w + x) by (nonlinear_arith)
            requires
                k == w * (k / w) + k % w,
                y == k / w,
                x == k % w,
        ;
        assert(a.get(x, y) == b.get(x, y));
    }
    assert(a.cells =~= b.cells);
}

/// A filled grid holds the fill cell at every in-bounds position; a fresh
/// grid holds the blank cell everywhere.
pub proof fn lemma_filled_get(b: BufView, c: Cell, x: int, y: int)
    requires
        b.wf(),
    ensures
        b.filled(c).wf(),
        b.filled(c).get(x, y) == if b.in_bounds(x, y) {
            c
        } else {
            blank_cell()
        },
        BufView::blank(b.width, b.height).get(x, y) == blank_cell(),
{
    if b.in_bounds(x, y) {
        lemma_index_bounds(x, y, b.width as int, b.height as int);
    }
}

/// One write of a cell at a position.
pub struct CellWrite {
    pub x: int,
    pub y: int,
    pub cell: Cell,
}

/// Writes of cells at positions, applied first to last; writes outside the
/// grid are dropped.
pub open spec fn apply_writes(b: BufView, ws: Seq<CellWrite>) -> BufView
    decreases ws.len(),
{
    if ws.len() == 0 {
        b
    } else {
        apply_writes(b, ws.drop_last()).set(ws.last().x, ws.last().y, ws.last().cell)
    }
}

/// The cell of the last write at `(i, j)`, if any.
pub open spec fn last_write(ws: Seq<CellWrite>, i: int, j: int) -> Option<Cell>
    decreases ws.len(),
{
    if ws.len() == 0 {
        None
    } else if ws.last().x == i && ws.last().y == j {
        Some(ws.last().cell)
    } else {
        last_write(ws.drop_last(), i, j)
    }
}

/// Applying writes keeps the shape, and leaves at each in-bounds position
/// the cell of the last write there, or the old cell if none.
pub proof fn lemma_apply_writes(b: BufView, ws: Seq<CellWrite>, i: int, j: int)
    requires
        b.wf(),
    ensures
        apply_writes(b, ws).wf(),
        apply_writes(b, ws).width == b.width,
        apply_writes(b, ws).height == b.height,
        apply_writes(b, ws).get(i, j) == match last_write(ws, i, j) {
            Some(c) => if b.in_bounds(i, j) {
                c
            } else {
                b.get(i, j)
            },
            None => b.get(i, j),
        },
    decreases ws.len(),
{
    if ws.len() > 0 {
        lemma_apply_writes(b, ws.drop_last(), i, j);
        lemma_get_set(apply_writes(b, ws.drop_last()), ws.last().x, ws.last().y, ws.last().cell, i, j);
    }
}

/// Applying `a` then `c` is applying `a + c`.
pub proof fn lemma_apply_writes_append(b: BufView, a: Seq<CellWrite>, c: Seq<CellWrite>)
    ensures
        apply_writes(b, a + c) == apply_writes(apply_writes(b, a), c),
    decreases c.len(),
{
    if c.len() > 0 {
        assert((a + c).drop_last() =~= a + c.drop_last());
        lemma_apply_writes_append(b, a, c.drop_last());
    }
}

/// Applying the same writes twice is applying them once.
pub proof fn lemma_apply_writes_idempotent(b: BufView, ws: Seq<CellWrite>)
    requires
        b.wf(),
    ensures
        apply_writes(apply_writes(b, ws), ws) == apply_writes(b, ws),
{
    let once = apply_writes(b, ws);
    lemma_apply_writes(b, ws, 0, 0);
    lemma_apply_writes(once, ws, 0, 0);
    assert forall|i: int, j: int| once.in_bounds(i, j) implies #[trigger] apply_writes(
        once,
        ws,
    ).get(i, j) == once.get(i, j) by {
        lemma_apply_writes(b, ws, i, j);
        lemma_apply_writes(once, ws, i, j);
    }
    lemma_view_ext(apply_writes(once, ws), once);
}

/// The write of character `c` in colour `fg` at `(x, y)`.
pub open spec fn char_write(x: int, y: int, c: char, fg: u8) -> CellWrite {
    CellWrite { x, y, cell: Cell { ch: c, fg, bg: 0 } }
}

/// The writes of `write_chars`.
pub open spec fn char_writes(x: int, y: int, s: Seq<char>, fg: u8) -> Seq<CellWrite>
    decreases s.len(),
{
    if s.len() == 0 {
        seq![]
    } else {
        char_writes(x, y, s.drop_last(), fg).push(char_write(x + s.len() - 1, y, s.last(), fg))
    }
}

pub proof fn lemma_write_chars_as_writes(b: BufView, x: int, y: int, s: Seq<char>, fg: u8)
    ensures
        write_chars(b, x, y, s, fg) == apply_writes(b, char_writes(x, y, s, fg)),
    decreases s.len(),
{
    if s.len() > 0 {
        lemma_write_chars_as_writes(b, x, y, s.drop_last(), fg);
        let ws = char_writes(x, y, s.drop_last(), fg);
        let w = char_write(x + s.len() - 1, y, s.last(), fg);
        assert(ws.push(w).drop_last() =~= ws);
    }
}

/// Writing the characters of `s` left to right from `(x, y)` in colour `fg`:
/// character `i` goes to `(x + i, y)`; writes past the grid are dropped.
pub open spec fn write_chars(b: BufView, x: int, y: int, s: Seq<char>, fg: u8) -> BufView
    decreases s.len(),
{
    if s.len() == 0 {
        b
    } else {
        write_chars(b, x, y, s.drop_last(), fg).set(
            x + s.len() - 1,
            y,
            Cell { ch: s.last(), fg, bg: 0 },
        )
    }
}

/// What `write_chars` leaves at each position: the written characters on
/// row `y` from column `x` on, everything else untouched.
pub proof fn lemma_write_chars(b: BufView, x: int, y: int, s: Seq<char>, fg: u8, i: int, j: int)
    requires
        b.wf(),
    ensures
        write_chars(b, x, y, s, fg).wf(),
        write_chars(b, x, y, s, fg).width == b.width,
        write_chars(b, x, y, s, fg).height == b.height,
        write_chars(b, x, y, s, fg).get(i, j) == if j == y && x <= i < x + s.len() && b.in_bounds(
            i,
            j,
        ) {
            Cell { ch: s[i - x], fg, bg: 0 }
        } else {
            b.get(i, j)
        },
    decreases s.len(),
{
    if s.len() > 0 {
        let p = s.drop_last();
        lemma_write_chars(b, x, y, p, fg, i, j);
        lemma_get_set(
            write_chars(b, x, y, p, fg),
            x + s.len() - 1,
            y,
            Cell { ch: s.last(), fg, bg: 0 },
            i,
            j,
        );
    }
}


/// One draw command emitted by the renderer: put `cell` at `(x, y)`.
#[derive(Debug, Clone, Copy, PartialEq, Eq, Structural)]
pub struct DrawOp {
    pub x: usize,
    pub y: usize,
    pub cell: Cell,
}

/// The ops for columns `0 .. k` of row `y` where `prev` and `next` differ,
/// left to right, each carrying the cell of `next`.
pub open spec fn diff_row(prev: BufView, next: BufView, y: nat, k: nat) -> Seq<DrawOp>
    decreases k,
{
    if k == 0 {
        seq![]
    } else {
        let x = (k - 1) as nat;
        let rest = diff_row(prev, next, y, x);
        if prev.get(x as int, y as int) != next.get(x as int, y as int) {
            rest.push(DrawOp { x: x as usize, y: y as usize, cell: next.get(x as int, y as int) })
        } else {
            rest
        }
    }
}

/// The changed-cell ops of rows `0 .. k`, top to bottom.
pub open spec fn diff_rows(prev: BufView, next: BufView, k: nat) -> Seq<DrawOp>
    decreases k,
{
    if k == 0 {
        seq![]
    } else {
        diff_rows(prev, next, (k - 1) as nat) + diff_row(prev, next, (k - 1) as nat, next.width)
    }
}

/// Every position where `prev` and `next` differ, in row-major order.
pub open spec fn diff_ops(prev: BufView, next: BufView) -> Seq<DrawOp> {
    diff_rows(prev, next, next.height)
}

/// Ops for columns `0 .. k` of row `y`, one per cell.
pub open spec fn full_row(next: BufView, y: nat, k: nat) -> Seq<DrawOp>
    decreases k,
{
    if k == 0 {
        seq![]
    } else {
        let x = (k - 1) as nat;
        full_row(next, y, x).push(DrawOp { x: x as usize, y: y as usize, cell: next.get(x as int, y as int) })
    }
}

/// Ops for every cell of rows `0 .. k`.
pub open spec fn full_rows(next: BufView, k: nat) -> Seq<DrawOp>
    decreases k,
{
    if k == 0 {
        seq![]
    } else {
        full_rows(next, (k - 1) as nat) + full_row(next, (k - 1) as nat, next.width)
    }
}

/// One op per cell, in row-major order.
pub open spec fn full_ops(next: BufView) -> Seq<DrawOp> {
    full_rows(next, next.height)
}

/// Replaying draw ops onto a grid, first to last.
pub open spec fn apply_ops(b: BufView, ops: Seq<DrawOp>) -> BufView
    decreases ops.len(),
{
    if ops.len() == 0 {
        b
    } else {
        let last = ops.last();
        apply_ops(b, ops.drop_last()).set(last.x as int, last.y as int, last.cell)
    }
}

/// Replaying never changes the grid's shape.
pub proof fn lemma_apply_ops_shape(b: BufView, ops: Seq<DrawOp>)
    requires
        b.wf(),
    ensures
        apply_ops(b, ops).wf(),
        apply_ops(b, ops).width == b.width,
        apply_ops(b, ops).height == b.height,
    decreases ops.len(),
{
    if ops.len() > 0 {
        let last = ops.last();
        lemma_apply_ops_shape(b, ops.drop_last());
        lemma_get_set(apply_ops(b, ops.drop_last()), last.x as int, last.y as int, last.cell, 0, 0);
    }
}

/// Replaying `a` then `c` is replaying `a + c`.
pub proof fn lemma_apply_ops_append(b: BufView, a: Seq<DrawOp>, c: Seq<DrawOp>)
    ensures
        apply_ops(b, a + c) == apply_ops(apply_ops(b, a), c),
    decreases c.len(),
{
    if c.len() > 0 {
        assert((a + c).drop_last() =~= a + c.drop_last());
        lemma_apply_ops_append(b, a, c.drop_last());
    }
}

proof fn lemma_apply_diff_row(
    b: BufView,
    prev: BufView,
    next: BufView,
    y: nat,
    k: nat,
    i: int,
    j: int,
)
    requires
        b.wf(),
        next.wf(),
        y < next.height,
        k <= next.width,
    ensures
        apply_ops(b, diff_row(prev, next, y, k)).get(i, j) == if j == y && 0 <= i < k
            && b.in_bounds(i, j) && prev.get(i, j) != next.get(i, j) {
            next.get(i, j)
        } else {
            b.get(i, j)
        },
    decreases k,
{
    if k > 0 {
        let x = (k - 1) as nat;
        let rest = diff_row(prev, next, y, x);
        lemma_apply_diff_row(b, prev, next, y, x, i, j);
        lemma_apply_ops_shape(b, rest);
        if prev.get(x as int, y as int) != next.get(x as int, y as int) {
            let op = DrawOp { x: x as usize, y: y as usize, cell: next.get(x as int, y as int) };
            assert(rest.push(op).drop_last() =~= rest);
            lemma_get_set(apply_ops(b, rest), x as int, y as int, op.cell, i, j);
        }
    }
}

proof fn lemma_apply_diff_rows(prev: BufView, next: BufView, k: nat, i: int, j: int)
    requires
        k <= next.height,
        prev.wf(),
        next.wf(),
        prev.width == next.width,
        prev.height == next.height,
    ensures
        apply_ops(prev, diff_rows(prev, next, k)).get(i, j) == if 0 <= j < k && prev.in_bounds(
            i,
            j,
        ) {
            next.get(i, j)
        } else {
            prev.get(i, j)
        },
    decreases k,
{
    if k > 0 {
        let head = diff_rows(prev, next, (k - 1) as nat);
        let row = diff_row(prev, next, (k - 1) as nat, next.width);
        lemma_apply_ops_append(prev, head, row);
        lemma_apply_ops_shape(prev, head);
        lemma_apply_diff_rows(prev, next, (k - 1) as nat, i, j);
        lemma_apply_diff_row(apply_ops(prev, head), prev, next, (k - 1) as nat, next.width, i, j);
    }
}

/// Diff correctness: replaying `diff(prev, next)` onto `prev` yields `next`,
/// cell for cell, and keeps the grid's shape.
pub proof fn lemma_diff_reproduces_next(prev: BufView, next: BufView, i: int, j: int)
    requires
        prev.wf(),
        next.wf(),
        prev.width == next.width,
        prev.height == next.height,
    ensures
        apply_ops(prev, diff_ops(prev, next)).wf(),
        apply_ops(prev, diff_ops(prev, next)).width == next.width,
        apply_ops(prev, diff_ops(prev, next)).height == next.height,
        apply_ops(prev, diff_ops(prev, next)).get(i, j) == next.get(i, j),
{
    lemma_apply_ops_shape(prev, diff_ops(prev, next));
    lemma_apply_diff_rows(prev, next, next.height, i, j);
}

proof fn lemma_diff_row_facts(prev: BufView, next: BufView, y: nat, k: nat, n: int)
    requires
        next.wf(),
        y < next.height,
        k <= next.width,
        0 <= n < diff_row(prev, next, y, k).len(),
    ensures
        diff_row(prev, next, y, k).len() <= k,
        diff_row(prev, next, y, k)[n].x < k,
        diff_row(prev, next, y, k)[n].y == y,
        prev.get(diff_row(prev, next, y, k)[n].x as int, y as int) != next.get(
            diff_row(prev, next, y, k)[n].x as int,
            y as int,
        ),
        diff_row(prev, next, y, k)[n].cell == next.get(
            diff_row(prev, next, y, k)[n].x as int,
            y as int,
        ),
    decreases k,
{
    let x = (k - 1) as nat;
    let rest = diff_row(prev, next, y, x);
    lemma_diff_row_len(prev, next, y, x);
    if n < rest.len() {
        lemma_diff_row_facts(prev, next, y, x, n);
    }
}

proof fn lemma_diff_row_len(prev: BufView, next: BufView, y: nat, k: nat)
    ensures
        diff_row(prev, next, y, k).len() <= k,
    decreases k,
{
    if k > 0 {
        lemma_diff_row_len(prev, next, y, (k - 1) as nat);
    }
}

proof fn lemma_diff_rows_len(prev: BufView, next: BufView, k: nat)
    ensures
        diff_rows(prev, next, k).len() <= k * next.width,
    decreases k,
{
    if k > 0 {
        lemma_diff_rows_len(prev, next, (k - 1) as nat);
        lemma_diff_row_len(prev, next, (k - 1) as nat, next.width);
        assert((k - 1) * next.width + next.width == k * next.width) by (nonlinear_arith);
    }
}

proof fn lemma_diff_rows_facts(prev: BufView, next: BufView, k: nat, n: int)
    requires
        next.wf(),
        k <= next.height,
        0 <= n < diff_rows(prev, next, k).len(),
    ensures
        diff_rows(prev, next, k)[n].x < next.width,
        diff_rows(prev, next, k)[n].y < k,
        prev.get(diff_rows(prev, next, k)[n].x as int, diff_rows(prev, next, k)[n].y as int)
            != next.get(diff_rows(prev, next, k)[n].x as int, diff_rows(prev, next, k)[n].y as int),
        diff_rows(prev, next, k)[n].cell == next.get(
            diff_rows(prev, next, k)[n].x as int,
            diff_rows(prev, next, k)[n].y as int,
        ),
    decreases k,
{
    let head = diff_rows(prev, next, (k - 1) as nat);
    if n < head.len() {
        lemma_diff_rows_facts(prev, next, (k - 1) as nat, n);
    } else {
        lemma_diff_row_facts(prev, next, (k - 1) as nat, next.width, n - head.len());
    }
}

/// The diff never emits more ops than the buffer holds, and each op names an
/// in-bounds position where the two frames differ, carrying the new cell.
pub proof fn lemma_diff_ops_sound(prev: BufView, next: BufView, n: int)
    requires
        next.wf(),
    ensures
        diff_ops(prev, next).len() <= next.cells.len(),
        0 <= n < diff_ops(prev, next).len() ==> {
            let op = diff_ops(prev, next)[n];
            &&& next.in_bounds(op.x as int, op.y as int)
            &&& prev.get(op.x as int, op.y as int) != next.get(op.x as int, op.y as int)
            &&& op.cell == next.get(op.x as int, op.y as int)
        },
{
    lemma_diff_rows_len(prev, next, next.height);
    assert(next.height * next.width == next.width * next.height) by (nonlinear_arith);
    if 0 <= n < diff_ops(prev, next).len() {
        lemma_diff_rows_facts(prev, next, next.height, n);
    }
}

proof fn lemma_diff_row_ordered(prev: BufView, next: BufView, y: nat, k: nat, a: int, b: int)
    requires
        next.wf(),
        y < next.height,
        k <= next.width,
        0 <= a < b < diff_row(prev, next, y, k).len(),
    ensures
        diff_row(prev, next, y, k)[a].x < diff_row(prev, next, y, k)[b].x,
    decreases k,
{
    let x = (k - 1) as nat;
    let rest = diff_row(prev, next, y, x);
    lemma_diff_row_len(prev, next, y, x);
    if b < rest.len() {
        lemma_diff_row_ordered(prev, next, y, x, a, b);
    } else {
        lemma_diff_row_facts(prev, next, y, x, a);
    }
}

proof fn lemma_diff_rows_ordered(prev: BufView, next: BufView, k: nat, a: int, b: int)
    requires
        next.wf(),
        k <= next.height,
        0 <= a < b < diff_rows(prev, next, k).len(),
    ensures
        diff_rows(prev, next, k)[a].y < diff_rows(prev, next, k)[b].y || (diff_rows(prev, next, k)[a].y
            == diff_rows(prev, next, k)[b].y && diff_rows(prev, next, k)[a].x < diff_rows(
            prev,
            next,
            k,
        )[b].x),
    decreases k,
{
    let head = diff_rows(prev, next, (k - 1) as nat);
    let row = diff_row(prev, next, (k - 1) as nat, next.width);
    if b < head.len() {
        lemma_diff_rows_ordered(prev, next, (k - 1) as nat, a, b);
    } else if a < head.len() {
        lemma_diff_rows_facts(prev, next, (k - 1) as nat, a);
        lemma_diff_row_facts(prev, next, (k - 1) as nat, next.width, b - head.len());
    } else {
        lemma_diff_row_facts(prev, next, (k - 1) as nat, next.width, a - head.len());
        lemma_diff_row_facts(prev, next, (k - 1) as nat, next.width, b - head.len());
        lemma_diff_row_ordered(prev, next, (k - 1) as nat, next.width, a - head.len(), b - head.len());
    }
}

/// The diff is minimal: its ops come in strictly increasing row-major order,
/// so no position is named twice (and each names a changed cell, by
/// `lemma_diff_ops_sound`).
pub proof fn lemma_diff_ops_ordered(prev: BufView, next: BufView, a: int, b: int)
    requires
        next.wf(),
        0 <= a < b < diff_ops(prev, next).len(),
    ensures
        diff_ops(prev, next)[a].y < diff_ops(prev, next)[b].y || (diff_ops(prev, next)[a].y
            == diff_ops(prev, next)[b].y && diff_ops(prev, next)[a].x < diff_ops(prev, next)[b].x),
{
    lemma_diff_rows_ordered(prev, next, next.height, a, b);
}

/// Whether replaying `op` onto `prev` changes its cell.
pub open spec fn changes(prev: BufView) -> spec_fn(DrawOp) -> bool {
    |op: DrawOp| prev.get(op.x as int, op.y as int) != op.cell
}

proof fn lemma_diff_row_is_filtered(prev: BufView, next: BufView, y: nat, k: nat)
    requires
        next.wf(),
        y < next.height,
        k <= next.width,
    ensures
        diff_row(prev, next, y, k) == full_row(next, y, k).filter(changes(prev)),
    decreases k,
{
    reveal(Seq::filter);
    if k > 0 {
        let x = (k - 1) as nat;
        let op = DrawOp { x: x as usize, y: y as usize, cell: next.get(x as int, y as int) };
        lemma_diff_row_is_filtered(prev, next, y, x);
        assert(full_row(next, y, k).drop_last() =~= full_row(next, y, x));
        assert(full_row(next, y, k).last() == op);
    }
}

proof fn lemma_diff_rows_is_filtered(prev: BufView, next: BufView, k: nat)
    requires
        next.wf(),
        k <= next.height,
    ensures
        diff_rows(prev, next, k) == full_rows(next, k).filter(changes(prev)),
    decreases k,
{
    if k > 0 {
        lemma_diff_rows_is_filtered(prev, next, (k - 1) as nat);
        lemma_diff_row_is_filtered(prev, next, (k - 1) as nat, next.width);
        Seq::filter_distributes_over_add(
            full_rows(next, (k - 1) as nat),
            full_row(next, (k - 1) as nat, next.width),
            changes(prev),
        );
    }
    if k == 0 {
        reveal(Seq::filter);
    }
}

/// The diff is the full repaint with the ops that change nothing left out:
/// the ops of `full(next)`, in order, whose cell differs from `prev`'s.
pub proof fn lemma_diff_is_filtered_full(prev: BufView, next: BufView)
    requires
        next.wf(),
    ensures
        diff_ops(prev, next) == full_ops(next).filter(changes(prev)),
{
    lemma_diff_rows_is_filtered(prev, next, next.height);
}

/// Equal frames have an empty diff.
pub proof fn lemma_diff_of_equal_is_empty(b: BufView)
    ensures
        diff_ops(b, b).len() == 0,
{
    assert forall|k: nat| diff_rows(b, b, k).len() == 0 by {
        lemma_diff_rows_empty(b, k);
    }
}

proof fn lemma_diff_rows_empty(b: BufView, k: nat)
    ensures
        diff_rows(b, b, k).len() == 0,
    decreases k,
{
    if k > 0 {
        lemma_diff_rows_empty(b, (k - 1) as nat);
        lemma_diff_row_empty(b, (k - 1) as nat, b.width);
    }
}

proof fn lemma_diff_row_empty(b: BufView, y: nat, k: nat)
    ensures
        diff_row(b, b, y, k).len() == 0,
    decreases k,
{
    if k > 0 {
        lemma_diff_row_empty(b, y, (k - 1) as nat);
    }
}

proof fn lemma_full_row(b: BufView, next: BufView, y: nat, k: nat, i: int, j: int)
    requires
        b.wf(),
        next.wf(),
        y < next.height,
        k <= next.width,
    ensures
        full_row(next, y, k).len() == k,
        apply_ops(b, full_row(next, y, k)).get(i, j) == if j == y && 0 <= i < k && b.in_bounds(
            i,
            j,
        ) {
            next.get(i, j)
        } else {
            b.get(i, j)
        },
    decreases k,
{
    if k > 0 {
        let x = (k - 1) as nat;
        let rest = full_row(next, y, x);
        let op = DrawOp { x: x as usize, y: y as usize, cell: next.get(x as int, y as int) };
        lemma_full_row(b, next, y, x, i, j);
        lemma_apply_ops_shape(b, rest);
        assert(rest.push(op).drop_last() =~= rest);
        lemma_get_set(apply_ops(b, rest), x as int, y as int, op.cell, i, j);
    }
}

proof fn lemma_full_rows(b: BufView, next: BufView, k: nat, i: int, j: int)
    requires
        b.wf(),
        next.wf(),
        k <= next.height,
        b.width == next.width,
        b.height == next.height,
    ensures
        full_rows(next, k).len() == k * next.width,
        apply_ops(b, full_rows(next, k)).get(i, j) == if 0 <= j < k && b.in_bounds(i, j) {
            next.get(i, j)
        } else {
            b.get(i, j)
        },
    decreases k,
{
    if k > 0 {
        let head = full_rows(next, (k - 1) as nat);
        let row = full_row(next, (k - 1) as nat, next.width);
        lemma_apply_ops_append(b, head, row);
        lemma_apply_ops_shape(b, head);
        lemma_full_rows(b, next, (k - 1) as nat, i, j);
        lemma_full_row(apply_ops(b, head), next, (k - 1) as nat, next.width, i, j);
        assert((k - 1) * next.width + next.width == k * next.width) by (nonlinear_arith);
    }
}

/// A full repaint emits exactly one op per cell, and replaying it onto any
/// grid of the same shape yields `next`, cell for cell.
pub proof fn lemma_full_repaints(b: BufView, next: BufView, i: int, j: int)
    requires
        b.wf(),
        next.wf(),
        b.width == next.width,
        b.height == next.height,
    ensures
        full_ops(next).len() == next.cells.len(),
        apply_ops(b, full_ops(next)).get(i, j) == next.get(i, j),
{
    lemma_full_rows(b, next, next.height, i, j);
    assert(next.height * next.width == next.width * next.height) by (nonlinear_arith);
}

/// Fixed-size 2D cell grid backing a terminal frame.
#[derive(Debug, Clone, PartialEq, Eq)]
pub struct CellBuffer {
    width: usize,
    height: usize,
    cells: Vec<Cell>,
}

impl View for CellBuffer {
    type V = BufView;

    closed spec fn view(&self) -> BufView {
        BufView { width: self.width as nat, height: self.height as nat, cells: self.cells@ }
    }
}

impl CellBuffer {
    /// Allocate a `width × height` buffer of blank cells. Both dimensions
    /// must be positive.
    pub fn new(width: usize, height: usize) -> (b: Self)
        requires
            width > 0,
            height > 0,
            width * height <= usize::MAX,
        ensures
            b@.wf(),
            b@ == BufView::blank(width as nat, height as nat),
    {
        let n: usize = width * height;
        let mut cells: Vec<Cell> = Vec::with_capacity(n);
        let mut i: usize = 0;
        while i < n
            invariant
                i <= n,
                cells@.len() == i,
                forall|k: int| 0 <= k < i ==> cells@[k] == blank_cell(),
            decreases n - i,
        {
            cells.push(Cell::default());
            i = i + 1;
        }
        let b = CellBuffer { width, height, cells };
        assert(b@.cells =~= BufView::blank(width as nat, height as nat).cells);
        b
    }

    pub fn width(&self) -> (w: usize)
        ensures
            w == self@.width,
    {
        self.width
    }

    pub fn height(&self) -> (h: usize)
        ensures
            h == self@.height,
    {
        self.height
    }

    /// Number of cells, `width * height`.
    pub fn len(&self) -> (n: usize)
        ensures
            n == self@.cells.len(),
    {
        self.cells.len()
    }

    pub fn is_empty(&self) -> (e: bool)
        ensures
            e == (self@.cells.len() == 0),
    {
        self.cells.len() == 0
    }

    /// The cell at `(x, y)`; out-of-bounds reads give the blank cell.
    pub fn get(&self, x: usize, y: usize) -> (c: Cell)
        requires
            self@.wf(),
        ensures
            c == self@.get(x as int, y as int),
    {
        if x < self.width && y < self.height {
            proof {
                lemma_index_bounds(x as int, y as int, self.width as int, self.height as int);
            }
            self.cells[y * self.width + x]
        } else {
            Cell::default()
        }
    }

    /// The cell at `(x, y)`, or `None` outside the grid.
    pub fn cell_at(&self, x: usize, y: usize) -> (c: Option<&Cell>)
        requires
            self@.wf(),
        ensures
            match c {
                Some(r) => self@.cell_opt(x as int, y as int) == Some(*r),
                None => self@.cell_opt(x as int, y as int) is None,
            },
    {
        if x < self.width && y < self.height {
            proof {
                lemma_index_bounds(x as int, y as int, self.width as int, self.height as int);
            }
            Some(&self.cells[y * self.width + x])
        } else {
            None
        }
    }

    /// Write `cell` at `(x, y)`; out-of-bounds writes are ignored.
    pub fn set(&mut self, x: usize, y: usize, cell: Cell)
        requires
            old(self)@.wf(),
        ensures
            final(self)@ == old(self)@.set(x as int, y as int, cell),
            final(self)@.wf(),
    {
        if x < self.width && y < self.height {
            proof {
                lemma_index_bounds(x as int, y as int, self.width as int, self.height as int);
            }
            self.cells.set(y * self.width + x, cell);
        }
        proof {
            lemma_get_set(old(self)@, x as int, y as int, cell, 0, 0);
        }
    }

    /// Fill every cell with `fill`.
    pub fn clear(&mut self, fill: Cell)
        requires
            old(self)@.wf(),
        ensures
            final(self)@ == old(self)@.filled(fill),
            final(self)@.wf(),
    {
        let n = self.cells.len();
        let mut i: usize = 0;
        while i < n
            invariant
                i <= n,
                n == self.cells@.len(),
                self.width == old(self).width,
                self.height == old(self).height,
                self.cells@.len() == old(self).cells@.len(),
                forall|k: int| 0 <= k < i ==> self.cells@[k] == fill,
            decreases n - i,
        {
            self.cells.set(i, fill);
            i = i + 1;
        }
        assert(self@.cells =~= old(self)@.filled(fill).cells);
    }

    /// Write the characters of `s` from `(x, y)` rightwards; characters that
    /// fall outside the grid are dropped.
    pub fn write_str(&mut self, x: usize, y: usize, s: &str, fg: u8)
        requires
            old(self)@.wf(),
            x + s@.len() <= usize::MAX + 1,
        ensures
            final(self)@ == write_chars(old(self)@, x as int, y as int, s@, fg),
            final(self)@.wf(),
    {
        let chars = crate::text::chars_of(s);
        let mut i: usize = 0;
        while i < chars.len()
            invariant
                i <= chars@.len(),
                chars@ == s@,
                x + s@.len() <= usize::MAX + 1,
                self@.wf(),
                self@ == write_chars(old(self)@, x as int, y as int, chars@.take(i as int), fg),
            decreases chars@.len() - i,
        {
            proof {
                assert(chars@.take(i + 1).drop_last() =~= chars@.take(i as int));
            }
            self.set(x + i, y, Cell::new(chars[i], fg));
            i = i + 1;
        }
        assert(chars@.take(chars@.len() as int) =~= chars@);
    }
}

} // verus!

verus! {

/// The draw ops that turn `prev` into `next`: one per changed cell, in
/// row-major order. Both buffers must have the same dimensions.
pub fn diff(prev: &CellBuffer, next: &CellBuffer) -> (ops: Vec<DrawOp>)
    requires
        prev@.wf(),
        next@.wf(),
        prev@.width == next@.width,
        prev@.height == next@.height,
    ensures
        ops@ == diff_ops(prev@, next@),
{
    let mut ops: Vec<DrawOp> = Vec::with_capacity(8);
    let h = next.height();
    let w = next.width();
    let mut y: usize = 0;
    while y < h
        invariant
            prev@.wf(),
            next@.wf(),
            h == next@.height,
            w == next@.width,
            y <= h,
            ops@ == diff_rows(prev@, next@, y as nat),
        decreases h - y,
    {
        let mut x: usize = 0;
        while x < w
            invariant
                prev@.wf(),
                next@.wf(),
                h == next@.height,
                w == next@.width,
                y < h,
                x <= w,
                ops@ == diff_rows(prev@, next@, y as nat) + diff_row(prev@, next@, y as nat, x as nat),
            decreases w - x,
        {
            let p = prev.get(x, y);
            let n = next.get(x, y);
            if p != n {
                ops.push(DrawOp { x, y, cell: n });
            }
            x = x + 1;
        }
        y = y + 1;
    }
    ops
}

/// One draw op per cell, in row-major order: the initial frame or a full repaint.
pub fn full(next: &CellBuffer) -> (ops: Vec<DrawOp>)
    requires
        next@.wf(),
    ensures
        ops@ == full_ops(next@),
{
    let mut ops: Vec<DrawOp> = Vec::with_capacity(next.len());
    let h = next.height();
    let w = next.width();
    let mut y: usize = 0;
    while y < h
        invariant
            next@.wf(),
            h == next@.height,
            w == next@.width,
            y <= h,
            ops@ == full_rows(next@, y as nat),
        decreases h - y,
    {
        let mut x: usize = 0;
        while x < w
            invariant
                next@.wf(),
                h == next@.height,
                w == next@.width,
                y < h,
                x <= w,
                ops@ == full_rows(next@, y as nat) + full_row(next@, y as nat, x as nat),
            decreases w - x,
        {
            ops.push(DrawOp { x, y, cell: next.get(x, y) });
            x = x + 1;
        }
        y = y + 1;
    }
    ops
}

/// The escape sequence for one op: move the cursor to the 1-based
/// `(y + 1, x + 1)`, select the 256-colour foreground and background, then
/// print the character.
pub open spec fn ansi_op(op: DrawOp) -> Seq<char> {
    cursor_seq(op.y as nat + 1, op.x as nat + 1) + colour_seq('3', op.cell.fg) + colour_seq(
        '4',
        op.cell.bg,
    ) + seq![op.cell.ch]
}

/// `ESC [ row ; col H`.
pub open spec fn cursor_seq(row: nat, col: nat) -> Seq<char> {
    seq!['\x1b', '['] + decimal(row) + seq![';'] + decimal(col) + seq!['H']
}

/// `ESC [ 38 ; 5 ; n m` (foreground, `layer == '3'`) or `ESC [ 48 ; 5 ; n m`
/// (background, `layer == '4'`).
pub open spec fn colour_seq(layer: char, n: u8) -> Seq<char> {
    seq!['\x1b', '[', layer, '8', ';', '5', ';'] + decimal(n as nat) + seq!['m']
}

fn push_cursor(out: &mut Vec<char>, row: u64, col: u64)
    ensures
        final(out)@ == old(out)@ + cursor_seq(row as nat, col as nat),
{
    out.push('\x1b');
    out.push('[');
    push_decimal(out, row);
    out.push(';');
    push_decimal(out, col);
    out.push('H');
    assert(out@ =~= old(out)@ + cursor_seq(row as nat, col as nat));
}

fn push_colour(out: &mut Vec<char>, layer: char, n: u8)
    ensures
        final(out)@ == old(out)@ + colour_seq(layer, n),
{
    out.push('\x1b');
    out.push('[');
    out.push(layer);
    out.push('8');
    out.push(';');
    out.push('5');
    out.push(';');
    push_decimal(out, n as u64);
    out.push('m');
    assert(out@ =~= old(out)@ + colour_seq(layer, n));
}

fn push_ansi_op(out: &mut Vec<char>, op: DrawOp)
    requires
        op.x < usize::MAX,
        op.y < usize::MAX,
    ensures
        final(out)@ == old(out)@ + ansi_op(op),
{
    push_cursor(out, (op.y + 1) as u64, (op.x + 1) as u64);
    push_colour(out, '3', op.cell.fg);
    push_colour(out, '4', op.cell.bg);
    out.push(op.cell.ch);
    assert(out@ =~= old(out)@ + ansi_op(op));
}

/// The escape sequences of the first `k` ops, concatenated.
pub open spec fn ansi_ops(ops: Seq<DrawOp>, k: nat) -> Seq<char>
    decreases k,
{
    if k == 0 {
        seq![]
    } else {
        ansi_ops(ops, (k - 1) as nat) + ansi_op(ops[k - 1])
    }
}

/// The whole ANSI stream: every op's sequence followed by an attribute reset.
pub open spec fn ansi_stream(ops: Seq<DrawOp>) -> Seq<char> {
    ansi_ops(ops, ops.len()) + seq!['\x1b', '[', '0', 'm']
}

proof fn lemma_ansi_ops_prefix(a: Seq<DrawOp>, b: Seq<DrawOp>, k: nat)
    requires
        k <= a.len(),
        k <= b.len(),
        forall|i: int| 0 <= i < k ==> a[i] == b[i],
    ensures
        ansi_ops(a, k) == ansi_ops(b, k),
    decreases k,
{
    if k > 0 {
        lemma_ansi_ops_prefix(a, b, (k - 1) as nat);
    }
}

/// How the ANSI stream grows op by op: with no ops it is just the attribute
/// reset `ESC [ 0 m`; each further op adds, before that reset and whatever
/// op came before it, its own cursor move `ESC [ y+1 ; x+1 H`, its
/// foreground `ESC [ 38 ; 5 ; fg m`, its background `ESC [ 48 ; 5 ; bg m`
/// and its character. So every op's character is printed at its own cell.
pub proof fn lemma_ansi_stream_appends_op(ops: Seq<DrawOp>, op: DrawOp)
    ensures
        ansi_stream(Seq::<DrawOp>::empty()) == seq!['\x1b', '[', '0', 'm'],
        ansi_stream(ops).len() >= 4,
        ansi_stream(ops.push(op)) == ansi_stream(ops).take(ansi_stream(ops).len() - 4) + seq![
            '\x1b',
            '[',
        ] + decimal((op.y + 1) as nat) + seq![';'] + decimal((op.x + 1) as nat) + seq![
            'H',
            '\x1b',
            '[',
            '3',
            '8',
            ';',
            '5',
            ';',
        ] + decimal(op.cell.fg as nat) + seq!['m', '\x1b', '[', '4', '8', ';', '5', ';']
            + decimal(op.cell.bg as nat) + seq!['m', op.cell.ch, '\x1b', '[', '0', 'm'],
{
    let n = ops.len();
    let longer = ops.push(op);
    let reset = seq!['\x1b', '[', '0', 'm'];
    lemma_ansi_ops_prefix(ops, longer, n);
    let head = ansi_ops(ops, n);
    assert(ansi_stream(ops).take(ansi_stream(ops).len() - 4) =~= head);
    assert(ansi_stream(Seq::<DrawOp>::empty()) =~= reset);
    assert(longer[n as int] == op);
    assert(ansi_ops(longer, n + 1) == head + ansi_op(op));
    let cursor = seq!['\x1b', '['] + decimal((op.y + 1) as nat) + seq![';'] + decimal(
        (op.x + 1) as nat,
    ) + seq!['H'];
    let fg = seq!['\x1b', '[', '3', '8', ';', '5', ';'] + decimal(op.cell.fg as nat) + seq!['m'];
    let bg = seq!['\x1b', '[', '4', '8', ';', '5', ';'] + decimal(op.cell.bg as nat) + seq!['m'];
    assert(cursor_seq((op.y + 1) as nat, (op.x + 1) as nat) =~= cursor);
    assert(colour_seq('3', op.cell.fg) =~= fg);
    assert(colour_seq('4', op.cell.bg) =~= bg);
    assert(ansi_op(op) == cursor + fg + bg + seq![op.cell.ch]);
    assert(ansi_stream(longer) == head + (cursor + fg + bg + seq![op.cell.ch]) + reset);
    assert(head + (cursor + fg + bg + seq![op.cell.ch]) + reset =~= head + seq!['\x1b', '[']
        + decimal((op.y + 1) as nat) + seq![';'] + decimal((op.x + 1) as nat) + seq![
        'H',
        '\x1b',
        '[',
        '3',
        '8',
        ';',
        '5',
        ';',
    ] + decimal(op.cell.fg as nat) + seq!['m', '\x1b', '[', '4', '8', ';', '5', ';'] + decimal(
        op.cell.bg as nat,
    ) + seq!['m', op.cell.ch, '\x1b', '[', '0', 'm']);
}

/// Serialize draw ops as ANSI escape sequences for a terminal.
pub fn render_ansi(ops: &[DrawOp]) -> (out: String)
    requires
        forall|i: int| 0 <= i < ops@.len() ==> ops@[i].x < usize::MAX && ops@[i].y < usize::MAX,
    ensures
        out@ == ansi_stream(ops@),
{
    let mut out: Vec<char> = Vec::new();
    let mut i: usize = 0;
    while i < ops.len()
        invariant
            i <= ops@.len(),
            forall|k: int| 0 <= k < ops@.len() ==> ops@[k].x < usize::MAX && ops@[k].y < usize::MAX,
            out@ == ansi_ops(ops@, i as nat),
        decreases ops@.len() - i,
    {
        let op = ops[i];
        push_ansi_op(&mut out, op);
        assert(out@ =~= ansi_ops(ops@, i as nat) + ansi_op(op));
        i = i + 1;
    }
    out.push('\x1b');
    out.push('[');
    out.push('0');
    out.push('m');
    assert(out@ =~= ansi_stream(ops@));
    string_of(&out)
}

/// Whether two optional cells are equal: both absent, or both present with
/// the same character and colours.
pub fn cells_equal(a: Option<&Cell>, b: Option<&Cell>) -> (r: bool)
    ensures
        r == match (a, b) {
            (Some(x), Some(y)) => *x == *y,
            (None, None) => true,
            _ => false,
        },
{
    match (a, b) {
        (Some(x), Some(y)) => x.ch == y.ch && x.fg == y.fg && x.bg == y.bg,
        (None, None) => true,
        _ => false,
    }
}

/// How many of columns `0 .. k` of row `y` hold different cells in `prev`
/// and `next` (a position inside one grid only counts as different).
pub open spec fn changed_in_row(prev: BufView, next: BufView, y: nat, k: nat) -> nat
    decreases k,
{
    if k == 0 {
        0
    } else {
        changed_in_row(prev, next, y, (k - 1) as nat) + if prev.cell_opt(k - 1, y as int)
            != next.cell_opt(k - 1, y as int) {
            1nat
        } else {
            0nat
        }
    }
}

/// How many positions of rows `0 .. k` of `next` changed.
pub open spec fn changed_rows(prev: BufView, next: BufView, k: nat) -> nat
    decreases k,
{
    if k == 0 {
        0
    } else {
        changed_rows(prev, next, (k - 1) as nat) + changed_in_row(
            prev,
            next,
            (k - 1) as nat,
            next.width,
        )
    }
}

/// How many positions of `next`'s grid hold a different cell in `prev`.
pub open spec fn changed_cells(prev: BufView, next: BufView) -> nat {
    changed_rows(prev, next, next.height)
}

proof fn lemma_changed_in_row_bound(prev: BufView, next: BufView, y: nat, k: nat)
    ensures
        changed_in_row(prev, next, y, k) <= k,
    decreases k,
{
    if k > 0 {
        lemma_changed_in_row_bound(prev, next, y, (k - 1) as nat);
    }
}

proof fn lemma_changed_row_is_diff_row(prev: BufView, next: BufView, y: nat, k: nat)
    requires
        prev.wf(),
        next.wf(),
        prev.width == next.width,
        prev.height == next.height,
        y < next.height,
        k <= next.width,
    ensures
        changed_in_row(prev, next, y, k) == diff_row(prev, next, y, k).len(),
    decreases k,
{
    if k > 0 {
        lemma_changed_row_is_diff_row(prev, next, y, (k - 1) as nat);
    }
}

proof fn lemma_changed_rows_is_diff_rows(prev: BufView, next: BufView, k: nat)
    requires
        prev.wf(),
        next.wf(),
        prev.width == next.width,
        prev.height == next.height,
        k <= next.height,
    ensures
        changed_rows(prev, next, k) == diff_rows(prev, next, k).len(),
    decreases k,
{
    if k > 0 {
        lemma_changed_rows_is_diff_rows(prev, next, (k - 1) as nat);
        lemma_changed_row_is_diff_row(prev, next, (k - 1) as nat, next.width);
    }
}

/// For frames of the same shape, the number of changed cells is the number
/// of ops the diff emits, and never more than the buffer holds.
pub proof fn lemma_changed_cells_is_diff_len(prev: BufView, next: BufView)
    requires
        prev.wf(),
        next.wf(),
        prev.width == next.width,
        prev.height == next.height,
    ensures
        changed_cells(prev, next) == diff_ops(prev, next).len(),
        changed_cells(prev, next) <= next.cells.len(),
{
    lemma_changed_rows_is_diff_rows(prev, next, next.height);
    lemma_diff_ops_sound(prev, next, 0);
}

/// Count the positions of `next` whose cell differs in `prev`.
pub fn count_changed_cells(prev: &CellBuffer, next: &CellBuffer) -> (n: usize)
    requires
        prev@.wf(),
        next@.wf(),
    ensures
        n == changed_cells(prev@, next@),
{
    let mut n: usize = 0;
    let h = next.height();
    let w = next.width();
    let mut y: usize = 0;
    while y < h
        invariant
            prev@.wf(),
            next@.wf(),
            h == next@.height,
            w == next@.width,
            y <= h,
            n == changed_rows(prev@, next@, y as nat),
            n <= y * w,
        decreases h - y,
    {
        let row_start = n;
        let mut x: usize = 0;
        while x < w
            invariant
                prev@.wf(),
                next@.wf(),
                h == next@.height,
                w == next@.width,
                y < h,
                x <= w,
                row_start == changed_rows(prev@, next@, y as nat),
                row_start <= y * w,
                n == row_start + changed_in_row(prev@, next@, y as nat, x as nat),
            decreases w - x,
        {
            proof {
                lemma_changed_in_row_bound(prev@, next@, y as nat, x as nat);
                assert(y * w + x < w * h) by (nonlinear_arith)
                    requires
                        x < w,
                        y < h,
                ;
            }
            let a = prev.cell_at(x, y);
            let b = next.cell_at(x, y);
            if !cells_equal(a, b) {
                n = n + 1;
            }
            x = x + 1;
        }
        proof {
            lemma_changed_in_row_bound(prev@, next@, y as nat, w as nat);
            assert(y * w + w == (y + 1) * w) by (nonlinear_arith);
        }
        y = y + 1;
    }
    n
}

/// The title of the diff demo frame.
pub open spec fn frame_title() -> Seq<char> {
    "M1 · presentar CellBuffer + DiffRenderer"@
}

/// The hint on the diff demo frame's last row.
pub open spec fn frame_hint() -> Seq<char> {
    "press Ctrl-C to quit (interactive)"@
}

/// The diff demo frame at `tick`: the title on row 0, a dot on row 2 that
/// moves one column per tick (wrapping within columns `2 .. width - 2`), and
/// the hint on the last row.
pub open spec fn demo_frame(width: nat, height: nat, tick: nat) -> BufView {
    let titled = write_chars(BufView::blank(width, height), 2, 0, frame_title(), 4);
    let dotted = titled.set(2 + (tick % (width - 4) as nat) as int, 2, Cell { ch: '●', fg: 2, bg: 0 });
    write_chars(dotted, 2, height - 1, frame_hint(), 8)
}

/// Build the diff demo frame for `tick`.
pub fn build_frame(width: usize, height: usize, tick: u64) -> (buf: CellBuffer)
    requires
        width > 4,
        height > 0,
        width * height <= usize::MAX,
    ensures
        buf@.wf(),
        buf@ == demo_frame(width as nat, height as nat, tick as nat),
{
    let mut buf = CellBuffer::new(width, height);
    proof {
        reveal_strlit("M1 · presentar CellBuffer + DiffRenderer");
        reveal_strlit("press Ctrl-C to quit (interactive)");
    }
    buf.write_str(2, 0, "M1 · presentar CellBuffer + DiffRenderer", 4);
    let x = 2 + (tick % ((width - 4) as u64)) as usize;
    buf.set(x, 2, Cell::new('●', 2));
    buf.write_str(2, height - 1, "press Ctrl-C to quit (interactive)", 8);
    buf
}

/// Marker line the rendering demos print when they finish.
pub fn contract_marker() -> (s: &'static str)
    ensures
        s@ == "contract: tui-rendering-v1 holds — OK"@,
{
    "contract: tui-rendering-v1 holds — OK"
}

} // verus!
