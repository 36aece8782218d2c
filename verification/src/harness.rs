//! Testing a TUI without a terminal: a buffer's text snapshot (every cell's
//! character, row by row, each row ended by a newline) and a cell-by-cell
//! comparison against a golden snapshot.

use vstd::prelude::*;
use crate::cellbuffer::{BufView, CellBuffer, write_chars};
use crate::text::{
    char_rows, chars_of, lemma_lines_concat, lemma_lines_single, lines, split_lines, string_of,
};
use crate::widgets::{
    Container, Direction, Label, Rect, Widget, WidgetNode, bordered, child_origin_fits, child_rect,
    children_fit, node_fits, paint_border, paint_children, shown,
};

verus! {

/// The characters of columns `0 .. k` of row `y`.
pub open spec fn row_text(b: BufView, y: nat, k: nat) -> Seq<char>
    decreases k,
{
    if k == 0 {
        seq![]
    } else {
        row_text(b, y, (k - 1) as nat).push(b.get(k - 1, y as int).ch)
    }
}

/// Rows `0 .. k`, each followed by a newline.
pub open spec fn snapshot_rows(b: BufView, k: nat) -> Seq<char>
    decreases k,
{
    if k == 0 {
        seq![]
    } else {
        snapshot_rows(b, (k - 1) as nat) + row_text(b, (k - 1) as nat, b.width) + seq!['\n']
    }
}

/// The text snapshot of a whole buffer.
pub open spec fn snapshot_text(b: BufView) -> Seq<char> {
    snapshot_rows(b, b.height)
}

/// Render a buffer as its text snapshot: the characters only, row by row,
/// newline-terminated.
pub fn snapshot(buf: &CellBuffer) -> (s: String)
    requires
        buf@.wf(),
    ensures
        s@ == snapshot_text(buf@),
{
    let mut out: Vec<char> = Vec::new();
    let h = buf.height();
    let w = buf.width();
    let mut y: usize = 0;
    while y < h
        invariant
            buf@.wf(),
            h == buf@.height,
            w == buf@.width,
            y <= h,
            out@ == snapshot_rows(buf@, y as nat),
        decreases h - y,
    {
        let ghost start = out@;
        let mut x: usize = 0;
        while x < w
            invariant
                buf@.wf(),
                h == buf@.height,
                w == buf@.width,
                y < h,
                x <= w,
                out@ == start + row_text(buf@, y as nat, x as nat),
            decreases w - x,
        {
            out.push(buf.get(x, y).ch);
            assert(out@ =~= start + row_text(buf@, y as nat, (x + 1) as nat));
            x = x + 1;
        }
        out.push('\n');
        assert(out@ =~= snapshot_rows(buf@, (y + 1) as nat));
        y = y + 1;
    }
    string_of(&out)
}

/// A mismatch: `(x, y, expected, actual)`.
pub type SnapshotDiff = Vec<(usize, usize, char, char)>;

/// The golden character at `(x, y)`: a space past the end of a line or
/// below the last line.
pub open spec fn golden_char(g: Seq<Seq<char>>, x: int, y: int) -> char {
    if 0 <= y < g.len() && 0 <= x < g[y].len() {
        g[y][x]
    } else {
        ' '
    }
}

/// Mismatches of columns `0 .. k` of row `y`, left to right.
pub open spec fn row_mismatches(b: BufView, g: Seq<Seq<char>>, y: nat, k: nat) -> Seq<
    (usize, usize, char, char),
>
    decreases k,
{
    if k == 0 {
        seq![]
    } else {
        let x = (k - 1) as nat;
        let rest = row_mismatches(b, g, y, x);
        let actual = b.get(x as int, y as int).ch;
        let expected = golden_char(g, x as int, y as int);
        if actual != expected {
            rest.push((x as usize, y as usize, expected, actual))
        } else {
            rest
        }
    }
}

/// Mismatches of rows `0 .. k`, top to bottom.
pub open spec fn mismatches(b: BufView, g: Seq<Seq<char>>, k: nat) -> Seq<
    (usize, usize, char, char),
>
    decreases k,
{
    if k == 0 {
        seq![]
    } else {
        mismatches(b, g, (k - 1) as nat) + row_mismatches(b, g, (k - 1) as nat, b.width)
    }
}

/// Every cell whose character differs from the golden snapshot, in row-major order.
pub open spec fn snapshot_mismatches(b: BufView, golden: Seq<char>) -> Seq<
    (usize, usize, char, char),
> {
    mismatches(b, lines(golden), b.height)
}

/// Compare a buffer with a golden snapshot; an empty result is a match.
pub fn diff_snapshot(buf: &CellBuffer, golden: &str) -> (d: SnapshotDiff)
    requires
        buf@.wf(),
    ensures
        d@ == snapshot_mismatches(buf@, golden@),
{
    let golden_chars = chars_of(golden);
    let rows = split_lines(&golden_chars);
    let ghost g = lines(golden@);
    assert(char_rows(rows@) == g);
    let mut out: SnapshotDiff = Vec::new();
    let h = buf.height();
    let w = buf.width();
    let mut y: usize = 0;
    while y < h
        invariant
            buf@.wf(),
            h == buf@.height,
            w == buf@.width,
            y <= h,
            char_rows(rows@) == g,
            out@ == mismatches(buf@, g, y as nat),
        decreases h - y,
    {
        let mut x: usize = 0;
        while x < w
            invariant
                buf@.wf(),
                h == buf@.height,
                w == buf@.width,
                y < h,
                x <= w,
                char_rows(rows@) == g,
                out@ == mismatches(buf@, g, y as nat) + row_mismatches(buf@, g, y as nat, x as nat),
            decreases w - x,
        {
            let actual = buf.get(x, y).ch;
            let expected = if y < rows.len() && x < rows[y].len() {
                assert(rows@[y as int]@ == g[y as int]);
                rows[y][x]
            } else {
                ' '
            };
            assert(expected == golden_char(g, x as int, y as int));
            if actual != expected {
                out.push((x, y, expected, actual));
            }
            x = x + 1;
        }
        y = y + 1;
    }
    out
}

/// The text of columns `0 .. k` of a row holds one character per column:
/// the character of that column's cell.
pub proof fn lemma_row_text(b: BufView, y: nat, k: nat, x: int)
    ensures
        row_text(b, y, k).len() == k,
        0 <= x < k ==> row_text(b, y, k)[x] == b.get(x, y as int).ch,
    decreases k,
{
    if k > 0 {
        lemma_row_text(b, y, (k - 1) as nat, x);
    }
}

/// A snapshot is `height` rows of `width + 1` characters.
pub proof fn lemma_snapshot_len(b: BufView, k: nat)
    ensures
        snapshot_rows(b, k).len() == k * (b.width + 1),
    decreases k,
{
    if k > 0 {
        lemma_snapshot_len(b, (k - 1) as nat);
        lemma_row_text(b, (k - 1) as nat, b.width, 0);
        assert((k - 1) * (b.width + 1) + b.width + 1 == k * (b.width + 1)) by (nonlinear_arith);
    } else {
        assert(k * (b.width + 1) == 0) by (nonlinear_arith)
            requires
                k == 0,
        ;
    }
}

/// No cell holds a newline, and no row ends in a carriage return: the
/// snapshot's lines are then exactly its rows.
pub open spec fn snapshot_safe(b: BufView) -> bool {
    &&& forall|x: int, y: int| b.in_bounds(x, y) ==> #[trigger] b.get(x, y).ch != '\n'
    &&& forall|y: int| 0 <= y < b.height ==> #[trigger] b.get(b.width - 1, y).ch != '\r'
}

proof fn lemma_snapshot_lines(b: BufView, k: nat)
    requires
        b.wf(),
        k <= b.height,
        snapshot_safe(b),
    ensures
        lines(snapshot_rows(b, k)) == Seq::new(k, |y: int| row_text(b, y as nat, b.width)),
        snapshot_rows(b, k).len() == 0 || snapshot_rows(b, k).last() == '\n',
    decreases k,
{
    if k == 0 {
        assert(lines(snapshot_rows(b, 0)) =~= Seq::new(0, |y: int| row_text(b, y as nat, b.width)));
    } else {
        let y = (k - 1) as nat;
        let head = snapshot_rows(b, y);
        let row = row_text(b, y, b.width);
        lemma_snapshot_lines(b, y);
        lemma_row_text(b, y, b.width, 0);
        assert forall|i: int| 0 <= i < row.len() implies row[i] != '\n' by {
            lemma_row_text(b, y, b.width, i);
            assert(b.in_bounds(i, y as int));
        }
        assert(row.len() == 0 || row.last() != '\r') by {
            lemma_row_text(b, y, b.width, b.width - 1);
            assert(b.get(b.width - 1, y as int).ch != '\r');
        }
        lemma_lines_single(row);
        assert(head + row + seq!['\n'] =~= head + row.push('\n'));
        lemma_lines_concat(head, row.push('\n'));
        assert(lines(snapshot_rows(b, k)) =~= Seq::new(k, |y: int| row_text(b, y as nat, b.width)));
    }
}

proof fn lemma_row_mismatches_empty(b: BufView, g: Seq<Seq<char>>, y: nat, k: nat)
    requires
        forall|x: int| 0 <= x < k ==> golden_char(g, x, y as int) == #[trigger] b.get(x, y as int).ch,
    ensures
        row_mismatches(b, g, y, k).len() == 0,
    decreases k,
{
    if k > 0 {
        lemma_row_mismatches_empty(b, g, y, (k - 1) as nat);
        assert(golden_char(g, k - 1, y as int) == b.get(k - 1, y as int).ch);
    }
}

proof fn lemma_row_mismatches_found(b: BufView, g: Seq<Seq<char>>, y: nat, k: nat, x: int)
    requires
        0 <= x < k,
        golden_char(g, x, y as int) != b.get(x, y as int).ch,
    ensures
        row_mismatches(b, g, y, k).len() > 0,
    decreases k,
{
    if x < k - 1 {
        lemma_row_mismatches_found(b, g, y, (k - 1) as nat, x);
    }
}

proof fn lemma_mismatches_found(b: BufView, g: Seq<Seq<char>>, k: nat, x: int, y: int)
    requires
        0 <= x < b.width,
        0 <= y < k,
        golden_char(g, x, y) != b.get(x, y).ch,
    ensures
        mismatches(b, g, k).len() > 0,
    decreases k,
{
    if y < k - 1 {
        lemma_mismatches_found(b, g, (k - 1) as nat, x, y);
    } else {
        lemma_row_mismatches_found(b, g, y as nat, b.width, x);
    }
}

/// The rows of `o`, as the lines of its snapshot.
pub open spec fn snapshot_lines(o: BufView) -> Seq<Seq<char>> {
    Seq::new(o.height, |y: int| row_text(o, y as nat, o.width))
}

proof fn lemma_golden_char_of_rows(o: BufView, x: int, y: int)
    requires
        o.in_bounds(x, y),
    ensures
        golden_char(snapshot_lines(o), x, y) == o.get(x, y).ch,
{
    lemma_row_text(o, y as nat, o.width, x);
}

proof fn lemma_mismatches_empty(b: BufView, o: BufView, k: nat)
    requires
        b.wf(),
        k <= b.height,
        b.width == o.width,
        b.height == o.height,
        forall|x: int, y: int| b.in_bounds(x, y) ==> #[trigger] b.get(x, y).ch == o.get(x, y).ch,
    ensures
        mismatches(b, snapshot_lines(o), k).len() == 0,
    decreases k,
{
    if k > 0 {
        let y = (k - 1) as nat;
        let g = snapshot_lines(o);
        lemma_mismatches_empty(b, o, y);
        assert forall|x: int| 0 <= x < b.width implies golden_char(g, x, y as int)
            == #[trigger] b.get(x, y as int).ch by {
            lemma_golden_char_of_rows(o, x, y as int);
            assert(b.in_bounds(x, y as int));
        }
        lemma_row_mismatches_empty(b, g, y, b.width);
    }
}

/// Two buffers of the same size match by snapshot exactly when they hold the
/// same character at every position, provided no cell of the golden buffer
/// holds a newline and none of its rows ends in a carriage return.
pub proof fn lemma_snapshot_match_iff_same_chars(b: BufView, o: BufView)
    requires
        b.wf(),
        o.wf(),
        b.width == o.width,
        b.height == o.height,
        snapshot_safe(o),
    ensures
        snapshot_mismatches(b, snapshot_text(o)).len() == 0 <==> forall|x: int, y: int|
            b.in_bounds(x, y) ==> #[trigger] b.get(x, y).ch == o.get(x, y).ch,
{
    lemma_snapshot_lines(o, o.height);
    assert(lines(snapshot_text(o)) =~= snapshot_lines(o));
    if forall|x: int, y: int| b.in_bounds(x, y) ==> #[trigger] b.get(x, y).ch == o.get(x, y).ch {
        lemma_mismatches_empty(b, o, b.height);
    } else {
        let (x, y) = choose|x: int, y: int| b.in_bounds(x, y) && #[trigger] b.get(x, y).ch != o.get(
            x,
            y,
        ).ch;
        lemma_golden_char_of_rows(o, x, y);
        lemma_mismatches_found(b, snapshot_lines(o), b.height, x, y);
    }
}

/// A buffer matches its own snapshot, provided no cell holds a newline and
/// no row ends in a carriage return (those would change the lines read back).
pub proof fn lemma_snapshot_matches_itself(b: BufView)
    requires
        b.wf(),
        snapshot_safe(b),
    ensures
        snapshot_mismatches(b, snapshot_text(b)).len() == 0,
        snapshot_text(b).len() == b.height * (b.width + 1),
{
    lemma_snapshot_match_iff_same_chars(b, b);
    lemma_snapshot_len(b, b.height);
}

/// The snapshot demo frame: a box around a 32 × 5 grid and, in a column
/// laid out inside it, a title line, an empty line and a caption.
pub open spec fn harness_frame() -> BufView {
    let boxed = bordered(BufView::blank(32, 5));
    let titled = write_chars(boxed, 1, 1, shown(" M4.2 · snapshot test"@, 30), 4);
    let spaced = write_chars(titled, 1, 2, shown(""@, 30), 7);
    write_chars(spaced, 1, 3, shown(" render -> string -> diff"@, 30), 7)
}

/// Build the snapshot demo frame.
pub fn build_frame() -> (buf: CellBuffer)
    ensures
        buf@.wf(),
        buf@ == harness_frame(),
{
    let mut buf = CellBuffer::new(32, 5);
    paint_border(&mut buf);
    let mut children: Vec<WidgetNode> = Vec::new();
    children.push(
        WidgetNode::Label(Label { text: String::from_str(" M4.2 · snapshot test"), fg: 4 }),
    );
    children.push(WidgetNode::Label(Label { text: String::from_str(""), fg: 7 }));
    children.push(
        WidgetNode::Label(Label { text: String::from_str(" render -> string -> diff"), fg: 7 }),
    );
    let col = Container { direction: Direction::Column, children };
    let rect = Rect { x: 1, y: 1, w: 30, h: 3 };
    proof {
        reveal_with_fuel(paint_children, 4);
        assert(col.children@.len() == 3);
        assert(child_origin_fits(col.direction, rect, 3, 0));
        assert(node_fits(col.children@[0], child_rect(col.direction, rect, 3, 0)));
        assert(node_fits(col.children@[1], child_rect(col.direction, rect, 3, 1)));
        assert(node_fits(col.children@[2], child_rect(col.direction, rect, 3, 2)));
        assert(children_fit(col, rect, 0));
        assert(children_fit(col, rect, 1));
        assert(children_fit(col, rect, 2));
        assert(children_fit(col, rect, 3));
    }
    col.paint(&mut buf, rect);
    buf
}

/// Marker line the harness demo prints when it finishes.
pub fn contract_marker() -> (s: &'static str)
    ensures
        s@ == "contract: tui-rendering-v1 holds — OK"@,
{
    "contract: tui-rendering-v1 holds — OK"
}

} // verus!
