//! The dashboard panels: a CPU grid (one coloured strip per core), a process
//! table, a memory gauge, and the frame that composes them with a sparkline.
//!
//! Quantities are fixed-point integers: core loads in thousandths, process
//! CPU and memory shares in tenths of a percent.

use vstd::prelude::*;
use crate::cellbuffer::{
    BufView, Cell, CellBuffer, CellWrite, apply_writes, blank_cell, char_writes,
    lemma_apply_writes_append, lemma_apply_writes_idempotent, lemma_filled_get, lemma_get_set,
    lemma_write_chars, lemma_write_chars_as_writes, write_chars,
};
use crate::sparkline::{paint_sparkline, spark_glyphs};
use crate::text::{decimal, digit, digit_char, push_decimal, string_of};
use crate::widgets::{
    Label, Rect, Widget, cell_write, fill_span, lemma_fill_span, lemma_fill_span_as_writes,
    lemma_slices_fit, paint_area, shown, span_writes,
};

verus! {

/// One process row: its name and its CPU and memory shares, in tenths of a
/// percent (`885` is 88.5%).
#[derive(Debug, Clone)]
pub struct Process {
    pub name: String,
    pub cpu: i32,
    pub mem: i32,
}

/// The colour of a core's strip: red above 0.8, yellow above 0.5, else green.
pub open spec fn load_colour(load: u32) -> u8 {
    if load > 800 {
        1
    } else if load > 500 {
        3
    } else {
        2
    }
}

/// Columns per core: an even share of the width, at least one.
pub open spec fn core_width(n: nat, w: nat) -> nat {
    if w / n >= 1 {
        w / n
    } else {
        1
    }
}

/// The grid after painting the strips of the first `k` cores: core `i`
/// covers columns `i * cw ..` of the rectangle's top row, clipped to its width.
pub open spec fn grid_painted(b: BufView, cores: Seq<u32>, r: Rect, k: nat) -> BufView
    decreases k,
{
    if k == 0 || k > cores.len() {
        b
    } else {
        let i = (k - 1) as nat;
        let cw = core_width(cores.len(), r.w as nat);
        let start = i * cw;
        let span: nat = if start < r.w {
            if cw <= r.w - start {
                cw
            } else {
                (r.w - start) as nat
            }
        } else {
            0
        };
        fill_span(
            grid_painted(b, cores, r, i),
            r.y as int,
            r.x + start,
            span,
            Cell { ch: '█', fg: load_colour(cores[i as int]), bg: 0 },
        )
    }
}

/// The grid after painting a CPU grid with `cores` into `r`.
pub open spec fn cpu_grid_painted(b: BufView, cores: Seq<u32>, r: Rect) -> BufView {
    if cores.len() == 0 || r.w == 0 {
        b
    } else {
        grid_painted(b, cores, r, cores.len())
    }
}

/// One strip per core on the rectangle's top row, coloured by load; core
/// loads are in thousandths (`1000` is fully busy).
pub struct CpuGrid<'a> {
    pub cores: &'a [u32],
}

fn core_colour(load: u32) -> (c: u8)
    ensures
        c == load_colour(load),
{
    if load > 800 {
        1
    } else if load > 500 {
        3
    } else {
        2
    }
}

impl<'a> Widget for CpuGrid<'a> {
    open spec fn fits(&self, rect: Rect) -> bool {
        self.cores@.len() == 0 || rect.w == 0 || rect.x + rect.w <= usize::MAX
    }

    open spec fn painted(&self, b: BufView, rect: Rect) -> BufView {
        cpu_grid_painted(b, self.cores@, rect)
    }

    fn paint(&self, buf: &mut CellBuffer, rect: Rect) {
        let n = self.cores.len();
        if n == 0 || rect.w == 0 {
            return;
        }
        let cw = if rect.w / n >= 1 {
            rect.w / n
        } else {
            1
        };
        let ghost b0 = buf@;
        let mut i: usize = 0;
        while i < n
            invariant
                i <= n == self.cores@.len(),
                n > 0,
                rect.w > 0,
                rect.x + rect.w <= usize::MAX,
                cw == core_width(n as nat, rect.w as nat),
                b0.wf(),
                buf@.wf(),
                buf@ == grid_painted(b0, self.cores@, rect, i as nat),
            decreases n - i,
        {
            proof {
                if rect.w / n >= 1 {
                    lemma_slices_fit(rect.w as nat, n as nat, i as nat);
                }
            }
            let start = i * cw;
            let ghost before = buf@;
            if start < rect.w {
                let span = if cw <= rect.w - start {
                    cw
                } else {
                    rect.w - start
                };
                let cell = Cell::new('█', core_colour(self.cores[i]));
                let cx = rect.x + start;
                let mut dx: usize = 0;
                while dx < span
                    invariant
                        dx <= span,
                        cx + span <= rect.x + rect.w,
                        rect.x + rect.w <= usize::MAX,
                        before.wf(),
                        buf@.wf(),
                        buf@ == fill_span(before, rect.y as int, cx as int, dx as nat, cell),
                    decreases span - dx,
                {
                    buf.set(cx + dx, rect.y, cell);
                    dx = dx + 1;
                }
            }
            i = i + 1;
        }
    }
}

/// `s` padded with spaces on the right to `n` characters.
pub open spec fn pad_right(s: Seq<char>, n: nat) -> Seq<char> {
    if s.len() >= n {
        s
    } else {
        s + Seq::new((n - s.len()) as nat, |i: int| ' ')
    }
}

/// `s` padded with spaces on the left to `n` characters.
pub open spec fn pad_left(s: Seq<char>, n: nat) -> Seq<char> {
    if s.len() >= n {
        s
    } else {
        Seq::new((n - s.len()) as nat, |i: int| ' ') + s
    }
}

/// A count of tenths with one decimal: `885` is `88.5`, `-5` is `-0.5`.
pub open spec fn tenths_text(t: int) -> Seq<char> {
    let a: nat = if t < 0 {
        (-t) as nat
    } else {
        t as nat
    };
    (if t < 0 {
        seq!['-']
    } else {
        seq![]
    }) + decimal(a / 10) + seq!['.', digit_char(a % 10)]
}

/// A table row: the name left-aligned in 16 columns, two spaces, the CPU
/// share right-aligned in 4, three spaces, the memory share right-aligned in 4.
pub open spec fn process_row(p: Process) -> Seq<char> {
    pad_right(p.name@, 16) + seq![' ', ' '] + pad_left(tenths_text(p.cpu as int), 4) + seq![
        ' ',
        ' ',
        ' ',
    ] + pad_left(tenths_text(p.mem as int), 4)
}

/// The table header.
pub open spec fn header_text() -> Seq<char> {
    "NAME              CPU%   MEM%"@
}

/// How many process rows fit under the header: `h - 1`, at most the number
/// of processes.
pub open spec fn table_rows(r: Rect, n: nat) -> nat {
    let room: nat = if r.h >= 1 {
        (r.h - 1) as nat
    } else {
        0
    };
    if room <= n {
        room
    } else {
        n
    }
}

/// The grid after painting the first `k` process rows under the header.
pub open spec fn rows_painted(b: BufView, procs: Seq<Process>, r: Rect, k: nat) -> BufView
    decreases k,
{
    if k == 0 {
        b
    } else {
        write_chars(
            rows_painted(b, procs, r, (k - 1) as nat),
            r.x as int,
            r.y + k,
            shown(process_row(procs[k - 1]), r.w),
            7,
        )
    }
}

/// The grid after painting a process table into `r`.
pub open spec fn table_painted(b: BufView, procs: Seq<Process>, r: Rect) -> BufView {
    rows_painted(
        write_chars(b, r.x as int, r.y as int, shown(header_text(), r.w), 6),
        procs,
        r,
        table_rows(r, procs.len()),
    )
}

/// Painting a process table into `r` computes no coordinate past `usize::MAX`.
pub open spec fn table_fits(procs: Seq<Process>, r: Rect) -> bool {
    &&& r.x + shown(header_text(), r.w).len() <= usize::MAX + 1
    &&& r.y + table_rows(r, procs.len()) <= usize::MAX
    &&& forall|i: int|
        0 <= i < table_rows(r, procs.len()) ==> r.x + shown(
            process_row(#[trigger] procs[i]),
            r.w,
        ).len() <= usize::MAX + 1
}

/// A header row, then one row per process as long as rows fit in the rectangle.
pub struct ProcessTable<'a> {
    pub processes: &'a [Process],
}

fn push_tenths(out: &mut Vec<char>, t: i32)
    ensures
        final(out)@ == old(out)@ + tenths_text(t as int),
{
    let ghost start = out@;
    let a: u64 = if t < 0 {
        (-(t as i64)) as u64
    } else {
        t as u64
    };
    if t < 0 {
        out.push('-');
    }
    push_decimal(out, a / 10);
    out.push('.');
    out.push(digit(a % 10));
    assert(out@ =~= start + tenths_text(t as int));
}

pub(crate) fn push_padded_left(out: &mut Vec<char>, s: &Vec<char>, n: usize)
    ensures
        final(out)@ == old(out)@ + pad_left(s@, n as nat),
{
    let mut k: usize = s.len();
    let ghost start = out@;
    while k < n
        invariant
            s@.len() <= k <= n || (k == s@.len() && k >= n),
            out@ == start + Seq::new((k - s@.len()) as nat, |i: int| ' '),
        decreases n - k,
    {
        out.push(' ');
        assert(out@ =~= start + Seq::new((k + 1 - s@.len()) as nat, |i: int| ' '));
        k = k + 1;
    }
    let mut i: usize = 0;
    let ghost padded = out@;
    while i < s.len()
        invariant
            i <= s@.len(),
            out@ == padded + s@.take(i as int),
        decreases s@.len() - i,
    {
        out.push(s[i]);
        assert(s@.take(i + 1) =~= s@.take(i as int).push(s@[i as int]));
        i = i + 1;
    }
    assert(s@.take(s@.len() as int) =~= s@);
    assert(out@ =~= start + pad_left(s@, n as nat));
}

fn push_padded_right(out: &mut Vec<char>, s: &Vec<char>, n: usize)
    ensures
        final(out)@ == old(out)@ + pad_right(s@, n as nat),
{
    let ghost start = out@;
    let mut i: usize = 0;
    while i < s.len()
        invariant
            i <= s@.len(),
            out@ == start + s@.take(i as int),
        decreases s@.len() - i,
    {
        out.push(s[i]);
        assert(s@.take(i + 1) =~= s@.take(i as int).push(s@[i as int]));
        i = i + 1;
    }
    assert(s@.take(s@.len() as int) =~= s@);
    let ghost written = out@;
    let mut k: usize = s.len();
    while k < n
        invariant
            s@.len() <= k,
            k <= n || k == s@.len(),
            out@ == written + Seq::new((k - s@.len()) as nat, |i: int| ' '),
        decreases n - k,
    {
        out.push(' ');
        assert(out@ =~= written + Seq::new((k + 1 - s@.len()) as nat, |i: int| ' '));
        k = k + 1;
    }
    assert(out@ =~= start + pad_right(s@, n as nat));
}

fn row_chars(p: &Process) -> (v: Vec<char>)
    ensures
        v@ == process_row(*p),
{
    let mut v: Vec<char> = Vec::new();
    let name = crate::text::chars_of(p.name.as_str());
    push_padded_right(&mut v, &name, 16);
    v.push(' ');
    v.push(' ');
    let mut cpu: Vec<char> = Vec::new();
    push_tenths(&mut cpu, p.cpu);
    push_padded_left(&mut v, &cpu, 4);
    v.push(' ');
    v.push(' ');
    v.push(' ');
    let mut mem: Vec<char> = Vec::new();
    push_tenths(&mut mem, p.mem);
    push_padded_left(&mut v, &mem, 4);
    assert(v@ =~= process_row(*p));
    v
}

impl<'a> Widget for ProcessTable<'a> {
    open spec fn fits(&self, rect: Rect) -> bool {
        table_fits(self.processes@, rect)
    }

    open spec fn painted(&self, b: BufView, rect: Rect) -> BufView {
        table_painted(b, self.processes@, rect)
    }

    fn paint(&self, buf: &mut CellBuffer, rect: Rect) {
        let header = Label { text: String::from_str("NAME              CPU%   MEM%"), fg: 6 };
        header.paint(buf, Rect { x: rect.x, y: rect.y, w: rect.w, h: 1 });
        let room = rect.h.saturating_sub(1);
        let rows = if room <= self.processes.len() {
            room
        } else {
            self.processes.len()
        };
        let ghost b0 = buf@;
        let mut i: usize = 0;
        while i < rows
            invariant
                i <= rows == table_rows(rect, self.processes@.len()),
                table_fits(self.processes@, rect),
                buf@.wf(),
                buf@ == rows_painted(b0, self.processes@, rect, i as nat),
            decreases rows - i,
        {
            let text = string_of(&row_chars(&self.processes[i]));
            let row = Label { text, fg: 7 };
            assert(rect.x + shown(process_row(self.processes@[i as int]), rect.w).len() <= usize::MAX
                + 1);
            row.paint(buf, Rect { x: rect.x, y: rect.y + 1 + i, w: rect.w, h: 1 });
            i = i + 1;
        }
    }
}

/// The gauge's filled length: `used / total` of `inner` columns, rounded
/// down, with `used` clamped to `0 ..= total`.
pub open spec fn bar_filled(used: i64, total: i64, inner: nat) -> nat {
    let u: int = if used < 0 {
        0
    } else if used > total {
        total as int
    } else {
        used as int
    };
    (u * inner / (total as int)) as nat
}

/// The gauge's interior cells `0 .. k`: full blocks in colour 2 for the
/// first `filled`, grey blanks after.
pub open spec fn bar_cells(b: BufView, x: int, y: int, filled: nat, k: nat) -> BufView
    decreases k,
{
    if k == 0 {
        b
    } else {
        let i = k - 1;
        bar_cells(b, x, y, filled, (k - 1) as nat).set(
            x + 1 + i,
            y,
            if i < filled {
                Cell { ch: '█', fg: 2, bg: 0 }
            } else {
                Cell { ch: ' ', fg: 8, bg: 0 }
            },
        )
    }
}

/// The grid after painting a memory gauge `[████    ]` into the top row of `r`;
/// nothing for a rectangle narrower than 2 or a non-positive total.
pub open spec fn memory_bar_painted(b: BufView, r: Rect, used: i64, total: i64) -> BufView {
    if r.w < 2 || total <= 0 {
        b
    } else {
        let inner = (r.w - 2) as nat;
        bar_cells(
            b.set(r.x as int, r.y as int, Cell { ch: '[', fg: 6, bg: 0 }).set(
                r.x + r.w - 1,
                r.y as int,
                Cell { ch: ']', fg: 6, bg: 0 },
            ),
            r.x as int,
            r.y as int,
            bar_filled(used, total, inner),
            inner,
        )
    }
}

/// A horizontal gauge of `used` over `total` (any common unit).
pub fn paint_memory_bar(buf: &mut CellBuffer, rect: Rect, used: i64, total: i64)
    requires
        old(buf)@.wf(),
        rect.w < 2 || total <= 0 || rect.x + rect.w <= usize::MAX,
    ensures
        final(buf)@.wf(),
        final(buf)@ == memory_bar_painted(old(buf)@, rect, used, total),
{
    if rect.w < 2 || total <= 0 {
        return;
    }
    let inner = rect.w - 2;
    let clamped: i64 = if used < 0 {
        0
    } else if used > total {
        total
    } else {
        used
    };
    proof {
        assert((clamped as int) * (inner as int) <= (total as int) * (inner as int)) by (nonlinear_arith)
            requires
                0 <= clamped <= total,
                0 <= inner,
        ;
        vstd::arithmetic::div_mod::lemma_div_is_ordered(
            (clamped as int) * (inner as int),
            (total as int) * (inner as int),
            total as int,
        );
        vstd::arithmetic::div_mod::lemma_div_multiples_vanish(inner as int, total as int);
        assert((total as int) * (inner as int) == (inner as int) * (total as int)) by (nonlinear_arith);
        assert(0 <= (clamped as int) * (inner as int)) by (nonlinear_arith)
            requires
                0 <= clamped,
                0 <= inner,
        ;
        vstd::arithmetic::div_mod::lemma_div_pos_is_pos((clamped as int) * (inner as int), total as int);
        assert((clamped as u128) * (inner as u128) <= (total as int) * (inner as int));
        assert((total as int) * (inner as int) <= 0x7fff_ffff_ffff_ffffint * 0xffff_ffff_ffff_ffffint) by (nonlinear_arith)
            requires
                0 < total <= 0x7fff_ffff_ffff_ffffint,
                0 <= inner <= 0xffff_ffff_ffff_ffffint,
        ;
    }
    let filled = ((clamped as u128) * (inner as u128) / (total as u128)) as usize;
    assert(filled == bar_filled(used, total, inner as nat));
    buf.set(rect.x, rect.y, Cell::new('[', 6));
    buf.set(rect.x + rect.w - 1, rect.y, Cell::new(']', 6));
    let ghost framed = buf@;
    let mut i: usize = 0;
    while i < inner
        invariant
            i <= inner == rect.w - 2,
            rect.x + rect.w <= usize::MAX,
            framed.wf(),
            buf@.wf(),
            buf@ == bar_cells(framed, rect.x as int, rect.y as int, filled as nat, i as nat),
        decreases inner - i,
    {
        let cell = if i < filled {
            Cell::new('█', 2)
        } else {
            Cell::new(' ', 8)
        };
        buf.set(rect.x + 1 + i, rect.y, cell);
        i = i + 1;
    }
}

/// The dashboard title.
pub open spec fn dashboard_title() -> Seq<char> {
    " M3 · panels — CpuGrid + Sparkline + Memory + Processes "@
}

/// The 60 × 10 dashboard: title on row 0, CPU grid and sparkline on row 2,
/// memory gauge on row 3, process table from row 5.
pub open spec fn dashboard_frame(
    cores: Seq<u32>,
    procs: Seq<Process>,
    mem_used: i64,
    mem_total: i64,
    samples: Seq<u64>,
) -> BufView {
    let titled = write_chars(BufView::blank(60, 10), 0, 0, shown(dashboard_title(), 60), 4);
    let gridded = cpu_grid_painted(titled, cores, Rect { x: 0, y: 2, w: 30, h: 1 });
    let sparked = write_chars(gridded, 31, 2, spark_glyphs(samples), 2);
    let metered = memory_bar_painted(sparked, Rect { x: 0, y: 3, w: 60, h: 1 }, mem_used, mem_total);
    table_painted(metered, procs, Rect { x: 0, y: 5, w: 60, h: 5 })
}

/// Compose the panels into a 60 × 10 frame.
pub fn render_dashboard(
    cores: &[u32],
    processes: &[Process],
    mem_used: i64,
    mem_total: i64,
    samples: &[u64],
) -> (buf: CellBuffer)
    requires
        samples@.len() <= usize::MAX - 30,
    ensures
        buf@.wf(),
        buf@ == dashboard_frame(cores@, processes@, mem_used, mem_total, samples@),
{
    let mut buf = CellBuffer::new(60, 10);
    let title = Label {
        text: String::from_str(" M3 · panels — CpuGrid + Sparkline + Memory + Processes "),
        fg: 4,
    };
    title.paint(&mut buf, Rect { x: 0, y: 0, w: 60, h: 1 });
    let grid = CpuGrid { cores };
    grid.paint(&mut buf, Rect { x: 0, y: 2, w: 30, h: 1 });
    paint_sparkline(&mut buf, 31, 2, samples, 2);
    paint_memory_bar(&mut buf, Rect { x: 0, y: 3, w: 60, h: 1 }, mem_used, mem_total);
    let table = ProcessTable { processes };
    table.paint(&mut buf, Rect { x: 0, y: 5, w: 60, h: 5 });
    buf
}

proof fn lemma_grid_inside(b: BufView, cores: Seq<u32>, r: Rect, k: nat, i: int, j: int)
    requires
        b.wf(),
        cores.len() > 0,
        r.w > 0,
    ensures
        grid_painted(b, cores, r, k).wf(),
        grid_painted(b, cores, r, k).width == b.width,
        grid_painted(b, cores, r, k).height == b.height,
        !paint_area(r, i, j) ==> grid_painted(b, cores, r, k).get(i, j) == b.get(i, j),
    decreases k,
{
    if k > 0 && k <= cores.len() {
        let idx = (k - 1) as nat;
        let cw = core_width(cores.len(), r.w as nat);
        let start = idx * cw;
        let span: nat = if start < r.w {
            if cw <= r.w - start {
                cw
            } else {
                (r.w - start) as nat
            }
        } else {
            0
        };
        assert(0 <= start) by (nonlinear_arith)
            requires
                start == idx * cw,
        ;
        lemma_grid_inside(b, cores, r, idx, i, j);
        lemma_fill_span(
            grid_painted(b, cores, r, idx),
            r.y as int,
            r.x + start,
            span,
            Cell { ch: '█', fg: load_colour(cores[idx as int]), bg: 0 },
            i,
            j,
        );
    }
}

/// The columns of the rectangle's top row that the first `k` cores cover:
/// `k` strips of `core_width` columns, cut at the rectangle's width.
pub open spec fn grid_cover(n: nat, w: nat, k: nat) -> nat {
    if k * core_width(n, w) <= w {
        k * core_width(n, w)
    } else {
        w
    }
}

proof fn lemma_grid_cells(b: BufView, cores: Seq<u32>, r: Rect, k: nat, i: int, j: int)
    requires
        b.wf(),
        cores.len() > 0,
        r.w > 0,
        k <= cores.len(),
    ensures
        grid_painted(b, cores, r, k).get(i, j) == if j == r.y && r.x <= i < r.x + grid_cover(
            cores.len(),
            r.w as nat,
            k,
        ) && b.in_bounds(i, j) {
            Cell {
                ch: '█',
                fg: load_colour(cores[(i - r.x) / core_width(cores.len(), r.w as nat) as int]),
                bg: 0,
            }
        } else {
            b.get(i, j)
        },
    decreases k,
{
    let n = cores.len();
    let cw = core_width(n, r.w as nat);
    if k > 0 {
        let idx = (k - 1) as nat;
        let start = idx * cw;
        let span: nat = if start < r.w {
            if cw <= r.w - start {
                cw
            } else {
                (r.w - start) as nat
            }
        } else {
            0
        };
        assert(0 <= start) by (nonlinear_arith)
            requires
                start == idx * cw,
        ;
        assert(k * cw == start + cw) by (nonlinear_arith)
            requires
                start == idx * cw,
                idx == k - 1,
        ;
        lemma_grid_cells(b, cores, r, idx, i, j);
        lemma_grid_inside(b, cores, r, idx, 0, 0);
        lemma_fill_span(
            grid_painted(b, cores, r, idx),
            r.y as int,
            r.x + start,
            span,
            Cell { ch: '█', fg: load_colour(cores[idx as int]), bg: 0 },
            i,
            j,
        );
        let d = i - r.x;
        if start <= d < start + span {
            assert(d / (cw as int) == idx) by (nonlinear_arith)
                requires
                    idx * cw <= d < idx * cw + cw,
                    cw > 0,
            ;
        }
    }
}

/// What a CPU grid leaves on the grid: with `cw = max(w / n, 1)` columns per
/// core, column `d` of the rectangle's top row, for `d < min(n * cw, w)`,
/// becomes a full block coloured by the load of core `d / cw`; every other
/// cell is unchanged (all of them when there is no core or no width).
pub proof fn lemma_cpu_grid_cells(b: BufView, cores: Seq<u32>, r: Rect, i: int, j: int)
    requires
        b.wf(),
    ensures
        cpu_grid_painted(b, cores, r).get(i, j) == if cores.len() > 0 && r.w > 0 && j == r.y && r.x
            <= i < r.x + grid_cover(cores.len(), r.w as nat, cores.len()) && b.in_bounds(i, j) {
            Cell {
                ch: '█',
                fg: load_colour(cores[(i - r.x) / core_width(cores.len(), r.w as nat) as int]),
                bg: 0,
            }
        } else {
            b.get(i, j)
        },
{
    if cores.len() > 0 && r.w > 0 {
        lemma_grid_cells(b, cores, r, cores.len(), i, j);
    }
}

/// A CPU grid paints only its rectangle's top row, within its columns.
pub proof fn lemma_cpu_grid_stays_inside(b: BufView, cores: Seq<u32>, r: Rect, i: int, j: int)
    requires
        b.wf(),
    ensures
        cpu_grid_painted(b, cores, r).wf(),
        cpu_grid_painted(b, cores, r).width == b.width,
        cpu_grid_painted(b, cores, r).height == b.height,
        !paint_area(r, i, j) ==> cpu_grid_painted(b, cores, r).get(i, j) == b.get(i, j),
{
    if cores.len() > 0 && r.w > 0 {
        lemma_grid_inside(b, cores, r, cores.len(), i, j);
    }
}

proof fn lemma_rows_inside(b: BufView, procs: Seq<Process>, r: Rect, k: nat, i: int, j: int)
    requires
        b.wf(),
        k <= table_rows(r, procs.len()),
    ensures
        rows_painted(b, procs, r, k).wf(),
        rows_painted(b, procs, r, k).width == b.width,
        rows_painted(b, procs, r, k).height == b.height,
        !paint_area(r, i, j) ==> rows_painted(b, procs, r, k).get(i, j) == b.get(i, j),
    decreases k,
{
    if k > 0 {
        lemma_rows_inside(b, procs, r, (k - 1) as nat, i, j);
        lemma_write_chars(
            rows_painted(b, procs, r, (k - 1) as nat),
            r.x as int,
            r.y + k,
            shown(process_row(procs[k - 1]), r.w),
            7,
            i,
            j,
        );
    }
}

proof fn lemma_rows_cells(b: BufView, procs: Seq<Process>, r: Rect, k: nat, i: int, j: int)
    requires
        b.wf(),
        k <= procs.len(),
    ensures
        rows_painted(b, procs, r, k).get(i, j) == if 1 <= j - r.y <= k && r.x <= i < r.x + shown(
            process_row(procs[j - r.y - 1]),
            r.w,
        ).len() && b.in_bounds(i, j) {
            Cell { ch: shown(process_row(procs[j - r.y - 1]), r.w)[i - r.x], fg: 7, bg: 0 }
        } else {
            b.get(i, j)
        },
    decreases k,
{
    if k > 0 {
        let prev = rows_painted(b, procs, r, (k - 1) as nat);
        lemma_rows_cells(b, procs, r, (k - 1) as nat, i, j);
        lemma_rows_shape(b, procs, r, (k - 1) as nat);
        lemma_write_chars(prev, r.x as int, r.y + k, shown(process_row(procs[k - 1]), r.w), 7, i, j);
    }
}

proof fn lemma_rows_shape(b: BufView, procs: Seq<Process>, r: Rect, k: nat)
    requires
        b.wf(),
    ensures
        rows_painted(b, procs, r, k).wf(),
        rows_painted(b, procs, r, k).width == b.width,
        rows_painted(b, procs, r, k).height == b.height,
    decreases k,
{
    if k > 0 {
        lemma_rows_shape(b, procs, r, (k - 1) as nat);
        lemma_write_chars(
            rows_painted(b, procs, r, (k - 1) as nat),
            r.x as int,
            r.y + k,
            shown(process_row(procs[k - 1]), r.w),
            7,
            0,
            0,
        );
    }
}

/// What a process table leaves on the grid: the header (colour 6) on the
/// rectangle's top row and, on the `m`-th row below it, the `m`-th process
/// row (colour 7), for as many processes as fit under the header; each text
/// is cut to the rectangle's width and written from its left edge. Every
/// other cell is unchanged, so processes past the last fitting row are not
/// drawn.
pub proof fn lemma_table_cells(b: BufView, procs: Seq<Process>, r: Rect, i: int, j: int)
    requires
        b.wf(),
    ensures
        table_painted(b, procs, r).get(i, j) == if j == r.y && r.x <= i < r.x + shown(
            header_text(),
            r.w,
        ).len() && b.in_bounds(i, j) {
            Cell { ch: shown(header_text(), r.w)[i - r.x], fg: 6, bg: 0 }
        } else if 1 <= j - r.y <= table_rows(r, procs.len()) && r.x <= i < r.x + shown(
            process_row(procs[j - r.y - 1]),
            r.w,
        ).len() && b.in_bounds(i, j) {
            Cell { ch: shown(process_row(procs[j - r.y - 1]), r.w)[i - r.x], fg: 7, bg: 0 }
        } else {
            b.get(i, j)
        },
{
    let headed = write_chars(b, r.x as int, r.y as int, shown(header_text(), r.w), 6);
    lemma_write_chars(b, r.x as int, r.y as int, shown(header_text(), r.w), 6, i, j);
    lemma_write_chars(b, r.x as int, r.y as int, shown(header_text(), r.w), 6, 0, 0);
    lemma_rows_cells(headed, procs, r, table_rows(r, procs.len()), i, j);
}

/// A process table paints only inside its rectangle (its header row even
/// when the rectangle has no height).
pub proof fn lemma_table_stays_inside(b: BufView, procs: Seq<Process>, r: Rect, i: int, j: int)
    requires
        b.wf(),
    ensures
        table_painted(b, procs, r).wf(),
        table_painted(b, procs, r).width == b.width,
        table_painted(b, procs, r).height == b.height,
        !paint_area(r, i, j) ==> table_painted(b, procs, r).get(i, j) == b.get(i, j),
{
    let headed = write_chars(b, r.x as int, r.y as int, shown(header_text(), r.w), 6);
    lemma_write_chars(b, r.x as int, r.y as int, shown(header_text(), r.w), 6, i, j);
    lemma_rows_inside(headed, procs, r, table_rows(r, procs.len()), i, j);
}

proof fn lemma_bar_cells(b: BufView, x: int, y: int, filled: nat, k: nat, i: int, j: int)
    requires
        b.wf(),
    ensures
        bar_cells(b, x, y, filled, k).wf(),
        bar_cells(b, x, y, filled, k).width == b.width,
        bar_cells(b, x, y, filled, k).height == b.height,
        bar_cells(b, x, y, filled, k).get(i, j) == if j == y && x + 1 <= i < x + 1 + k
            && b.in_bounds(i, j) {
            bar_cell(i - x - 1, filled)
        } else {
            b.get(i, j)
        },
    decreases k,
{
    if k > 0 {
        let c = if k - 1 < filled {
            Cell { ch: '█', fg: 2, bg: 0 }
        } else {
            Cell { ch: ' ', fg: 8, bg: 0 }
        };
        lemma_bar_cells(b, x, y, filled, (k - 1) as nat, i, j);
        lemma_get_set(bar_cells(b, x, y, filled, (k - 1) as nat), x + 1 + (k - 1), y, c, i, j);
    }
}

/// A memory gauge paints only its rectangle's top row, within its columns.
pub proof fn lemma_memory_bar_stays_inside(b: BufView, r: Rect, used: i64, total: i64, i: int, j: int)
    requires
        b.wf(),
    ensures
        memory_bar_painted(b, r, used, total).wf(),
        memory_bar_painted(b, r, used, total).width == b.width,
        memory_bar_painted(b, r, used, total).height == b.height,
        !paint_area(r, i, j) ==> memory_bar_painted(b, r, used, total).get(i, j) == b.get(i, j),
{
    if r.w >= 2 && total > 0 {
        let l = b.set(r.x as int, r.y as int, Cell { ch: '[', fg: 6, bg: 0 });
        let lr = l.set(r.x + r.w - 1, r.y as int, Cell { ch: ']', fg: 6, bg: 0 });
        lemma_get_set(b, r.x as int, r.y as int, Cell { ch: '[', fg: 6, bg: 0 }, i, j);
        lemma_get_set(l, r.x + r.w - 1, r.y as int, Cell { ch: ']', fg: 6, bg: 0 }, i, j);
        lemma_bar_cells(lr, r.x as int, r.y as int, bar_filled(used, total, (r.w - 2) as nat), (r.w
            - 2) as nat, i, j);
    }
}

/// What a memory gauge leaves on the grid: `[` and `]` (colour 6) at the
/// ends of the rectangle's top row, full blocks for the first `bar_filled`
/// interior columns and grey blanks after them, every other cell unchanged;
/// nothing changes for a rectangle narrower than 2 or a non-positive total.
pub proof fn lemma_memory_bar_cells(b: BufView, r: Rect, used: i64, total: i64, i: int, j: int)
    requires
        b.wf(),
    ensures
        memory_bar_painted(b, r, used, total).get(i, j) == if r.w >= 2 && total > 0 && j == r.y
            && r.x <= i < r.x + r.w && b.in_bounds(i, j) {
            if i == r.x {
                Cell { ch: '[', fg: 6, bg: 0 }
            } else if i == r.x + r.w - 1 {
                Cell { ch: ']', fg: 6, bg: 0 }
            } else {
                bar_cell(i - r.x - 1, bar_filled(used, total, (r.w - 2) as nat))
            }
        } else {
            b.get(i, j)
        },
{
    if r.w >= 2 && total > 0 {
        let l = b.set(r.x as int, r.y as int, Cell { ch: '[', fg: 6, bg: 0 });
        let lr = l.set(r.x + r.w - 1, r.y as int, Cell { ch: ']', fg: 6, bg: 0 });
        lemma_get_set(b, r.x as int, r.y as int, Cell { ch: '[', fg: 6, bg: 0 }, i, j);
        lemma_get_set(l, r.x + r.w - 1, r.y as int, Cell { ch: ']', fg: 6, bg: 0 }, i, j);
        lemma_bar_cells(lr, r.x as int, r.y as int, bar_filled(used, total, (r.w - 2) as nat), (r.w
            - 2) as nat, i, j);
    }
}

/// The gauge never overfills, and fills monotonically with `used`.
pub proof fn lemma_bar_filled(u1: i64, u2: i64, total: i64, inner: nat)
    requires
        total > 0,
        u1 <= u2,
    ensures
        bar_filled(u1, total, inner) <= bar_filled(u2, total, inner) <= inner,
        u2 >= total ==> bar_filled(u2, total, inner) == inner,
        u1 <= 0 ==> bar_filled(u1, total, inner) == 0,
{
    let c1: int = if u1 < 0 {
        0
    } else if u1 > total {
        total as int
    } else {
        u1 as int
    };
    let c2: int = if u2 < 0 {
        0
    } else if u2 > total {
        total as int
    } else {
        u2 as int
    };
    assert(0 <= c1 * inner <= c2 * inner <= total * inner) by (nonlinear_arith)
        requires
            0 <= c1 <= c2 <= total,
            0 <= inner,
    ;
    vstd::arithmetic::div_mod::lemma_div_is_ordered(c1 * inner, c2 * inner, total as int);
    vstd::arithmetic::div_mod::lemma_div_is_ordered(c2 * inner, total * inner, total as int);
    vstd::arithmetic::div_mod::lemma_div_multiples_vanish(inner as int, total as int);
    assert(total * inner == inner * total) by (nonlinear_arith);
    vstd::arithmetic::div_mod::lemma_div_pos_is_pos(c1 * inner, total as int);
    if u1 <= 0 {
        assert(c1 * inner == 0) by (nonlinear_arith)
            requires
                c1 == 0,
        ;
        vstd::arithmetic::div_mod::lemma_div_basics(total as int);
    }
}

/// Composing the panels keeps each inside its own place: a cell of the
/// dashboard outside the title row, the CPU grid's and the memory gauge's
/// rectangles, the sparkline's glyphs and the process table's rectangle is
/// blank.
pub proof fn lemma_dashboard_stays_inside(
    cores: Seq<u32>,
    procs: Seq<Process>,
    mem_used: i64,
    mem_total: i64,
    samples: Seq<u64>,
    i: int,
    j: int,
)
    ensures
        dashboard_frame(cores, procs, mem_used, mem_total, samples).wf(),
        dashboard_frame(cores, procs, mem_used, mem_total, samples).width == 60,
        dashboard_frame(cores, procs, mem_used, mem_total, samples).height == 10,
        !paint_area(Rect { x: 0, y: 0, w: 60, h: 1 }, i, j) && !paint_area(
            Rect { x: 0, y: 2, w: 30, h: 1 },
            i,
            j,
        ) && !(j == 2 && 31 <= i < 31 + samples.len()) && !paint_area(
            Rect { x: 0, y: 3, w: 60, h: 1 },
            i,
            j,
        ) && !paint_area(Rect { x: 0, y: 5, w: 60, h: 5 }, i, j) ==> dashboard_frame(
            cores,
            procs,
            mem_used,
            mem_total,
            samples,
        ).get(i, j) == blank_cell(),
{
    let blank = BufView::blank(60, 10);
    let title = shown(dashboard_title(), 60);
    let titled = write_chars(blank, 0, 0, title, 4);
    let grid_rect = Rect { x: 0, y: 2, w: 30, h: 1 };
    let gridded = cpu_grid_painted(titled, cores, grid_rect);
    let sparked = write_chars(gridded, 31, 2, spark_glyphs(samples), 2);
    let bar_rect = Rect { x: 0, y: 3, w: 60, h: 1 };
    let metered = memory_bar_painted(sparked, bar_rect, mem_used, mem_total);
    let table_rect = Rect { x: 0, y: 5, w: 60, h: 5 };
    lemma_filled_get(blank, blank_cell(), i, j);
    lemma_write_chars(blank, 0, 0, title, 4, i, j);
    lemma_cpu_grid_stays_inside(titled, cores, grid_rect, i, j);
    lemma_write_chars(gridded, 31, 2, spark_glyphs(samples), 2, i, j);
    lemma_memory_bar_stays_inside(sparked, bar_rect, mem_used, mem_total, i, j);
    lemma_table_stays_inside(metered, procs, table_rect, i, j);
    lemma_write_chars(blank, 0, 0, title, 4, 0, 0);
    lemma_write_chars(gridded, 31, 2, spark_glyphs(samples), 2, 0, 0);
}

/// The dashboard's title, gauge and table: row 0 holds the title (colour
/// 4); with a positive total, row 3 opens with `[` and closes with `]` at
/// column 59; rows 5 to 9 hold exactly the process table (header, then as
/// many processes as fit, on a blank background).
pub proof fn lemma_dashboard_rows(
    cores: Seq<u32>,
    procs: Seq<Process>,
    mem_used: i64,
    mem_total: i64,
    samples: Seq<u64>,
    i: int,
    j: int,
)
    ensures
        0 <= i < shown(dashboard_title(), 60).len() ==> dashboard_frame(
            cores,
            procs,
            mem_used,
            mem_total,
            samples,
        ).get(i, 0) == (Cell { ch: shown(dashboard_title(), 60)[i], fg: 4, bg: 0 }),
        mem_total > 0 ==> dashboard_frame(cores, procs, mem_used, mem_total, samples).get(0, 3)
            == (Cell { ch: '[', fg: 6, bg: 0 }),
        mem_total > 0 ==> dashboard_frame(cores, procs, mem_used, mem_total, samples).get(59, 3)
            == (Cell { ch: ']', fg: 6, bg: 0 }),
        5 <= j < 10 && 0 <= i < 60 ==> dashboard_frame(
            cores,
            procs,
            mem_used,
            mem_total,
            samples,
        ).get(i, j) == table_painted(
            BufView::blank(60, 10),
            procs,
            Rect { x: 0, y: 5, w: 60, h: 5 },
        ).get(i, j),
{
    let blank = BufView::blank(60, 10);
    let title = shown(dashboard_title(), 60);
    let titled = write_chars(blank, 0, 0, title, 4);
    let grid_rect = Rect { x: 0, y: 2, w: 30, h: 1 };
    let gridded = cpu_grid_painted(titled, cores, grid_rect);
    let sparked = write_chars(gridded, 31, 2, spark_glyphs(samples), 2);
    let bar_rect = Rect { x: 0, y: 3, w: 60, h: 1 };
    let metered = memory_bar_painted(sparked, bar_rect, mem_used, mem_total);
    let table_rect = Rect { x: 0, y: 5, w: 60, h: 5 };
    lemma_write_chars(blank, 0, 0, title, 4, 0, 0);
    lemma_cpu_grid_stays_inside(titled, cores, grid_rect, 0, 0);
    lemma_write_chars(gridded, 31, 2, spark_glyphs(samples), 2, 0, 0);
    lemma_memory_bar_stays_inside(sparked, bar_rect, mem_used, mem_total, 0, 0);
    lemma_memory_bar_cells(sparked, bar_rect, mem_used, mem_total, 0, 3);
    lemma_memory_bar_cells(sparked, bar_rect, mem_used, mem_total, 59, 3);
    lemma_table_stays_inside(metered, procs, table_rect, 0, 3);
    lemma_table_stays_inside(metered, procs, table_rect, 59, 3);
    lemma_dashboard_stays_inside(cores, procs, mem_used, mem_total, samples, i, j);
    lemma_filled_get(blank, blank_cell(), i, j);
    lemma_write_chars(blank, 0, 0, title, 4, i, j);
    lemma_cpu_grid_stays_inside(titled, cores, grid_rect, i, j);
    lemma_write_chars(gridded, 31, 2, spark_glyphs(samples), 2, i, j);
    lemma_memory_bar_stays_inside(sparked, bar_rect, mem_used, mem_total, i, j);
    lemma_table_cells(metered, procs, table_rect, i, j);
    lemma_table_cells(blank, procs, table_rect, i, j);
    lemma_write_chars(blank, 0, 0, title, 4, i, 0);
    lemma_cpu_grid_stays_inside(titled, cores, grid_rect, i, 0);
    lemma_write_chars(gridded, 31, 2, spark_glyphs(samples), 2, i, 0);
    lemma_memory_bar_stays_inside(sparked, bar_rect, mem_used, mem_total, i, 0);
    lemma_table_stays_inside(metered, procs, table_rect, i, 0);
}

/// The writes of `grid_painted` for the first `k` cores.
pub open spec fn grid_writes(cores: Seq<u32>, r: Rect, k: nat) -> Seq<CellWrite>
    decreases k,
{
    if k == 0 || k > cores.len() {
        seq![]
    } else {
        let i = (k - 1) as nat;
        let cw = core_width(cores.len(), r.w as nat);
        let start = i * cw;
        let span: nat = if start < r.w {
            if cw <= r.w - start {
                cw
            } else {
                (r.w - start) as nat
            }
        } else {
            0
        };
        grid_writes(cores, r, i) + span_writes(
            r.y as int,
            r.x + start,
            span,
            Cell { ch: '█', fg: load_colour(cores[i as int]), bg: 0 },
        )
    }
}

proof fn lemma_grid_as_writes(b: BufView, cores: Seq<u32>, r: Rect, k: nat)
    ensures
        grid_painted(b, cores, r, k) == apply_writes(b, grid_writes(cores, r, k)),
    decreases k,
{
    if k > 0 && k <= cores.len() {
        let i = (k - 1) as nat;
        let cw = core_width(cores.len(), r.w as nat);
        let start = i * cw;
        let span: nat = if start < r.w {
            if cw <= r.w - start {
                cw
            } else {
                (r.w - start) as nat
            }
        } else {
            0
        };
        let c = Cell { ch: '█', fg: load_colour(cores[i as int]), bg: 0 };
        lemma_grid_as_writes(b, cores, r, i);
        lemma_fill_span_as_writes(grid_painted(b, cores, r, i), r.y as int, r.x + start, span, c);
        lemma_apply_writes_append(b, grid_writes(cores, r, i), span_writes(r.y as int, r.x + start, span, c));
    }
}

/// Painting a CPU grid a second time into the same rectangle changes nothing.
pub proof fn lemma_cpu_grid_idempotent(b: BufView, cores: Seq<u32>, r: Rect)
    requires
        b.wf(),
    ensures
        cpu_grid_painted(cpu_grid_painted(b, cores, r), cores, r) == cpu_grid_painted(b, cores, r),
{
    if cores.len() > 0 && r.w > 0 {
        let ws = grid_writes(cores, r, cores.len());
        lemma_grid_as_writes(b, cores, r, cores.len());
        lemma_grid_as_writes(apply_writes(b, ws), cores, r, cores.len());
        lemma_apply_writes_idempotent(b, ws);
    }
}

/// The writes of the process rows `0 .. k`.
pub open spec fn rows_writes(procs: Seq<Process>, r: Rect, k: nat) -> Seq<CellWrite>
    decreases k,
{
    if k == 0 {
        seq![]
    } else {
        rows_writes(procs, r, (k - 1) as nat) + char_writes(
            r.x as int,
            r.y + k,
            shown(process_row(procs[k - 1]), r.w),
            7,
        )
    }
}

/// The writes of `table_painted`.
pub open spec fn table_writes(procs: Seq<Process>, r: Rect) -> Seq<CellWrite> {
    char_writes(r.x as int, r.y as int, shown(header_text(), r.w), 6) + rows_writes(
        procs,
        r,
        table_rows(r, procs.len()),
    )
}

proof fn lemma_rows_as_writes(b: BufView, procs: Seq<Process>, r: Rect, k: nat)
    ensures
        rows_painted(b, procs, r, k) == apply_writes(b, rows_writes(procs, r, k)),
    decreases k,
{
    if k > 0 {
        let text = shown(process_row(procs[k - 1]), r.w);
        lemma_rows_as_writes(b, procs, r, (k - 1) as nat);
        lemma_write_chars_as_writes(rows_painted(b, procs, r, (k - 1) as nat), r.x as int, r.y + k, text, 7);
        lemma_apply_writes_append(
            b,
            rows_writes(procs, r, (k - 1) as nat),
            char_writes(r.x as int, r.y + k, text, 7),
        );
    }
}

proof fn lemma_table_as_writes(b: BufView, procs: Seq<Process>, r: Rect)
    ensures
        table_painted(b, procs, r) == apply_writes(b, table_writes(procs, r)),
{
    let head = char_writes(r.x as int, r.y as int, shown(header_text(), r.w), 6);
    lemma_write_chars_as_writes(b, r.x as int, r.y as int, shown(header_text(), r.w), 6);
    lemma_rows_as_writes(apply_writes(b, head), procs, r, table_rows(r, procs.len()));
    lemma_apply_writes_append(b, head, rows_writes(procs, r, table_rows(r, procs.len())));
}

/// Painting a process table a second time into the same rectangle changes nothing.
pub proof fn lemma_table_idempotent(b: BufView, procs: Seq<Process>, r: Rect)
    requires
        b.wf(),
    ensures
        table_painted(table_painted(b, procs, r), procs, r) == table_painted(b, procs, r),
{
    let ws = table_writes(procs, r);
    lemma_table_as_writes(b, procs, r);
    lemma_table_as_writes(apply_writes(b, ws), procs, r);
    lemma_apply_writes_idempotent(b, ws);
}

/// The cell of gauge interior column `i`.
pub open spec fn bar_cell(i: int, filled: nat) -> Cell {
    if i < filled {
        Cell { ch: '█', fg: 2, bg: 0 }
    } else {
        Cell { ch: ' ', fg: 8, bg: 0 }
    }
}

/// The writes of `bar_cells`.
pub open spec fn bar_writes(x: int, y: int, filled: nat, k: nat) -> Seq<CellWrite>
    decreases k,
{
    if k == 0 {
        seq![]
    } else {
        bar_writes(x, y, filled, (k - 1) as nat).push(
            cell_write(x + 1 + (k - 1), y, bar_cell(k - 1, filled)),
        )
    }
}

proof fn lemma_bar_as_writes(b: BufView, x: int, y: int, filled: nat, k: nat)
    ensures
        bar_cells(b, x, y, filled, k) == apply_writes(b, bar_writes(x, y, filled, k)),
    decreases k,
{
    if k > 0 {
        lemma_bar_as_writes(b, x, y, filled, (k - 1) as nat);
        let ws = bar_writes(x, y, filled, (k - 1) as nat);
        assert(ws.push(cell_write(x + 1 + (k - 1), y, bar_cell(k - 1, filled))).drop_last() =~= ws);
    }
}

/// The writes of `memory_bar_painted`.
pub open spec fn memory_bar_writes(r: Rect, used: i64, total: i64) -> Seq<CellWrite> {
    if r.w < 2 || total <= 0 {
        seq![]
    } else {
        let inner = (r.w - 2) as nat;
        seq![
            cell_write(r.x as int, r.y as int, Cell { ch: '[', fg: 6, bg: 0 }),
            cell_write(r.x + r.w - 1, r.y as int, Cell { ch: ']', fg: 6, bg: 0 }),
        ] + bar_writes(r.x as int, r.y as int, bar_filled(used, total, inner), inner)
    }
}

/// Painting a memory gauge a second time into the same rectangle changes nothing.
pub proof fn lemma_memory_bar_idempotent(b: BufView, r: Rect, used: i64, total: i64)
    requires
        b.wf(),
    ensures
        memory_bar_painted(memory_bar_painted(b, r, used, total), r, used, total)
            == memory_bar_painted(b, r, used, total),
{
    if r.w >= 2 && total > 0 {
        let inner = (r.w - 2) as nat;
        let ends = seq![
            cell_write(r.x as int, r.y as int, Cell { ch: '[', fg: 6, bg: 0 }),
            cell_write(r.x + r.w - 1, r.y as int, Cell { ch: ']', fg: 6, bg: 0 }),
        ];
        let interior = bar_writes(r.x as int, r.y as int, bar_filled(used, total, inner), inner);
        let ws = ends + interior;
        assert forall|c: BufView| #[trigger] memory_bar_painted(c, r, used, total) == apply_writes(
            c,
            ws,
        ) by {
            assert(ends.drop_last() =~= seq![ends[0]]);
            assert(seq![ends[0]].drop_last() =~= Seq::<CellWrite>::empty());
            assert(apply_writes(c, Seq::<CellWrite>::empty()) == c);
            assert(apply_writes(c, seq![ends[0]]) == c.set(r.x as int, r.y as int, Cell { ch: '[', fg: 6, bg: 0 }));
            assert(apply_writes(c, ends) == apply_writes(c, seq![ends[0]]).set(
                r.x + r.w - 1,
                r.y as int,
                Cell { ch: ']', fg: 6, bg: 0 },
            ));
            let framed = apply_writes(c, ends);
            lemma_bar_as_writes(framed, r.x as int, r.y as int, bar_filled(used, total, inner), inner);
            lemma_apply_writes_append(c, ends, interior);
        }
        lemma_apply_writes_idempotent(b, ws);
    }
}

/// Marker line the panels demo prints when it finishes.
pub fn contract_marker() -> (s: &'static str)
    ensures
        s@ == "contract: tui-panels-v1 holds — OK"@,
{
    "contract: tui-panels-v1 holds — OK"
}

} // verus!
