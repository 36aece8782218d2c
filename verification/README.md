# tui-from-zero

A small terminal-UI toolkit, written in Verus and proved against its
contracts: a cell grid with a diff renderer, widgets that paint into
rectangles, an Elm-style counter, key dispatch, dashboard panels, a text
snapshot harness, a line-oriented scene format and a process dashboard.

## Layout

- `src/` — the verified library, one module per topic:
  - `cellbuffer` — cells, the grid (`CellBuffer`, modelled by `BufView`),
    the diff and full-repaint renderers and their ANSI serialisation;
  - `text` — characters, decimal numerals, whitespace and lines;
  - `widgets` — `Rect`, the `Widget` trait, `Block`, `Label`, `Container`
    and the border painter;
  - `counter`, `input` — the Elm-style counter and the key map;
  - `sparkline`, `panels`, `ptop` — the dashboard pieces;
  - `harness` — text snapshots and golden comparison;
  - `scene` — the `.prs` scene format.
- `tests/` — tests of the library.
- `app/` — the command-line front end (terminal I/O, key events, the live
  loop, floating-point sample generation).

## Units

The library works on integers only. Core loads are thousandths (`1000` is a
fully busy core), process CPU and memory shares are tenths of a percent
(`885` is 88.5%), memory sizes are tenths of a gigabyte and sparkline samples
are any non-negative integers (the front end uses hundredths).
