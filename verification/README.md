# dotmax

Loading and progress bars drawn on a braille grid, with the exact parts
verified by Verus.

- `src/grid.rs` — the braille cell canvas: a `width x height` lattice of
  cells, each 2x4 braille dots, an optional glyph override and an optional
  color, modelled by `GridView`.
- `src/progress/draw.rs` — drawing helpers in dot space (dots, lines,
  rectangles, glyphs, block and shade ramps, tinted rows, smooth bars).
- `src/progress/mod.rs` — the style metadata trait, the palette and the
  coloring step of tinted styles.
- `src/progress/styles/` — the bundled styles theme by theme: their names,
  themes and descriptions, and every frame or algorithm of theirs that is
  exact (sieves, spirals, Pascal's triangle, Farey sequences, totients,
  Bresenham lines, Tetris wells, heart rows, staffs, keyboards, ...).
- `app/` — the demo program and the floating-point side of the bars:
  easing curves, the per-frame context, palette sampling and the geometry of
  the styles whose frames are computed in floating point.

Run the demo with a style name, e.g. `mario-run`; it animates the bar in the
terminal until interrupted.
