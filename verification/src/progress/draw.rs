//! Braille drawing helpers shared by every bundled bar.
//!
//! All coordinates are in dot space (the grid's `width*2 x height*4` lattice)
//! unless a helper says cells. Every setter silently ignores out-of-bounds
//! writes, so bars can be written without defensive bounds checks.

use vstd::prelude::*;
use crate::grid::{
    lemma_gains_dot, lemma_gains_nothing, lemma_gains_trans, lemma_with_char_at,
    lemma_with_color_at, BrailleGrid, Color, GridView,
};

verus! {

/// Horizontal block eighths, from empty to full.
pub open spec fn h_block(level: int) -> char {
    if level <= 0 { ' ' }
    else if level == 1 { '▏' }
    else if level == 2 { '▎' }
    else if level == 3 { '▍' }
    else if level == 4 { '▌' }
    else if level == 5 { '▋' }
    else if level == 6 { '▊' }
    else if level == 7 { '▉' }
    else { '█' }
}

/// Vertical block eighths, from empty to full.
pub open spec fn v_block(level: int) -> char {
    if level <= 0 { ' ' }
    else if level == 1 { '▁' }
    else if level == 2 { '▂' }
    else if level == 3 { '▃' }
    else if level == 4 { '▄' }
    else if level == 5 { '▅' }
    else if level == 6 { '▆' }
    else if level == 7 { '▇' }
    else { '█' }
}

/// The shading ramp, from empty to full.
pub open spec fn shade_char(level: int) -> char {
    if level <= 0 { ' ' }
    else if level == 1 { '░' }
    else if level == 2 { '▒' }
    else if level == 3 { '▓' }
    else { '█' }
}

/// The ramps are Unicode's block elements: level `k` of the horizontal
/// ramp is the left block `k` eighths wide, U+2590 - `k` (from U+258F, one
/// eighth, widening to U+2589, seven eighths); level `k` of the vertical
/// ramp is the lower block `k` eighths tall, U+2580 + `k`; level `k` of the
/// shading ramp is U+2590 + `k` (light, medium, dark shade). Full levels
/// give the full block U+2588, empty ones a space.
pub proof fn lemma_block_ramps(level: int)
    ensures
        level <= 0 ==> h_block(level) == ' ' && v_block(level) == ' ' && shade_char(level) == ' ',
        1 <= level <= 7 ==> h_block(level) as int == 0x2590 - level,
        1 <= level <= 7 ==> v_block(level) as int == 0x2580 + level,
        1 <= level <= 3 ==> shade_char(level) as int == 0x2590 + level,
        level >= 8 ==> h_block(level) as int == 0x2588 && v_block(level) as int == 0x2588,
        level >= 4 ==> shade_char(level) as int == 0x2588,
{
}

/// Horizontal block-eighths glyph for `level` eighths (`0..=8`).
pub fn h_block_glyph(level: usize) -> (c: char)
    requires
        level <= 8,
    ensures
        c == h_block(level as int),
{
    match level {
        0 => ' ',
        1 => '▏',
        2 => '▎',
        3 => '▍',
        4 => '▌',
        5 => '▋',
        6 => '▊',
        7 => '▉',
        _ => '█',
    }
}

/// Vertical block-eighths glyph for `level` eighths (`0..=8`).
pub fn v_block_glyph(level: usize) -> (c: char)
    requires
        level <= 8,
    ensures
        c == v_block(level as int),
{
    match level {
        0 => ' ',
        1 => '▁',
        2 => '▂',
        3 => '▃',
        4 => '▄',
        5 => '▅',
        6 => '▆',
        7 => '▇',
        _ => '█',
    }
}

/// Shading glyph for `level` (`0..=4`).
pub fn shade_glyph(level: usize) -> (c: char)
    requires
        level <= 4,
    ensures
        c == shade_char(level as int),
{
    match level {
        0 => ' ',
        1 => '░',
        2 => '▒',
        3 => '▓',
        _ => '█',
    }
}

/// Grid size in dots: `(width * 2, height * 4)`.
pub fn dot_dims(grid: &BrailleGrid) -> (r: (usize, usize))
    requires
        grid@.wf(),
    ensures
        r.0 == grid@.dot_width(),
        r.1 == grid@.dot_height(),
{
    let (w, h) = grid.dimensions();
    proof {
        crate::grid::lemma_cell_index_bounds(0, 0, w as int, h as int);
        lemma_dims_fit(w as int, h as int);
    }
    (w * 2, h * 4)
}

proof fn lemma_dims_fit(w: int, h: int) by (nonlinear_arith)
    requires
        w >= 1,
        h >= 1,
        4 * (w * h) <= isize::MAX,
    ensures
        2 * w <= usize::MAX,
        4 * h <= usize::MAX,
{
}

/// Sets a single dot, ignoring out-of-bounds coordinates.
pub fn dot(grid: &mut BrailleGrid, x: usize, y: usize)
    requires
        old(grid)@.wf(),
    ensures
        final(grid)@ == old(grid)@.with_dot(x as int, y as int),
        final(grid)@.wf(),
{
    let (w, h) = dot_dims(grid);
    if x < w && y < h {
        let _ = grid.set_dot(x, y);
    }
}

/// Sets a dot from signed coordinates, ignoring negatives and overflow.
pub fn dot_i(grid: &mut BrailleGrid, x: i32, y: i32)
    requires
        old(grid)@.wf(),
    ensures
        final(grid)@ == old(grid)@.with_dot(x as int, y as int),
        final(grid)@.wf(),
{
    if x >= 0 && y >= 0 {
        dot(grid, x as usize, y as usize);
    }
}

/// Horizontal run of dots from `x0` to `x1` (inclusive, either order) at row `y`.
pub fn hline(grid: &mut BrailleGrid, x0: usize, x1: usize, y: usize)
    requires
        old(grid)@.wf(),
    ensures
        old(grid)@.gains_dots(
            final(grid)@,
            (|px: int, py: int|
                py == y && (if x0 <= x1 { x0 <= px <= x1 } else { x1 <= px <= x0 })),
        ),
{
    let (lo, hi) = if x0 <= x1 { (x0, x1) } else { (x1, x0) };
    let ghost g0 = grid@;
    proof {
        lemma_gains_nothing(g0, |px: int, py: int| py == y && lo <= px < lo);
    }
    let mut x = lo;
    while x < hi
        invariant
            lo <= x <= hi,
            grid@.wf(),
            g0.gains_dots(grid@, |px: int, py: int| py == y && lo <= px < x),
        decreases hi - x,
    {
        let ghost g = grid@;
        dot(grid, x, y);
        proof {
            lemma_gains_dot(
                g0,
                g,
                x as int,
                y as int,
                |px: int, py: int| py == y && lo <= px < x,
                |px: int, py: int| py == y && lo <= px < x + 1,
            );
        }
        x = x + 1;
    }
    let ghost g = grid@;
    dot(grid, hi, y);
    proof {
        lemma_gains_dot(
            g0,
            g,
            hi as int,
            y as int,
            |px: int, py: int| py == y && lo <= px < hi,
            |px: int, py: int| py == y && (if x0 <= x1 { x0 <= px <= x1 } else { x1 <= px <= x0 }),
        );
    }
}

/// Vertical run of dots from `y0` to `y1` (inclusive, either order) at column `x`.
pub fn vline(grid: &mut BrailleGrid, x: usize, y0: usize, y1: usize)
    requires
        old(grid)@.wf(),
    ensures
        old(grid)@.gains_dots(
            final(grid)@,
            (|px: int, py: int|
                px == x && (if y0 <= y1 { y0 <= py <= y1 } else { y1 <= py <= y0 })),
        ),
{
    let (lo, hi) = if y0 <= y1 { (y0, y1) } else { (y1, y0) };
    let ghost g0 = grid@;
    proof {
        lemma_gains_nothing(g0, |px: int, py: int| px == x && lo <= py < lo);
    }
    let mut y = lo;
    while y < hi
        invariant
            lo <= y <= hi,
            grid@.wf(),
            g0.gains_dots(grid@, |px: int, py: int| px == x && lo <= py < y),
        decreases hi - y,
    {
        let ghost g = grid@;
        dot(grid, x, y);
        proof {
            lemma_gains_dot(
                g0,
                g,
                x as int,
                y as int,
                |px: int, py: int| px == x && lo <= py < y,
                |px: int, py: int| px == x && lo <= py < y + 1,
            );
        }
        y = y + 1;
    }
    let ghost g = grid@;
    dot(grid, x, hi);
    proof {
        lemma_gains_dot(
            g0,
            g,
            x as int,
            hi as int,
            |px: int, py: int| px == x && lo <= py < hi,
            |px: int, py: int| px == x && (if y0 <= y1 { y0 <= py <= y1 } else { y1 <= py <= y0 }),
        );
    }
}

/// Filled rectangle of dots: `[x0, x0+w) x [y0, y0+h)`.
pub fn fill_rect(grid: &mut BrailleGrid, x0: usize, y0: usize, w: usize, h: usize)
    requires
        old(grid)@.wf(),
        h == 0 || x0 + w <= usize::MAX,
        y0 + h <= usize::MAX,
    ensures
        old(grid)@.gains_dots(
            final(grid)@,
            (|px: int, py: int| x0 <= px < x0 + w && y0 <= py < y0 + h),
        ),
{
    let ghost g0 = grid@;
    proof {
        lemma_gains_nothing(g0, |px: int, py: int| x0 <= px < x0 + w && y0 <= py < y0);
    }
    let mut y = y0;
    while y < y0 + h
        invariant
            y0 <= y <= y0 + h,
            h == 0 || x0 + w <= usize::MAX,
            y0 + h <= usize::MAX,
            grid@.wf(),
            g0.gains_dots(grid@, |px: int, py: int| x0 <= px < x0 + w && y0 <= py < y),
        decreases y0 + h - y,
    {
        let ghost g_row = grid@;
        proof {
            lemma_gains_nothing(g_row, |px: int, py: int| py == y && x0 <= px < x0);
        }
        let mut x = x0;
        while x < x0 + w
            invariant
                x0 <= x <= x0 + w,
                y0 <= y < y0 + h,
                x0 + w <= usize::MAX,
                grid@.wf(),
                g_row.gains_dots(grid@, |px: int, py: int| py == y && x0 <= px < x),
            decreases x0 + w - x,
        {
            let ghost g = grid@;
            dot(grid, x, y);
            proof {
                lemma_gains_dot(
                    g_row,
                    g,
                    x as int,
                    y as int,
                    |px: int, py: int| py == y && x0 <= px < x,
                    |px: int, py: int| py == y && x0 <= px < x + 1,
                );
            }
            x = x + 1;
        }
        proof {
            lemma_gains_trans(
                g0,
                g_row,
                grid@,
                |px: int, py: int| x0 <= px < x0 + w && y0 <= py < y,
                |px: int, py: int| py == y && x0 <= px < x0 + w,
                |px: int, py: int| x0 <= px < x0 + w && y0 <= py < y + 1,
            );
        }
        y = y + 1;
    }
}

/// The dots on the border of the rectangle `[x0, x1] x [y0, y1]`.
pub open spec fn on_outline(x0: int, y0: int, x1: int, y1: int, px: int, py: int) -> bool {
    ||| ((py == y0 || py == y1) && x0 <= px <= x1)
    ||| ((px == x0 || px == x1) && y0 <= py <= y1)
}

/// Unfilled rectangle outline of dots: the border of `[x0, x0+w) x [y0, y0+h)`.
/// An empty rectangle draws nothing.
pub fn rect_outline(grid: &mut BrailleGrid, x0: usize, y0: usize, w: usize, h: usize)
    requires
        old(grid)@.wf(),
        w == 0 || h == 0 || (x0 + w <= usize::MAX && y0 + h <= usize::MAX),
    ensures
        (w == 0 || h == 0) ==> final(grid)@ == old(grid)@,
        (w != 0 && h != 0) ==> old(grid)@.gains_dots(
            final(grid)@,
            (|px: int, py: int| on_outline(x0 as int, y0 as int, x0 + w - 1, y0 + h - 1, px, py)),
        ),
{
    if w == 0 || h == 0 {
        return;
    }
    let (x1, y1) = (x0 + w - 1, y0 + h - 1);
    let ghost g0 = grid@;
    hline(grid, x0, x1, y0);
    let ghost g1 = grid@;
    hline(grid, x0, x1, y1);
    proof {
        lemma_gains_trans(
            g0,
            g1,
            grid@,
            |px: int, py: int| py == y0 && x0 <= px <= x1,
            |px: int, py: int| py == y1 && x0 <= px <= x1,
            |px: int, py: int| (py == y0 || py == y1) && x0 <= px <= x1,
        );
    }
    let ghost g2 = grid@;
    vline(grid, x0, y0, y1);
    proof {
        lemma_gains_trans(
            g0,
            g2,
            grid@,
            |px: int, py: int| (py == y0 || py == y1) && x0 <= px <= x1,
            |px: int, py: int| px == x0 && y0 <= py <= y1,
            |px: int, py: int| ((py == y0 || py == y1) && x0 <= px <= x1) || (px == x0 && y0 <= py <= y1),
        );
    }
    let ghost g3 = grid@;
    vline(grid, x1, y0, y1);
    proof {
        lemma_gains_trans(
            g0,
            g3,
            grid@,
            |px: int, py: int| ((py == y0 || py == y1) && x0 <= px <= x1) || (px == x0 && y0 <= py <= y1),
            |px: int, py: int| px == x1 && y0 <= py <= y1,
            |px: int, py: int| on_outline(x0 as int, y0 as int, x1 as int, y1 as int, px, py),
        );
    }
}

/// Tints cells `cell_x0..=cell_x1` of row `cell_y` with `color`, after
/// enabling color support. Cells outside the grid are skipped.
pub fn tint_row(grid: &mut BrailleGrid, cell_y: usize, cell_x0: usize, cell_x1: usize, color: Color)
    requires
        old(grid)@.wf(),
    ensures
        old(grid)@.gains_color(
            final(grid)@,
            (|x: int, y: int| y == cell_y && cell_x0 <= x <= cell_x1),
            color,
        ),
{
    grid.enable_color_support();
    let ghost g0 = grid@;
    let (w, h) = grid.dimensions();
    if cell_y >= h {
        return;
    }
    let hi = if cell_x1 < w - 1 { cell_x1 } else { w - 1 };
    if cell_x0 > hi {
        return;
    }
    let mut x = cell_x0;
    while x <= hi
        invariant
            cell_x0 <= x <= hi + 1,
            hi < w,
            w == g0.width,
            cell_y < g0.height,
            hi == (if cell_x1 < w - 1 { cell_x1 } else { (w - 1) as usize }),
            g0.gains_color(grid@, |px: int, py: int| py == cell_y && cell_x0 <= px < x, color),
        decreases hi + 1 - x,
    {
        let ghost g = grid@;
        let _ = grid.set_cell_color(x, cell_y, color);
        proof {
            assert forall|px: int, py: int| g0.in_cells(px, py) implies #[trigger] grid@.color_at(px, py) == (if py == cell_y
                && cell_x0 <= px < x + 1 {
                Some(color)
            } else {
                g0.color_at(px, py)
            }) by {
                lemma_with_color_at(g, x as int, cell_y as int, color, px, py);
            }
            lemma_with_color_at(g, x as int, cell_y as int, color, 0, 0);
        }
        x = x + 1;
    }
}

/// Places a glyph in cell `(cell_x, cell_y)`, overriding its dots; ignores
/// out-of-bounds cells.
pub fn glyph(grid: &mut BrailleGrid, cell_x: usize, cell_y: usize, c: char)
    requires
        old(grid)@.wf(),
    ensures
        final(grid)@.wf(),
        final(grid)@ == (if old(grid)@.in_cells(cell_x as int, cell_y as int) {
            old(grid)@.with_char(cell_x as int, cell_y as int, c)
        } else {
            old(grid)@
        }),
{
    let _ = grid.set_char(cell_x, cell_y, c);
}

/// Sets a cell to a vertical fill of `level` eighths (capped at 8).
pub fn vblock(grid: &mut BrailleGrid, cell_x: usize, cell_y: usize, level: usize)
    requires
        old(grid)@.wf(),
    ensures
        final(grid)@.wf(),
        final(grid)@ == (if old(grid)@.in_cells(cell_x as int, cell_y as int) {
            old(grid)@.with_char(cell_x as int, cell_y as int, v_block(level as int))
        } else {
            old(grid)@
        }),
{
    let l = if level < 8 { level } else { 8 };
    glyph(grid, cell_x, cell_y, v_block_glyph(l));
}

/// Shades a cell at coarse density `level` (capped at 4).
pub fn shade(grid: &mut BrailleGrid, cell_x: usize, cell_y: usize, level: usize)
    requires
        old(grid)@.wf(),
    ensures
        final(grid)@.wf(),
        final(grid)@ == (if old(grid)@.in_cells(cell_x as int, cell_y as int) {
            old(grid)@.with_char(cell_x as int, cell_y as int, shade_char(level as int))
        } else {
            old(grid)@
        }),
{
    let l = if level < 4 { level } else { 4 };
    glyph(grid, cell_x, cell_y, shade_glyph(l));
}

/// What a smooth bar of `eighths` eighth-cells shows in column `x` of its
/// row: full blocks up to `eighths / 8`, then one partial edge glyph.
pub open spec fn hbar_glyph(eighths: int, x: int) -> Option<char> {
    if 0 <= x < eighths / 8 {
        Some('█')
    } else if x == eighths / 8 && eighths % 8 > 0 {
        Some(h_block(eighths % 8))
    } else {
        None
    }
}

/// How many eighths of its cell a glyph of the horizontal ramp covers: a
/// full block all 8, the left blocks U+258F down to U+2589 one to seven,
/// anything else none.
pub open spec fn cell_eighths(g: Option<char>) -> int {
    match g {
        Some(c) => if c == '█' {
            8
        } else if 0x2589 <= c as int <= 0x258F {
            0x2590 - c as int
        } else {
            0
        },
        None => 0,
    }
}

/// Eighths covered by the first `n` cells of a smooth bar of `eighths`.
pub open spec fn bar_fill(eighths: int, n: nat) -> int
    decreases n,
{
    if n == 0 {
        0
    } else {
        bar_fill(eighths, (n - 1) as nat) + cell_eighths(hbar_glyph(eighths, n - 1))
    }
}

/// A smooth bar shows exactly its length: the first `n` cells of a bar of
/// `eighths` eighth-cells cover `eighths` eighths, or all `8n` of theirs
/// when the bar is longer.
pub proof fn lemma_hbar_fill(eighths: int, n: nat)
    requires
        eighths >= 0,
    ensures
        bar_fill(eighths, n) == (if eighths < 8 * n { eighths } else { 8 * n as int }),
    decreases n,
{
    if n > 0 {
        lemma_hbar_fill(eighths, (n - 1) as nat);
        lemma_block_ramps(eighths % 8);
        assert(eighths == 8 * (eighths / 8) + eighths % 8);
    }
}

/// The drawing step of a smooth horizontal bar in row `cell_y`: `eighths`
/// eighth-cells filled with full blocks and one partial edge glyph. Cells
/// past the grid's width are skipped; dots and colors are untouched.
pub fn hbar_eighths(grid: &mut BrailleGrid, cell_y: usize, eighths: usize)
    requires
        old(grid)@.wf(),
    ensures
        final(grid)@.wf(),
        final(grid)@.width == old(grid)@.width,
        final(grid)@.height == old(grid)@.height,
        final(grid)@.patterns == old(grid)@.patterns,
        final(grid)@.colors == old(grid)@.colors,
        forall|x: int, y: int|
            #[trigger] final(grid)@.char_at(x, y) == (if y == cell_y && old(grid)@.in_cells(x, y) && hbar_glyph(
                eighths as int,
                x,
            ) is Some {
                hbar_glyph(eighths as int, x)->0
            } else {
                old(grid)@.char_at(x, y)
            }),
{
    let ghost g0 = grid@;
    let (w, _) = grid.dimensions();
    let full = eighths / 8;
    let rem = eighths % 8;
    let stop = if full < w { full } else { w };
    let mut x: usize = 0;
    while x < stop
        invariant
            g0.wf(),
            grid@.wf(),
            w == g0.width,
            stop <= w,
            stop <= full,
            full == eighths / 8,
            x <= stop,
            grid@.width == g0.width,
            grid@.height == g0.height,
            grid@.patterns == g0.patterns,
            grid@.colors == g0.colors,
            forall|px: int, py: int|
                #[trigger] grid@.char_at(px, py) == (if py == cell_y && g0.in_cells(px, py) && 0 <= px < x {
                    '█'
                } else {
                    g0.char_at(px, py)
                }),
        decreases stop - x,
    {
        let ghost before = grid@;
        glyph(grid, x, cell_y, '█');
        proof {
            assert forall|px: int, py: int| #[trigger] grid@.char_at(px, py) == (if py == cell_y && g0.in_cells(px, py)
                && 0 <= px < x + 1 {
                '█'
            } else {
                g0.char_at(px, py)
            }) by {
                if before.in_cells(x as int, cell_y as int) {
                    lemma_with_char_at(before, x as int, cell_y as int, '█', px, py);
                }
            }
        }
        x = x + 1;
    }
    if rem > 0 && full < w {
        let ghost before = grid@;
        glyph(grid, full, cell_y, h_block_glyph(rem));
        proof {
            assert forall|px: int, py: int| #[trigger] grid@.char_at(px, py) == (if py == cell_y && g0.in_cells(px, py)
                && hbar_glyph(eighths as int, px) is Some {
                hbar_glyph(eighths as int, px)->0
            } else {
                g0.char_at(px, py)
            }) by {
                if before.in_cells(full as int, cell_y as int) {
                    lemma_with_char_at(before, full as int, cell_y as int, h_block(rem as int), px, py);
                }
            }
        }
    }
}

} // verus!
