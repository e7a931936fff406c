//! Penrose / aperiodic-tiling sacred-geometry progress styles.

use vstd::prelude::*;
use crate::progress::ProgressStyle;
use crate::progress::draw;
use crate::grid::{lemma_gains_dot, lemma_gains_nothing, BrailleGrid};

verus! {

/// The `penrose-p3` style.
pub struct PenroseP3;

impl ProgressStyle for PenroseP3 {
    open spec fn style_name(&self) -> Seq<char> {
        "penrose-p3"@
    }

    open spec fn style_theme(&self) -> Seq<char> {
        "penrose"@
    }

    open spec fn style_description(&self) -> Seq<char> {
        "Penrose P3 rhombus tiling: Robinson-triangle deflation reveals fat (72°) \
         and thin (36°) rhombi generation by generation as progress rises; the \
         whole pattern rotates slowly with time"@
    }

    fn name(&self) -> (r: &str) {
        "penrose-p3"
    }

    fn theme(&self) -> (r: &str) {
        "penrose"
    }

    fn describe(&self) -> (r: &str) {
        "Penrose P3 rhombus tiling: Robinson-triangle deflation reveals fat (72°) \
         and thin (36°) rhombi generation by generation as progress rises; the \
         whole pattern rotates slowly with time"
    }
}

/// The `penrose-p2` style.
pub struct PenroseP2;

impl ProgressStyle for PenroseP2 {
    open spec fn style_name(&self) -> Seq<char> {
        "penrose-p2"@
    }

    open spec fn style_theme(&self) -> Seq<char> {
        "penrose"@
    }

    open spec fn style_description(&self) -> Seq<char> {
        "Penrose P2 kite & dart tiling: golden-triangle / golden-gnomon subdivision \
         reveals the kite-and-dart mosaic generation by generation; time animates \
         a gentle shimmer across revealed tiles"@
    }

    fn name(&self) -> (r: &str) {
        "penrose-p2"
    }

    fn theme(&self) -> (r: &str) {
        "penrose"
    }

    fn describe(&self) -> (r: &str) {
        "Penrose P2 kite & dart tiling: golden-triangle / golden-gnomon subdivision \
         reveals the kite-and-dart mosaic generation by generation; time animates \
         a gentle shimmer across revealed tiles"
    }
}

/// The `sun-pattern` style.
pub struct SunPattern;

impl ProgressStyle for SunPattern {
    open spec fn style_name(&self) -> Seq<char> {
        "sun-pattern"@
    }

    open spec fn style_theme(&self) -> Seq<char> {
        "penrose"@
    }

    open spec fn style_description(&self) -> Seq<char> {
        "Penrose sun: five kites sharing the central vertex, then the surrounding \
         dart ring, then outer kite rings — each concentric generation appears as \
         progress rises, pulsing gently with time"@
    }

    fn name(&self) -> (r: &str) {
        "sun-pattern"
    }

    fn theme(&self) -> (r: &str) {
        "penrose"
    }

    fn describe(&self) -> (r: &str) {
        "Penrose sun: five kites sharing the central vertex, then the surrounding \
         dart ring, then outer kite rings — each concentric generation appears as \
         progress rises, pulsing gently with time"
    }
}

/// The `girih-tiles` style.
pub struct GirihTiles;

impl ProgressStyle for GirihTiles {
    open spec fn style_name(&self) -> Seq<char> {
        "girih-tiles"@
    }

    open spec fn style_theme(&self) -> Seq<char> {
        "penrose"@
    }

    open spec fn style_description(&self) -> Seq<char> {
        "Islamic girih tile strapwork: a central 10-gon surrounded by pentagons \
         and bowties; interior strap lines reveal with progress, the whole pattern \
         rotating with time like a medieval mosque decoration"@
    }

    fn name(&self) -> (r: &str) {
        "girih-tiles"
    }

    fn theme(&self) -> (r: &str) {
        "penrose"
    }

    fn describe(&self) -> (r: &str) {
        "Islamic girih tile strapwork: a central 10-gon surrounded by pentagons \
         and bowties; interior strap lines reveal with progress, the whole pattern \
         rotating with time like a medieval mosque decoration"
    }
}

/// The `ammann-bars` style.
pub struct AmmannBars;

impl ProgressStyle for AmmannBars {
    open spec fn style_name(&self) -> Seq<char> {
        "ammann-bars"@
    }

    open spec fn style_theme(&self) -> Seq<char> {
        "penrose"@
    }

    open spec fn style_description(&self) -> Seq<char> {
        "Ammann bars: the five quasiperiodic stripe families that decorate every \
         Penrose P3 rhombus tiling, with long-L and short-S spacings in ratio PHI; \
         families reveal one by one as progress rises"@
    }

    fn name(&self) -> (r: &str) {
        "ammann-bars"
    }

    fn theme(&self) -> (r: &str) {
        "penrose"
    }

    fn describe(&self) -> (r: &str) {
        "Ammann bars: the five quasiperiodic stripe families that decorate every \
         Penrose P3 rhombus tiling, with long-L and short-S spacings in ratio PHI; \
         families reveal one by one as progress rises"
    }
}

/// The `debruijn-pentagrid` style.
pub struct DeBruijnPentagrid;

impl ProgressStyle for DeBruijnPentagrid {
    open spec fn style_name(&self) -> Seq<char> {
        "debruijn-pentagrid"@
    }

    open spec fn style_theme(&self) -> Seq<char> {
        "penrose"@
    }

    open spec fn style_description(&self) -> Seq<char> {
        "de Bruijn pentagrid: five families of quasiperiodic parallel lines at 72° \
         intervals whose dual gives a Penrose tiling; the grid weaves in with \
         progress and the dual rhombus vertices twinkle with time"@
    }

    fn name(&self) -> (r: &str) {
        "debruijn-pentagrid"
    }

    fn theme(&self) -> (r: &str) {
        "penrose"
    }

    fn describe(&self) -> (r: &str) {
        "de Bruijn pentagrid: five families of quasiperiodic parallel lines at 72° \
         intervals whose dual gives a Penrose tiling; the grid weaves in with \
         progress and the dual rhombus vertices twinkle with time"
    }
}

/// The `decagon-fractal` style.
pub struct DecagonFractal;

impl ProgressStyle for DecagonFractal {
    open spec fn style_name(&self) -> Seq<char> {
        "decagon-fractal"@
    }

    open spec fn style_theme(&self) -> Seq<char> {
        "penrose"@
    }

    open spec fn style_description(&self) -> Seq<char> {
        "Decagon fractal: a central 10-gon filled with rings of smaller 10-gons \
         at each recursion level, forming a self-similar quasicrystalline snowflake \
         that unfolds as progress rises"@
    }

    fn name(&self) -> (r: &str) {
        "decagon-fractal"
    }

    fn theme(&self) -> (r: &str) {
        "penrose"
    }

    fn describe(&self) -> (r: &str) {
        "Decagon fractal: a central 10-gon filled with rings of smaller 10-gons \
         at each recursion level, forming a self-similar quasicrystalline snowflake \
         that unfolds as progress rises"
    }
}

/// The `quasicrystal-diffraction` style.
pub struct QuasicrystalDiffraction;

impl ProgressStyle for QuasicrystalDiffraction {
    open spec fn style_name(&self) -> Seq<char> {
        "quasicrystal-diffraction"@
    }

    open spec fn style_theme(&self) -> Seq<char> {
        "penrose"@
    }

    open spec fn style_description(&self) -> Seq<char> {
        "Quasicrystal interference: sum of 5 plane waves at 72° intervals produces \
         a 10-fold diffraction pattern; a moving threshold cuts through the field as \
         progress rises, the whole pattern rotating slowly with time"@
    }

    fn name(&self) -> (r: &str) {
        "quasicrystal-diffraction"
    }

    fn theme(&self) -> (r: &str) {
        "penrose"
    }

    fn describe(&self) -> (r: &str) {
        "Quasicrystal interference: sum of 5 plane waves at 72° intervals produces \
         a 10-fold diffraction pattern; a moving threshold cuts through the field as \
         progress rises, the whole pattern rotating slowly with time"
    }
}

/// The `pinwheel-tiling` style.
pub struct PinwheelTiling;

impl ProgressStyle for PinwheelTiling {
    open spec fn style_name(&self) -> Seq<char> {
        "pinwheel-tiling"@
    }

    open spec fn style_theme(&self) -> Seq<char> {
        "penrose"@
    }

    open spec fn style_description(&self) -> Seq<char> {
        "Pinwheel tiling: a 1:2 right triangle substitutes into 5 smaller copies \
         at irrational rotations, filling the plane with triangles at every angle; \
         deflation generations bloom outward as progress rises"@
    }

    fn name(&self) -> (r: &str) {
        "pinwheel-tiling"
    }

    fn theme(&self) -> (r: &str) {
        "penrose"
    }

    fn describe(&self) -> (r: &str) {
        "Pinwheel tiling: a 1:2 right triangle substitutes into 5 smaller copies \
         at irrational rotations, filling the plane with triangles at every angle; \
         deflation generations bloom outward as progress rises"
    }
}

/// The `truchet-quasi` style.
pub struct TruchetQuasi;

impl ProgressStyle for TruchetQuasi {
    open spec fn style_name(&self) -> Seq<char> {
        "truchet-quasi"@
    }

    open spec fn style_theme(&self) -> Seq<char> {
        "penrose"@
    }

    open spec fn style_description(&self) -> Seq<char> {
        "Truchet-quasi: quarter-circle arcs placed in the fat and thin rhombi of a \
         Penrose-like quasiperiodic lattice; orientation is deterministically varied \
         so the arc flow never repeats, revealed tile by tile with progress"@
    }

    fn name(&self) -> (r: &str) {
        "truchet-quasi"
    }

    fn theme(&self) -> (r: &str) {
        "penrose"
    }

    fn describe(&self) -> (r: &str) {
        "Truchet-quasi: quarter-circle arcs placed in the fat and thin rhombi of a \
         Penrose-like quasiperiodic lattice; orientation is deterministically varied \
         so the arc flow never repeats, revealed tile by tile with progress"
    }
}

/// The dots Bresenham's line walk visits from `(x, y)` with error term `err`
/// toward `(x1, y1)`, with `dx = |x1 - x0|`, `dy = -|y1 - y0|`, step signs
/// `sx`, `sy`, and at most `fuel` more steps.
pub open spec fn bresenham_walk(
    x: int,
    y: int,
    err: int,
    x1: int,
    y1: int,
    dx: int,
    dy: int,
    sx: int,
    sy: int,
    fuel: nat,
) -> Seq<(int, int)>
    decreases fuel,
{
    if (x == x1 && y == y1) || fuel == 0 {
        seq![(x, y)]
    } else {
        let e2 = 2 * err;
        let x2 = if e2 >= dy { x + sx } else { x };
        let err1 = if e2 >= dy { err + dy } else { err };
        let y2 = if e2 <= dx { y + sy } else { y };
        let err2 = if e2 <= dx { err1 + dx } else { err1 };
        seq![(x, y)] + bresenham_walk(x2, y2, err2, x1, y1, dx, dy, sx, sy, (fuel - 1) as nat)
    }
}

/// The dots of the Bresenham line from `(x0, y0)` to `(x1, y1)`, with the
/// walk capped at `|x1 - x0| + |y1 - y0| + 2` steps.
pub open spec fn bresenham_line(x0: int, y0: int, x1: int, y1: int) -> Seq<(int, int)> {
    let dx = if x1 >= x0 { x1 - x0 } else { x0 - x1 };
    let dy = if y1 >= y0 { y0 - y1 } else { y1 - y0 };
    let sx = if x0 < x1 { 1int } else { -1int };
    let sy = if y0 < y1 { 1int } else { -1int };
    bresenham_walk(x0, y0, dx + dy, x1, y1, dx, dy, sx, sy, (dx - dy + 2) as nat)
}

/// `(px, py)` is within the bounding box of the segment.
pub open spec fn in_box(x0: int, y0: int, x1: int, y1: int, px: int, py: int) -> bool {
    &&& (if x0 <= x1 { x0 <= px <= x1 } else { x1 <= px <= x0 })
    &&& (if y0 <= y1 { y0 <= py <= y1 } else { y1 <= py <= y0 })
}

/// Two dots touch, edge or corner.
pub open spec fn adjacent(a: (int, int), b: (int, int)) -> bool {
    -1 <= a.0 - b.0 <= 1 && -1 <= a.1 - b.1 <= 1
}

/// At the far column with rows left, the error forbids another column step.
pub proof fn lemma_no_column_overshoot(dx: int, d: int, ky: int) by (nonlinear_arith)
    requires
        d > 0,
        0 <= ky < d,
        dx >= 0,
    ensures
        2 * (dx * (1 + ky) - d * (1 + dx)) < -d,
{
}

/// At the far row with columns left, the error forbids another row step.
pub proof fn lemma_no_row_overshoot(dx: int, d: int, kx: int) by (nonlinear_arith)
    requires
        dx > 0,
        0 <= kx < dx,
        d >= 0,
    ensures
        2 * (dx * (1 + d) - d * (1 + kx)) > dx,
{
}

/// Horizontal extent of the segment.
pub open spec fn span_x(x0: int, x1: int) -> int {
    if x1 >= x0 { x1 - x0 } else { x0 - x1 }
}

/// The range the error term of a Bresenham walk over spans `dx` and `d`
/// keeps: its double is at most `max(3dx - 2d, 2dx - d)` and at least
/// `min(2dx - 3d, dx - 2d)`, so within three times the longer span.
pub open spec fn error_in_range(dx: int, d: int, err: int) -> bool {
    &&& (2 * err <= 3 * dx - 2 * d || 2 * err <= 2 * dx - d)
    &&& (2 * err >= 2 * dx - 3 * d || 2 * err >= dx - 2 * d)
}

/// Step direction from `a` toward `b` (`-1` when they are equal).
pub open spec fn step_sign(a: int, b: int) -> int {
    if a < b { 1 } else { -1 }
}

/// The rest of the Bresenham line once `kx` columns and `ky` rows have been
/// taken: the walk resumed from that dot with the error term it then has.
pub open spec fn bresenham_resume(x0: int, y0: int, x1: int, y1: int, kx: int, ky: int, fuel: nat) -> Seq<(int, int)> {
    let dx = span_x(x0, x1);
    let d = span_x(y0, y1);
    bresenham_walk(
        x0 + step_sign(x0, x1) * kx,
        y0 + step_sign(y0, y1) * ky,
        dx * (1 + ky) - d * (1 + kx),
        x1,
        y1,
        dx,
        -d,
        step_sign(x0, x1),
        step_sign(y0, y1),
        fuel,
    )
}

/// A walk in progress ends at the far endpoint, stays in the bounding box
/// and moves one dot at a time.
pub proof fn lemma_bresenham_walk(x0: int, y0: int, x1: int, y1: int, kx: int, ky: int, fuel: nat)
    requires
        0 <= kx <= span_x(x0, x1),
        0 <= ky <= span_x(y0, y1),
        fuel >= span_x(x0, x1) - kx + span_x(y0, y1) - ky,
    ensures
        bresenham_resume(x0, y0, x1, y1, kx, ky, fuel).len() >= 1,
        bresenham_resume(x0, y0, x1, y1, kx, ky, fuel)[0] == (
            x0 + step_sign(x0, x1) * kx,
            y0 + step_sign(y0, y1) * ky,
        ),
        bresenham_resume(x0, y0, x1, y1, kx, ky, fuel).last() == (x1, y1),
        forall|i: int|
            0 <= i < bresenham_resume(x0, y0, x1, y1, kx, ky, fuel).len() ==> in_box(
                x0,
                y0,
                x1,
                y1,
                #[trigger] bresenham_resume(x0, y0, x1, y1, kx, ky, fuel)[i].0,
                bresenham_resume(x0, y0, x1, y1, kx, ky, fuel)[i].1,
            ),
        forall|i: int|
            0 <= i < bresenham_resume(x0, y0, x1, y1, kx, ky, fuel).len() - 1 ==> adjacent(
                #[trigger] bresenham_resume(x0, y0, x1, y1, kx, ky, fuel)[i],
                bresenham_resume(x0, y0, x1, y1, kx, ky, fuel)[i + 1],
            ),
    decreases fuel,
{
    let dx = span_x(x0, x1);
    let d = span_x(y0, y1);
    let sx = step_sign(x0, x1);
    let sy = step_sign(y0, y1);
    let x = x0 + sx * kx;
    let y = y0 + sy * ky;
    let err = dx * (1 + ky) - d * (1 + kx);
    let w = bresenham_resume(x0, y0, x1, y1, kx, ky, fuel);
    assert(x == x1 <==> kx == dx) by (nonlinear_arith)
        requires
            x == x0 + sx * kx,
            sx == (if x0 < x1 { 1int } else { -1int }),
            dx == (if x1 >= x0 { x1 - x0 } else { x0 - x1 }),
    ;
    assert(y == y1 <==> ky == d) by (nonlinear_arith)
        requires
            y == y0 + sy * ky,
            sy == (if y0 < y1 { 1int } else { -1int }),
            d == (if y1 >= y0 { y1 - y0 } else { y0 - y1 }),
    ;
    assert(in_box(x0, y0, x1, y1, x, y)) by (nonlinear_arith)
        requires
            x == x0 + sx * kx,
            sx == (if x0 < x1 { 1int } else { -1int }),
            dx == (if x1 >= x0 { x1 - x0 } else { x0 - x1 }),
            y == y0 + sy * ky,
            sy == (if y0 < y1 { 1int } else { -1int }),
            d == (if y1 >= y0 { y1 - y0 } else { y0 - y1 }),
            0 <= kx <= dx,
            0 <= ky <= d,
    ;
    if (x == x1 && y == y1) || fuel == 0 {
        assert(w == seq![(x, y)]);
    } else {
        let e2 = 2 * err;
        let stepx = e2 >= -d;
        let stepy = e2 <= dx;
        if kx == dx {
            lemma_no_column_overshoot(dx, d, ky);
        }
        if ky == d {
            lemma_no_row_overshoot(dx, d, kx);
        }
        let kx2 = if stepx { kx + 1 } else { kx };
        let ky2 = if stepy { ky + 1 } else { ky };
        let err2 = dx * (1 + ky2) - d * (1 + kx2);
        assert(err2 == (if stepy { (if stepx { err + -d } else { err }) + dx } else { (if stepx { err + -d } else { err }) })) by (nonlinear_arith)
            requires
                err == dx * (1 + ky) - d * (1 + kx),
                kx2 == (if stepx { kx + 1 } else { kx }),
                ky2 == (if stepy { ky + 1 } else { ky }),
                err2 == dx * (1 + ky2) - d * (1 + kx2),
        ;
        assert(x0 + sx * kx2 == (if stepx { x + sx } else { x })) by (nonlinear_arith)
            requires
                x == x0 + sx * kx,
                kx2 == (if stepx { kx + 1 } else { kx }),
        ;
        assert(y0 + sy * ky2 == (if stepy { y + sy } else { y })) by (nonlinear_arith)
            requires
                y == y0 + sy * ky,
                ky2 == (if stepy { ky + 1 } else { ky }),
        ;
        lemma_bresenham_walk(x0, y0, x1, y1, kx2, ky2, (fuel - 1) as nat);
        let rest = bresenham_resume(x0, y0, x1, y1, kx2, ky2, (fuel - 1) as nat);
        assert(w == seq![(x, y)] + rest);
        assert(w[0] == (x, y));
        assert forall|i: int| 0 <= i < w.len() implies in_box(x0, y0, x1, y1, #[trigger] w[i].0, w[i].1) by {
            if i > 0 {
                assert(w[i] == rest[i - 1]);
                assert(in_box(x0, y0, x1, y1, rest[i - 1].0, rest[i - 1].1));
            }
        }
        assert forall|i: int| 0 <= i < w.len() - 1 implies adjacent(#[trigger] w[i], w[i + 1]) by {
            if i == 0 {
                assert(w[1] == rest[0]);
            } else {
                assert(w[i] == rest[i - 1]);
                assert(w[i + 1] == rest[i]);
                assert(adjacent(rest[i - 1], rest[i]));
            }
        }
        assert(w.last() == rest.last());
    }
}

/// A walk in progress whose error term is in range visits one dot per
/// column still to take along the longer axis (per row when the rows are
/// more), then stops on the far endpoint.
proof fn lemma_bresenham_count(x0: int, y0: int, x1: int, y1: int, kx: int, ky: int, fuel: nat)
    requires
        0 <= kx <= span_x(x0, x1),
        0 <= ky <= span_x(y0, y1),
        fuel >= span_x(x0, x1) - kx + span_x(y0, y1) - ky,
        error_in_range(
            span_x(x0, x1),
            span_x(y0, y1),
            span_x(x0, x1) * (1 + ky) - span_x(y0, y1) * (1 + kx),
        ),
    ensures
        bresenham_resume(x0, y0, x1, y1, kx, ky, fuel).len() == (if span_x(x0, x1) >= span_x(y0, y1) {
            span_x(x0, x1) - kx
        } else {
            span_x(y0, y1) - ky
        }) + 1,
    decreases fuel,
{
    let dx = span_x(x0, x1);
    let d = span_x(y0, y1);
    let sx = step_sign(x0, x1);
    let sy = step_sign(y0, y1);
    let x = x0 + sx * kx;
    let y = y0 + sy * ky;
    let err = dx * (1 + ky) - d * (1 + kx);
    assert(x == x1 <==> kx == dx) by (nonlinear_arith)
        requires
            x == x0 + sx * kx,
            sx == (if x0 < x1 { 1int } else { -1int }),
            dx == (if x1 >= x0 { x1 - x0 } else { x0 - x1 }),
    ;
    assert(y == y1 <==> ky == d) by (nonlinear_arith)
        requires
            y == y0 + sy * ky,
            sy == (if y0 < y1 { 1int } else { -1int }),
            d == (if y1 >= y0 { y1 - y0 } else { y0 - y1 }),
    ;
    if kx == dx && ky == d {
        assert(bresenham_resume(x0, y0, x1, y1, kx, ky, fuel) == seq![(x, y)]);
    } else {
        if kx == dx {
            lemma_no_column_overshoot(dx, d, ky);
        }
        if ky == d {
            lemma_no_row_overshoot(dx, d, kx);
        }
        lemma_bresenham_step(x0, y0, x1, y1, kx, ky, fuel);
        let stepx = 2 * err >= -d;
        let stepy = 2 * err <= dx;
        let kx2 = if stepx { kx + 1 } else { kx };
        let ky2 = if stepy { ky + 1 } else { ky };
        let err2 = dx * (1 + ky2) - d * (1 + kx2);
        assert(err2 == (if stepy { (if stepx { err + -d } else { err }) + dx } else { (if stepx { err + -d } else { err }) })) by (nonlinear_arith)
            requires
                err == dx * (1 + ky) - d * (1 + kx),
                kx2 == (if stepx { kx + 1 } else { kx }),
                ky2 == (if stepy { ky + 1 } else { ky }),
                err2 == dx * (1 + ky2) - d * (1 + kx2),
        ;
        lemma_bresenham_count(x0, y0, x1, y1, kx2, ky2, (fuel - 1) as nat);
    }
}

/// The Bresenham line starts at its first endpoint, ends at its second,
/// stays within their bounding box, never skips a dot, and has one dot per
/// step along the longer axis: `max(|x1 - x0|, |y1 - y0|) + 1` dots.
pub proof fn lemma_bresenham_line(x0: int, y0: int, x1: int, y1: int)
    ensures
        bresenham_line(x0, y0, x1, y1).len() >= 1,
        bresenham_line(x0, y0, x1, y1).len() == (if span_x(x0, x1) >= span_x(y0, y1) {
            span_x(x0, x1)
        } else {
            span_x(y0, y1)
        }) + 1,
        bresenham_line(x0, y0, x1, y1)[0] == (x0, y0),
        bresenham_line(x0, y0, x1, y1).last() == (x1, y1),
        forall|i: int|
            0 <= i < bresenham_line(x0, y0, x1, y1).len() ==> in_box(
                x0,
                y0,
                x1,
                y1,
                #[trigger] bresenham_line(x0, y0, x1, y1)[i].0,
                bresenham_line(x0, y0, x1, y1)[i].1,
            ),
        forall|i: int|
            0 <= i < bresenham_line(x0, y0, x1, y1).len() - 1 ==> adjacent(
                #[trigger] bresenham_line(x0, y0, x1, y1)[i],
                bresenham_line(x0, y0, x1, y1)[i + 1],
            ),
{
    let dx = span_x(x0, x1);
    let d = span_x(y0, y1);
    let sx = step_sign(x0, x1);
    let sy = step_sign(y0, y1);
    assert(dx * (1 + 0) - d * (1 + 0) == dx + -d && x0 + sx * 0 == x0 && y0 + sy * 0 == y0) by (nonlinear_arith);
    lemma_bresenham_walk(x0, y0, x1, y1, 0, 0, (dx + d + 2) as nat);
    lemma_bresenham_count(x0, y0, x1, y1, 0, 0, (dx + d + 2) as nat);
    assert(bresenham_line(x0, y0, x1, y1) == bresenham_resume(x0, y0, x1, y1, 0, 0, (dx + d + 2) as nat));
}

/// One step of a walk in progress: the dot it is on, then the walk resumed
/// with one more column and/or row taken, never past the far endpoint.
pub proof fn lemma_bresenham_step(x0: int, y0: int, x1: int, y1: int, kx: int, ky: int, fuel: nat)
    requires
        0 <= kx <= span_x(x0, x1),
        0 <= ky <= span_x(y0, y1),
        fuel > 0,
        kx < span_x(x0, x1) || ky < span_x(y0, y1),
    ensures
        ({
            let dx = span_x(x0, x1);
            let d = span_x(y0, y1);
            let err = dx * (1 + ky) - d * (1 + kx);
            let kx2 = if 2 * err >= -d { kx + 1 } else { kx };
            let ky2 = if 2 * err <= dx { ky + 1 } else { ky };
            &&& kx2 <= dx
            &&& ky2 <= d
            &&& kx2 + ky2 > kx + ky
            &&& bresenham_resume(x0, y0, x1, y1, kx, ky, fuel) == seq![(x0 + step_sign(x0, x1) * kx, y0 + step_sign(y0, y1) * ky)]
                + bresenham_resume(x0, y0, x1, y1, kx2, ky2, (fuel - 1) as nat)
        }),
{
    let dx = span_x(x0, x1);
    let d = span_x(y0, y1);
    let sx = step_sign(x0, x1);
    let sy = step_sign(y0, y1);
    let x = x0 + sx * kx;
    let y = y0 + sy * ky;
    let err = dx * (1 + ky) - d * (1 + kx);
    assert(x == x1 <==> kx == dx) by (nonlinear_arith)
        requires
            x == x0 + sx * kx,
            sx == (if x0 < x1 { 1int } else { -1int }),
            dx == (if x1 >= x0 { x1 - x0 } else { x0 - x1 }),
    ;
    assert(y == y1 <==> ky == d) by (nonlinear_arith)
        requires
            y == y0 + sy * ky,
            sy == (if y0 < y1 { 1int } else { -1int }),
            d == (if y1 >= y0 { y1 - y0 } else { y0 - y1 }),
    ;
    let e2 = 2 * err;
    let stepx = e2 >= -d;
    let stepy = e2 <= dx;
    if kx == dx {
        lemma_no_column_overshoot(dx, d, ky);
    }
    if ky == d {
        lemma_no_row_overshoot(dx, d, kx);
    }
    let kx2 = if stepx { kx + 1 } else { kx };
    let ky2 = if stepy { ky + 1 } else { ky };
    let err2 = dx * (1 + ky2) - d * (1 + kx2);
    assert(err2 == (if stepy { (if stepx { err + -d } else { err }) + dx } else { (if stepx { err + -d } else { err }) })) by (nonlinear_arith)
        requires
            err == dx * (1 + ky) - d * (1 + kx),
            kx2 == (if stepx { kx + 1 } else { kx }),
            ky2 == (if stepy { ky + 1 } else { ky }),
            err2 == dx * (1 + ky2) - d * (1 + kx2),
    ;
    assert(x0 + sx * kx2 == (if stepx { x + sx } else { x })) by (nonlinear_arith)
        requires
            x == x0 + sx * kx,
            kx2 == (if stepx { kx + 1 } else { kx }),
    ;
    assert(y0 + sy * ky2 == (if stepy { y + sy } else { y })) by (nonlinear_arith)
        requires
            y == y0 + sy * ky,
            ky2 == (if stepy { ky + 1 } else { ky }),
    ;
}

/// Bresenham line rasteriser from `(x0, y0)` to `(x1, y1)`. Out-of-bounds
/// dots are silently discarded. The doubled error term stays within three
/// times the longer span, so spans up to `2^29` dots keep it in `i32`.
pub fn bresenham(grid: &mut BrailleGrid, x0: i32, y0: i32, x1: i32, y1: i32)
    requires
        old(grid)@.wf(),
        span_x(x0 as int, x1 as int) <= 0x2000_0000,
        span_x(y0 as int, y1 as int) <= 0x2000_0000,
    ensures
        old(grid)@.gains_dots(
            final(grid)@,
            (|px: int, py: int| bresenham_line(x0 as int, y0 as int, x1 as int, y1 as int).contains((px, py))),
        ),
{
    let ghost g0 = grid@;
    let ghost line = bresenham_line(x0 as int, y0 as int, x1 as int, y1 as int);
    let ghost dxs = span_x(x0 as int, x1 as int);
    let ghost ds = span_x(y0 as int, y1 as int);
    let mut x = x0;
    let mut y = y0;
    let dx = if x1 >= x0 { x1 - x0 } else { x0 - x1 };
    let dy = if y1 >= y0 { y0 - y1 } else { y1 - y0 };
    let sx: i32 = if x0 < x1 { 1 } else { -1 };
    let sy: i32 = if y0 < y1 { 1 } else { -1 };
    let mut err = dx + dy;
    let max_steps = (dx - dy + 2) as usize;
    let mut steps: usize = 0;
    let ghost mut kx: int = 0;
    let ghost mut ky: int = 0;
    let ghost mut drawn: Seq<(int, int)> = Seq::empty();
    proof {
        lemma_gains_nothing(g0, |px: int, py: int| drawn.contains((px, py)));
        assert(dxs * (1 + 0) - ds * (1 + 0) == dxs + -ds && x0 + sx * 0 == x0 && y0 + sy * 0 == y0) by (nonlinear_arith);
        assert(line == drawn + bresenham_resume(x0 as int, y0 as int, x1 as int, y1 as int, 0, 0, max_steps as nat));
    }
    loop
        invariant_except_break
            grid@.wf(),
            g0.gains_dots(grid@, |px: int, py: int| drawn.contains((px, py))),
            dxs == span_x(x0 as int, x1 as int),
            ds == span_x(y0 as int, y1 as int),
            line == bresenham_line(x0 as int, y0 as int, x1 as int, y1 as int),
            dx == dxs,
            dy == -ds,
            dxs <= 0x2000_0000,
            ds <= 0x2000_0000,
            sx == step_sign(x0 as int, x1 as int),
            sy == step_sign(y0 as int, y1 as int),
            max_steps == dxs + ds + 2,
            steps <= max_steps,
            0 <= kx <= dxs,
            0 <= ky <= ds,
            x == x0 + sx * kx,
            y == y0 + sy * ky,
            err == dxs * (1 + ky) - ds * (1 + kx),
            error_in_range(dxs, ds, err as int),
            line == drawn + bresenham_resume(x0 as int, y0 as int, x1 as int, y1 as int, kx, ky, (max_steps - steps) as nat),
        ensures
            g0.gains_dots(grid@, |px: int, py: int| drawn.contains((px, py))),
            drawn == line,
        decreases max_steps - steps,
    {
        let ghost g = grid@;
        let ghost before = drawn;
        draw::dot_i(grid, x, y);
        proof {
            drawn = drawn.push((x as int, y as int));
            assert forall|px: int, py: int| g0.in_dots(px, py) implies (drawn.contains((px, py)) <==> (before.contains((px, py)) || (px == x && py == y))) by {
                if drawn.contains((px, py)) {
                    let i = choose|i: int| 0 <= i < drawn.len() && drawn[i] == (px, py);
                    if i < before.len() {
                        assert(before[i] == (px, py));
                    }
                }
                if before.contains((px, py)) {
                    let i = choose|i: int| 0 <= i < before.len() && before[i] == (px, py);
                    assert(drawn[i] == (px, py));
                }
                if px == x && py == y {
                    assert(drawn[before.len() as int] == (px, py));
                }
            }
            lemma_gains_dot(
                g0,
                g,
                x as int,
                y as int,
                |px: int, py: int| before.contains((px, py)),
                |px: int, py: int| drawn.contains((px, py)),
            );
        }
        if x == x1 && y == y1 {
            proof {
                assert(line == drawn);
            }
            break;
        }
        proof {
            assert(x == x1 <==> kx == dxs) by (nonlinear_arith)
                requires
                    x == x0 + sx * kx,
                    sx == (if x0 < x1 { 1int } else { -1int }),
                    dxs == (if x1 >= x0 { x1 - x0 } else { x0 - x1 }),
            ;
            assert(y == y1 <==> ky == ds) by (nonlinear_arith)
                requires
                    y == y0 + sy * ky,
                    sy == (if y0 < y1 { 1int } else { -1int }),
                    ds == (if y1 >= y0 { y1 - y0 } else { y0 - y1 }),
            ;
        }
        steps += 1;
        if steps > max_steps {
            proof {
                assert(line == drawn);
            }
            break;
        }
        proof {
            lemma_bresenham_step(x0 as int, y0 as int, x1 as int, y1 as int, kx, ky, (max_steps - (steps - 1)) as nat);
        }
        let e2 = 2 * err;
        let ghost kx2 = if 2 * err >= -ds { kx + 1 } else { kx };
        let ghost ky2 = if 2 * err <= dxs { ky + 1 } else { ky };
        proof {
            assert(x0 + sx * kx2 == (if e2 >= dy { x + sx } else { x as int })) by (nonlinear_arith)
                requires
                    x == x0 + sx * kx,
                    kx2 == (if e2 >= dy { kx + 1 } else { kx }),
            ;
            assert(y0 + sy * ky2 == (if e2 <= dx { y + sy } else { y as int })) by (nonlinear_arith)
                requires
                    y == y0 + sy * ky,
                    ky2 == (if e2 <= dx { ky + 1 } else { ky }),
            ;
            assert(in_box(x0 as int, y0 as int, x1 as int, y1 as int, x0 + sx * kx2, y0 + sy * ky2)) by (nonlinear_arith)
                requires
                    sx == (if x0 < x1 { 1int } else { -1int }),
                    dxs == (if x1 >= x0 { x1 - x0 } else { x0 - x1 }),
                    sy == (if y0 < y1 { 1int } else { -1int }),
                    ds == (if y1 >= y0 { y1 - y0 } else { y0 - y1 }),
                    0 <= kx2 <= dxs,
                    0 <= ky2 <= ds,
            ;
            assert(dxs * (1 + ky2) - ds * (1 + kx2) == (if e2 <= dx { (if e2 >= dy { err + dy } else { err as int }) + dx } else { (if e2 >= dy { err + dy } else { err as int }) })) by (nonlinear_arith)
                requires
                    err == dxs * (1 + ky) - ds * (1 + kx),
                    dy == -ds,
                    dx == dxs,
                    kx2 == (if e2 >= dy { kx + 1 } else { kx }),
                    ky2 == (if e2 <= dx { ky + 1 } else { ky }),
            ;
        }
        if e2 >= dy {
            err += dy;
            x += sx;
        }
        if e2 <= dx {
            err += dx;
            y += sy;
        }
        proof {
            kx = kx2;
            ky = ky2;
        }
    }
}

/// Draws the closed polygon through `pts`: an edge from each point to the
/// next, and from the last back to the first. Fewer than two points draw
/// nothing.
pub fn draw_poly(grid: &mut BrailleGrid, pts: &[(i32, i32)])
    requires
        old(grid)@.wf(),
        poly_fits(pts@),
    ensures
        pts.len() < 2 ==> final(grid)@ == old(grid)@,
        pts.len() >= 2 ==> old(grid)@.gains_dots(
            final(grid)@,
            (|px: int, py: int|
                exists|i: int|
                    0 <= i < pts.len() && #[trigger] poly_edge(pts@, i).contains((px, py))),
        ),
{
    let n = pts.len();
    if n < 2 {
        return;
    }
    let ghost g0 = grid@;
    proof {
        lemma_gains_nothing(g0, |px: int, py: int| exists|i: int| 0 <= i < 0 && #[trigger] poly_edge(pts@, i).contains((px, py)));
    }
    let mut i: usize = 0;
    while i < n
        invariant
            n == pts.len(),
            n >= 2,
            i <= n,
            grid@.wf(),
            poly_fits(pts@),
            g0.gains_dots(grid@, |px: int, py: int| exists|k: int| 0 <= k < i && #[trigger] poly_edge(pts@, k).contains((px, py))),
        decreases n - i,
    {
        let (x0, y0) = pts[i];
        let (x1, y1) = pts[(i + 1) % n];
        let ghost g = grid@;
        bresenham(grid, x0, y0, x1, y1);
        proof {
            assert(poly_edge(pts@, i as int) == bresenham_line(x0 as int, y0 as int, x1 as int, y1 as int));
            crate::grid::lemma_gains_trans(
                g0,
                g,
                grid@,
                |px: int, py: int| exists|k: int| 0 <= k < i && #[trigger] poly_edge(pts@, k).contains((px, py)),
                |px: int, py: int| bresenham_line(x0 as int, y0 as int, x1 as int, y1 as int).contains((px, py)),
                |px: int, py: int| exists|k: int| 0 <= k < i + 1 && #[trigger] poly_edge(pts@, k).contains((px, py)),
            );
        }
        i = i + 1;
    }
}

/// Each edge of the closed polygon through `pts`, the closing edge included,
/// spans at most `2^29` dots on both axes.
pub open spec fn poly_fits(pts: Seq<(i32, i32)>) -> bool {
    forall|i: int|
        0 <= i < pts.len() ==> span_x(#[trigger] pts[i].0 as int, pts[(i + 1) % (pts.len() as int)].0 as int)
            <= 0x2000_0000 && span_x(pts[i].1 as int, pts[(i + 1) % (pts.len() as int)].1 as int) <= 0x2000_0000
}

/// The Bresenham line of edge `i` of the closed polygon through `pts`.
pub open spec fn poly_edge(pts: Seq<(i32, i32)>, i: int) -> Seq<(int, int)> {
    let a = pts[i];
    let b = pts[(i + 1) % (pts.len() as int)];
    bresenham_line(a.0 as int, a.1 as int, b.0 as int, b.1 as int)
}

} // verus!
