//! Platonic solids and sacred-3D-form progress bars.

use vstd::prelude::*;
use crate::progress::ProgressStyle;
use crate::progress::draw;
use crate::progress::styles::penrose::{
    adjacent, error_in_range, in_box, lemma_no_column_overshoot, lemma_no_row_overshoot, span_x, step_sign,
};
use crate::grid::{lemma_gains_dot, lemma_gains_nothing, lemma_gains_trans, BrailleGrid};

verus! {

/// The `tetrahedron` style.
pub struct Tetrahedron;

impl ProgressStyle for Tetrahedron {
    open spec fn style_name(&self) -> Seq<char> {
        "tetrahedron"@
    }

    open spec fn style_theme(&self) -> Seq<char> {
        "platonic"@
    }

    open spec fn style_description(&self) -> Seq<char> {
        "Tetrahedron — the fire solid: 4 vertices and 6 edges assembling as progress grows, spinning on time"@
    }

    fn name(&self) -> (r: &str) {
        "tetrahedron"
    }

    fn theme(&self) -> (r: &str) {
        "platonic"
    }

    fn describe(&self) -> (r: &str) {
        "Tetrahedron — the fire solid: 4 vertices and 6 edges assembling as progress grows, spinning on time"
    }
}

/// The `cube` style.
pub struct Cube;

impl ProgressStyle for Cube {
    open spec fn style_name(&self) -> Seq<char> {
        "cube"@
    }

    open spec fn style_theme(&self) -> Seq<char> {
        "platonic"@
    }

    open spec fn style_description(&self) -> Seq<char> {
        "Hexahedron — the earth solid: 8-vertex cube with 12 edges revealed face-by-face as progress grows"@
    }

    fn name(&self) -> (r: &str) {
        "cube"
    }

    fn theme(&self) -> (r: &str) {
        "platonic"
    }

    fn describe(&self) -> (r: &str) {
        "Hexahedron — the earth solid: 8-vertex cube with 12 edges revealed face-by-face as progress grows"
    }
}

/// The `octahedron` style.
pub struct Octahedron;

impl ProgressStyle for Octahedron {
    open spec fn style_name(&self) -> Seq<char> {
        "octahedron"@
    }

    open spec fn style_theme(&self) -> Seq<char> {
        "platonic"@
    }

    open spec fn style_description(&self) -> Seq<char> {
        "Octahedron — the air solid: 6-vertex double-pyramid with 12 equilateral-triangle edges spinning on time"@
    }

    fn name(&self) -> (r: &str) {
        "octahedron"
    }

    fn theme(&self) -> (r: &str) {
        "platonic"
    }

    fn describe(&self) -> (r: &str) {
        "Octahedron — the air solid: 6-vertex double-pyramid with 12 equilateral-triangle edges spinning on time"
    }
}

/// The `dodecahedron` style.
pub struct Dodecahedron;

impl ProgressStyle for Dodecahedron {
    open spec fn style_name(&self) -> Seq<char> {
        "dodecahedron"@
    }

    open spec fn style_theme(&self) -> Seq<char> {
        "platonic"@
    }

    open spec fn style_description(&self) -> Seq<char> {
        "Dodecahedron — the aether solid: 20 golden-ratio vertices and 30 pentagonal edges spinning and assembling"@
    }

    fn name(&self) -> (r: &str) {
        "dodecahedron"
    }

    fn theme(&self) -> (r: &str) {
        "platonic"
    }

    fn describe(&self) -> (r: &str) {
        "Dodecahedron — the aether solid: 20 golden-ratio vertices and 30 pentagonal edges spinning and assembling"
    }
}

/// The `icosahedron` style.
pub struct Icosahedron;

impl ProgressStyle for Icosahedron {
    open spec fn style_name(&self) -> Seq<char> {
        "icosahedron"@
    }

    open spec fn style_theme(&self) -> Seq<char> {
        "platonic"@
    }

    open spec fn style_description(&self) -> Seq<char> {
        "Icosahedron — the water solid: 12 golden-ratio vertices forming 30 equilateral-triangle edges, spinning on time"@
    }

    fn name(&self) -> (r: &str) {
        "icosahedron"
    }

    fn theme(&self) -> (r: &str) {
        "platonic"
    }

    fn describe(&self) -> (r: &str) {
        "Icosahedron — the water solid: 12 golden-ratio vertices forming 30 equilateral-triangle edges, spinning on time"
    }
}

/// The `merkaba` style.
pub struct Merkaba;

impl ProgressStyle for Merkaba {
    open spec fn style_name(&self) -> Seq<char> {
        "merkaba"@
    }

    open spec fn style_theme(&self) -> Seq<char> {
        "platonic"@
    }

    open spec fn style_description(&self) -> Seq<char> {
        "Merkaba (star-tetrahedron): two interlocked tetrahedra counter-rotating — the light-body vehicle of sacred geometry"@
    }

    fn name(&self) -> (r: &str) {
        "merkaba"
    }

    fn theme(&self) -> (r: &str) {
        "platonic"
    }

    fn describe(&self) -> (r: &str) {
        "Merkaba (star-tetrahedron): two interlocked tetrahedra counter-rotating — the light-body vehicle of sacred geometry"
    }
}

/// The `star-octangulum` style.
pub struct StarOctangulum;

impl ProgressStyle for StarOctangulum {
    open spec fn style_name(&self) -> Seq<char> {
        "star-octangulum"@
    }

    open spec fn style_theme(&self) -> Seq<char> {
        "platonic"@
    }

    open spec fn style_description(&self) -> Seq<char> {
        "Stella octangula: two tetrahedra dual to each other inscribed in an octahedron — eight triangular spikes, one rotation axis"@
    }

    fn name(&self) -> (r: &str) {
        "star-octangulum"
    }

    fn theme(&self) -> (r: &str) {
        "platonic"
    }

    fn describe(&self) -> (r: &str) {
        "Stella octangula: two tetrahedra dual to each other inscribed in an octahedron — eight triangular spikes, one rotation axis"
    }
}

/// The `cuboctahedron` style.
pub struct Cuboctahedron;

impl ProgressStyle for Cuboctahedron {
    open spec fn style_name(&self) -> Seq<char> {
        "cuboctahedron"@
    }

    open spec fn style_theme(&self) -> Seq<char> {
        "platonic"@
    }

    open spec fn style_description(&self) -> Seq<char> {
        "Cuboctahedron — vector equilibrium / Metatron's core: 12 vertices at edge-midpoints of a cube, 8 triangles and 6 squares"@
    }

    fn name(&self) -> (r: &str) {
        "cuboctahedron"
    }

    fn theme(&self) -> (r: &str) {
        "platonic"
    }

    fn describe(&self) -> (r: &str) {
        "Cuboctahedron — vector equilibrium / Metatron's core: 12 vertices at edge-midpoints of a cube, 8 triangles and 6 squares"
    }
}

/// The `nested-solids` style.
pub struct NestedSolids;

impl ProgressStyle for NestedSolids {
    open spec fn style_name(&self) -> Seq<char> {
        "nested-solids"@
    }

    open spec fn style_theme(&self) -> Seq<char> {
        "platonic"@
    }

    open spec fn style_description(&self) -> Seq<char> {
        "Nested duals: a cube spinning inside its dual octahedron — both rotating at different rates, revealed in two waves"@
    }

    fn name(&self) -> (r: &str) {
        "nested-solids"
    }

    fn theme(&self) -> (r: &str) {
        "platonic"
    }

    fn describe(&self) -> (r: &str) {
        "Nested duals: a cube spinning inside its dual octahedron — both rotating at different rates, revealed in two waves"
    }
}

/// Face centres of the dodecahedron (approximate — used as spike bases).
/// The dodecahedron has 12 pentagonal faces; their centres lie along the 12
/// icosahedron vertices (the dual relationship).  We scale icosahedron verts
/// to get spike tips.
pub struct StellatedDodecahedron;

impl ProgressStyle for StellatedDodecahedron {
    open spec fn style_name(&self) -> Seq<char> {
        "stellated-dodecahedron"@
    }

    open spec fn style_theme(&self) -> Seq<char> {
        "platonic"@
    }

    open spec fn style_description(&self) -> Seq<char> {
        "Great stellated dodecahedron: dodecahedron with 12 pentagonal star-pyramids erupting from each face — a cosmic sea-urchin"@
    }

    fn name(&self) -> (r: &str) {
        "stellated-dodecahedron"
    }

    fn theme(&self) -> (r: &str) {
        "platonic"
    }

    fn describe(&self) -> (r: &str) {
        "Great stellated dodecahedron: dodecahedron with 12 pentagonal star-pyramids erupting from each face — a cosmic sea-urchin"
    }
}

/// The `unfolding-net` style.
pub struct UnfoldingNet;

impl ProgressStyle for UnfoldingNet {
    open spec fn style_name(&self) -> Seq<char> {
        "unfolding-net"@
    }

    open spec fn style_theme(&self) -> Seq<char> {
        "platonic"@
    }

    open spec fn style_description(&self) -> Seq<char> {
        "Cube net: a cross-shaped flat net folds progressively into a 3-D cube as progress advances — geometry becoming solid"@
    }

    fn name(&self) -> (r: &str) {
        "unfolding-net"
    }

    fn theme(&self) -> (r: &str) {
        "platonic"
    }

    fn describe(&self) -> (r: &str) {
        "Cube net: a cross-shaped flat net folds progressively into a 3-D cube as progress advances — geometry becoming solid"
    }
}

/// The dots the edge walk visits from `(x, y)` with error term `err`
/// toward `(x1, y1)`, `dx = |x1 - x0|`, `dy = |y1 - y0|`, in at most `fuel`
/// more iterations (one dot each).
pub open spec fn edge_walk(
    x: int,
    y: int,
    err: int,
    x1: int,
    y1: int,
    dx: int,
    dy: int,
    sx: int,
    sy: int,
    fuel: nat,
) -> Seq<(int, int)>
    decreases fuel,
{
    if fuel == 0 {
        Seq::empty()
    } else if x == x1 && y == y1 {
        seq![(x, y)]
    } else {
        let e2 = 2 * err;
        let x2 = if e2 > -dy { x + sx } else { x };
        let err1 = if e2 > -dy { err - dy } else { err };
        let y2 = if e2 < dx { y + sy } else { y };
        let err2 = if e2 < dx { err1 + dx } else { err1 };
        seq![(x, y)] + edge_walk(x2, y2, err2, x1, y1, dx, dy, sx, sy, (fuel - 1) as nat)
    }
}

/// Most dots one edge is drawn with.
pub open spec fn edge_step_cap(x0: int, y0: int, x1: int, y1: int) -> nat {
    let steps = span_x(x0, x1) + span_x(y0, y1) + 2;
    (if steps < 400 { steps } else { 400 }) as nat
}

/// The dots of the edge from `(x0, y0)` to `(x1, y1)`: Bresenham's walk,
/// cut off after 400 dots.
pub open spec fn edge_line(x0: int, y0: int, x1: int, y1: int) -> Seq<(int, int)> {
    let dx = span_x(x0, x1);
    let dy = span_x(y0, y1);
    edge_walk(x0, y0, dx - dy, x1, y1, dx, dy, step_sign(x0, x1), step_sign(y0, y1), edge_step_cap(x0, y0, x1, y1))
}

/// The rest of an edge once `kx` columns and `ky` rows have been taken.
pub open spec fn edge_resume(x0: int, y0: int, x1: int, y1: int, kx: int, ky: int, fuel: nat) -> Seq<(int, int)> {
    let dx = span_x(x0, x1);
    let d = span_x(y0, y1);
    edge_walk(
        x0 + step_sign(x0, x1) * kx,
        y0 + step_sign(y0, y1) * ky,
        dx * (1 + ky) - d * (1 + kx),
        x1,
        y1,
        dx,
        d,
        step_sign(x0, x1),
        step_sign(y0, y1),
        fuel,
    )
}

/// One iteration of the edge walk: the dot it is on, then the walk resumed
/// with one more column and/or row taken, never past the far endpoint.
pub proof fn lemma_edge_step(x0: int, y0: int, x1: int, y1: int, kx: int, ky: int, fuel: nat)
    requires
        0 <= kx <= span_x(x0, x1),
        0 <= ky <= span_x(y0, y1),
        fuel > 0,
        kx < span_x(x0, x1) || ky < span_x(y0, y1),
    ensures
        ({
            let dx = span_x(x0, x1);
            let d = span_x(y0, y1);
            let err = dx * (1 + ky) - d * (1 + kx);
            let kx2 = if 2 * err > -d { kx + 1 } else { kx };
            let ky2 = if 2 * err < dx { ky + 1 } else { ky };
            &&& kx2 <= dx
            &&& ky2 <= d
            &&& kx2 + ky2 > kx + ky
            &&& edge_resume(x0, y0, x1, y1, kx, ky, fuel) == seq![(x0 + step_sign(x0, x1) * kx, y0 + step_sign(y0, y1) * ky)]
                + edge_resume(x0, y0, x1, y1, kx2, ky2, (fuel - 1) as nat)
        }),
{
    let dx = span_x(x0, x1);
    let d = span_x(y0, y1);
    let sx = step_sign(x0, x1);
    let sy = step_sign(y0, y1);
    let x = x0 + sx * kx;
    let y = y0 + sy * ky;
    let err = dx * (1 + ky) - d * (1 + kx);
    assert(x == x1 <==> kx == dx) by (nonlinear_arith)
        requires
            x == x0 + sx * kx,
            sx == (if x0 < x1 { 1int } else { -1int }),
            dx == (if x1 >= x0 { x1 - x0 } else { x0 - x1 }),
    ;
    assert(y == y1 <==> ky == d) by (nonlinear_arith)
        requires
            y == y0 + sy * ky,
            sy == (if y0 < y1 { 1int } else { -1int }),
            d == (if y1 >= y0 { y1 - y0 } else { y0 - y1 }),
    ;
    let e2 = 2 * err;
    let stepx = e2 > -d;
    let stepy = e2 < dx;
    if kx == dx {
        lemma_no_column_overshoot(dx, d, ky);
    }
    if ky == d {
        lemma_no_row_overshoot(dx, d, kx);
    }
    let kx2 = if stepx { kx + 1 } else { kx };
    let ky2 = if stepy { ky + 1 } else { ky };
    let err2 = dx * (1 + ky2) - d * (1 + kx2);
    assert(err2 == (if stepy { (if stepx { err - d } else { err }) + dx } else { (if stepx { err - d } else { err }) })) by (nonlinear_arith)
        requires
            err == dx * (1 + ky) - d * (1 + kx),
            kx2 == (if stepx { kx + 1 } else { kx }),
            ky2 == (if stepy { ky + 1 } else { ky }),
            err2 == dx * (1 + ky2) - d * (1 + kx2),
    ;
    assert(x0 + sx * kx2 == (if stepx { x + sx } else { x })) by (nonlinear_arith)
        requires
            x == x0 + sx * kx,
            kx2 == (if stepx { kx + 1 } else { kx }),
    ;
    assert(y0 + sy * ky2 == (if stepy { y + sy } else { y })) by (nonlinear_arith)
        requires
            y == y0 + sy * ky,
            ky2 == (if stepy { ky + 1 } else { ky }),
    ;
}

/// An edge walk in progress stays in the bounding box, moves one dot at a
/// time, and reaches the far endpoint when its fuel outlasts the remaining
/// columns and rows.
pub proof fn lemma_edge_walk(x0: int, y0: int, x1: int, y1: int, kx: int, ky: int, fuel: nat)
    requires
        0 <= kx <= span_x(x0, x1),
        0 <= ky <= span_x(y0, y1),
    ensures
        forall|i: int|
            0 <= i < edge_resume(x0, y0, x1, y1, kx, ky, fuel).len() ==> in_box(
                x0,
                y0,
                x1,
                y1,
                #[trigger] edge_resume(x0, y0, x1, y1, kx, ky, fuel)[i].0,
                edge_resume(x0, y0, x1, y1, kx, ky, fuel)[i].1,
            ),
        forall|i: int|
            0 <= i < edge_resume(x0, y0, x1, y1, kx, ky, fuel).len() - 1 ==> adjacent(
                #[trigger] edge_resume(x0, y0, x1, y1, kx, ky, fuel)[i],
                edge_resume(x0, y0, x1, y1, kx, ky, fuel)[i + 1],
            ),
        fuel > 0 ==> edge_resume(x0, y0, x1, y1, kx, ky, fuel)[0] == (
            x0 + step_sign(x0, x1) * kx,
            y0 + step_sign(y0, y1) * ky,
        ),
        fuel > span_x(x0, x1) - kx + span_x(y0, y1) - ky ==> edge_resume(x0, y0, x1, y1, kx, ky, fuel).len() >= 1
            && edge_resume(x0, y0, x1, y1, kx, ky, fuel).last() == (x1, y1),
    decreases fuel,
{
    let dx = span_x(x0, x1);
    let d = span_x(y0, y1);
    let sx = step_sign(x0, x1);
    let sy = step_sign(y0, y1);
    let x = x0 + sx * kx;
    let y = y0 + sy * ky;
    let w = edge_resume(x0, y0, x1, y1, kx, ky, fuel);
    assert(x == x1 <==> kx == dx) by (nonlinear_arith)
        requires
            x == x0 + sx * kx,
            sx == (if x0 < x1 { 1int } else { -1int }),
            dx == (if x1 >= x0 { x1 - x0 } else { x0 - x1 }),
    ;
    assert(y == y1 <==> ky == d) by (nonlinear_arith)
        requires
            y == y0 + sy * ky,
            sy == (if y0 < y1 { 1int } else { -1int }),
            d == (if y1 >= y0 { y1 - y0 } else { y0 - y1 }),
    ;
    assert(in_box(x0, y0, x1, y1, x, y)) by (nonlinear_arith)
        requires
            x == x0 + sx * kx,
            sx == (if x0 < x1 { 1int } else { -1int }),
            dx == (if x1 >= x0 { x1 - x0 } else { x0 - x1 }),
            y == y0 + sy * ky,
            sy == (if y0 < y1 { 1int } else { -1int }),
            d == (if y1 >= y0 { y1 - y0 } else { y0 - y1 }),
            0 <= kx <= dx,
            0 <= ky <= d,
    ;
    if fuel == 0 {
        assert(w.len() == 0);
    } else if x == x1 && y == y1 {
        assert(w == seq![(x, y)]);
    } else {
        lemma_edge_step(x0, y0, x1, y1, kx, ky, fuel);
        let err = dx * (1 + ky) - d * (1 + kx);
        let kx2 = if 2 * err > -d { kx + 1 } else { kx };
        let ky2 = if 2 * err < dx { ky + 1 } else { ky };
        lemma_edge_walk(x0, y0, x1, y1, kx2, ky2, (fuel - 1) as nat);
        let rest = edge_resume(x0, y0, x1, y1, kx2, ky2, (fuel - 1) as nat);
        assert(w == seq![(x, y)] + rest);
        assert(w[0] == (x, y));
        assert forall|i: int| 0 <= i < w.len() implies in_box(x0, y0, x1, y1, #[trigger] w[i].0, w[i].1) by {
            if i > 0 {
                assert(w[i] == rest[i - 1]);
                assert(in_box(x0, y0, x1, y1, rest[i - 1].0, rest[i - 1].1));
            }
        }
        assert forall|i: int| 0 <= i < w.len() - 1 implies adjacent(#[trigger] w[i], w[i + 1]) by {
            if i == 0 {
                assert(w[1] == rest[0]);
                assert(in_box(x0, y0, x1, y1, rest[0].0, rest[0].1));
                assert(rest[0] == (x0 + sx * kx2, y0 + sy * ky2));
                assert(-1 <= x - (x0 + sx * kx2) <= 1 && -1 <= y - (y0 + sy * ky2) <= 1) by (nonlinear_arith)
                    requires
                        x == x0 + sx * kx,
                        y == y0 + sy * ky,
                        sx == 1 || sx == -1,
                        sy == 1 || sy == -1,
                        kx2 == kx || kx2 == kx + 1,
                        ky2 == ky || ky2 == ky + 1,
                ;
            } else {
                assert(w[i] == rest[i - 1]);
                assert(w[i + 1] == rest[i]);
                assert(adjacent(rest[i - 1], rest[i]));
            }
        }
        if fuel > dx - kx + d - ky {
            assert(w.last() == rest.last());
        }
    }
}

/// An edge stays within the bounding box of its endpoints and never skips
/// a dot; it starts at its first endpoint and, unless more than 398 dots
/// long, ends at its second.
pub proof fn lemma_edge_line(x0: int, y0: int, x1: int, y1: int)
    ensures
        edge_line(x0, y0, x1, y1).len() >= 1,
        edge_line(x0, y0, x1, y1)[0] == (x0, y0),
        span_x(x0, x1) + span_x(y0, y1) < 399 ==> edge_line(x0, y0, x1, y1).last() == (x1, y1),
        forall|i: int|
            0 <= i < edge_line(x0, y0, x1, y1).len() ==> in_box(
                x0,
                y0,
                x1,
                y1,
                #[trigger] edge_line(x0, y0, x1, y1)[i].0,
                edge_line(x0, y0, x1, y1)[i].1,
            ),
        forall|i: int|
            0 <= i < edge_line(x0, y0, x1, y1).len() - 1 ==> adjacent(
                #[trigger] edge_line(x0, y0, x1, y1)[i],
                edge_line(x0, y0, x1, y1)[i + 1],
            ),
{
    let dx = span_x(x0, x1);
    let d = span_x(y0, y1);
    let sx = step_sign(x0, x1);
    let sy = step_sign(y0, y1);
    assert(dx * (1 + 0) - d * (1 + 0) == dx - d && x0 + sx * 0 == x0 && y0 + sy * 0 == y0) by (nonlinear_arith);
    let fuel = edge_step_cap(x0, y0, x1, y1);
    lemma_edge_walk(x0, y0, x1, y1, 0, 0, fuel);
    assert(edge_line(x0, y0, x1, y1) == edge_resume(x0, y0, x1, y1, 0, 0, fuel));
    if fuel > 0 {
        let w = edge_resume(x0, y0, x1, y1, 0, 0, fuel);
        if x0 == x1 && y0 == y1 {
            assert(w == seq![(x0, y0)]);
        } else {
            lemma_edge_step(x0, y0, x1, y1, 0, 0, fuel);
        }
    }
}

/// Draws the edge between two projected points: Bresenham's walk, capped at
/// 400 dots so wide grids stay snappy; out-of-bounds dots are ignored.
/// The doubled error stays within three times the longer span, so spans up
/// to `2^29` dots keep it in `i32`.
pub fn draw_edge(grid: &mut BrailleGrid, x0: i32, y0: i32, x1: i32, y1: i32)
    requires
        old(grid)@.wf(),
        span_x(x0 as int, x1 as int) <= 0x2000_0000,
        span_x(y0 as int, y1 as int) <= 0x2000_0000,
    ensures
        old(grid)@.gains_dots(
            final(grid)@,
            (|px: int, py: int| edge_line(x0 as int, y0 as int, x1 as int, y1 as int).contains((px, py))),
        ),
{
    let ghost g0 = grid@;
    let ghost line = edge_line(x0 as int, y0 as int, x1 as int, y1 as int);
    let ghost dxs = span_x(x0 as int, x1 as int);
    let ghost ds = span_x(y0 as int, y1 as int);
    let dx = if x1 >= x0 { x1 - x0 } else { x0 - x1 };
    let dy = if y1 >= y0 { y1 - y0 } else { y0 - y1 };
    let sx = if x0 < x1 { 1i32 } else { -1i32 };
    let sy = if y0 < y1 { 1i32 } else { -1i32 };
    let mut x = x0;
    let mut y = y0;
    let mut err = dx - dy;
    let max_steps = if dx + dy + 2 < 400 { dx + dy + 2 } else { 400 };
    let ghost mut kx: int = 0;
    let ghost mut ky: int = 0;
    let ghost mut drawn: Seq<(int, int)> = Seq::empty();
    proof {
        lemma_gains_nothing(g0, |px: int, py: int| drawn.contains((px, py)));
        assert(dxs * (1 + 0) - ds * (1 + 0) == dxs - ds && x0 + sx * 0 == x0 && y0 + sy * 0 == y0) by (nonlinear_arith);
        assert(line == drawn + edge_resume(x0 as int, y0 as int, x1 as int, y1 as int, 0, 0, max_steps as nat));
    }
    let mut k: i32 = 0;
    while k < max_steps
        invariant_except_break
            grid@.wf(),
            g0.gains_dots(grid@, |px: int, py: int| drawn.contains((px, py))),
            dxs == span_x(x0 as int, x1 as int),
            ds == span_x(y0 as int, y1 as int),
            line == edge_line(x0 as int, y0 as int, x1 as int, y1 as int),
            dx == dxs,
            dy == ds,
            dxs <= 0x2000_0000,
            ds <= 0x2000_0000,
            sx == step_sign(x0 as int, x1 as int),
            sy == step_sign(y0 as int, y1 as int),
            0 <= k <= max_steps <= 400,
            0 <= kx <= dxs,
            0 <= ky <= ds,
            x == x0 + sx * kx,
            y == y0 + sy * ky,
            err == dxs * (1 + ky) - ds * (1 + kx),
            error_in_range(dxs, ds, err as int),
            line == drawn + edge_resume(x0 as int, y0 as int, x1 as int, y1 as int, kx, ky, (max_steps - k) as nat),
        ensures
            g0.gains_dots(grid@, |px: int, py: int| drawn.contains((px, py))),
            drawn == line,
        decreases max_steps - k,
    {
        let ghost g = grid@;
        let ghost before = drawn;
        draw::dot_i(grid, x, y);
        proof {
            drawn = drawn.push((x as int, y as int));
            assert forall|px: int, py: int| g0.in_dots(px, py) implies (drawn.contains((px, py)) <==> (before.contains((px, py)) || (px == x && py == y))) by {
                if drawn.contains((px, py)) {
                    let i = choose|i: int| 0 <= i < drawn.len() && drawn[i] == (px, py);
                    if i < before.len() {
                        assert(before[i] == (px, py));
                    }
                }
                if before.contains((px, py)) {
                    let i = choose|i: int| 0 <= i < before.len() && before[i] == (px, py);
                    assert(drawn[i] == (px, py));
                }
                if px == x && py == y {
                    assert(drawn[before.len() as int] == (px, py));
                }
            }
            lemma_gains_dot(
                g0,
                g,
                x as int,
                y as int,
                |px: int, py: int| before.contains((px, py)),
                |px: int, py: int| drawn.contains((px, py)),
            );
        }
        if x == x1 && y == y1 {
            proof {
                assert(line == drawn);
            }
            break;
        }
        proof {
            assert(x == x1 <==> kx == dxs) by (nonlinear_arith)
                requires
                    x == x0 + sx * kx,
                    sx == (if x0 < x1 { 1int } else { -1int }),
                    dxs == (if x1 >= x0 { x1 - x0 } else { x0 - x1 }),
            ;
            assert(y == y1 <==> ky == ds) by (nonlinear_arith)
                requires
                    y == y0 + sy * ky,
                    sy == (if y0 < y1 { 1int } else { -1int }),
                    ds == (if y1 >= y0 { y1 - y0 } else { y0 - y1 }),
            ;
            lemma_edge_step(x0 as int, y0 as int, x1 as int, y1 as int, kx, ky, (max_steps - k) as nat);
        }
        let e2 = 2 * err;
        let ghost kx2 = if 2 * err > -ds { kx + 1 } else { kx };
        let ghost ky2 = if 2 * err < dxs { ky + 1 } else { ky };
        proof {
            assert(x0 + sx * kx2 == (if e2 > -dy { x + sx } else { x as int })) by (nonlinear_arith)
                requires
                    x == x0 + sx * kx,
                    kx2 == (if e2 > -dy { kx + 1 } else { kx }),
            ;
            assert(y0 + sy * ky2 == (if e2 < dx { y + sy } else { y as int })) by (nonlinear_arith)
                requires
                    y == y0 + sy * ky,
                    ky2 == (if e2 < dx { ky + 1 } else { ky }),
            ;
            assert(in_box(x0 as int, y0 as int, x1 as int, y1 as int, x0 + sx * kx2, y0 + sy * ky2)) by (nonlinear_arith)
                requires
                    sx == (if x0 < x1 { 1int } else { -1int }),
                    dxs == (if x1 >= x0 { x1 - x0 } else { x0 - x1 }),
                    sy == (if y0 < y1 { 1int } else { -1int }),
                    ds == (if y1 >= y0 { y1 - y0 } else { y0 - y1 }),
                    0 <= kx2 <= dxs,
                    0 <= ky2 <= ds,
            ;
            assert(dxs * (1 + ky2) - ds * (1 + kx2) == (if e2 < dx { (if e2 > -dy { err - dy } else { err as int }) + dx } else { (if e2 > -dy { err - dy } else { err as int }) })) by (nonlinear_arith)
                requires
                    err == dxs * (1 + ky) - ds * (1 + kx),
                    dy == ds,
                    dx == dxs,
                    kx2 == (if e2 > -dy { kx + 1 } else { kx }),
                    ky2 == (if e2 < dx { ky + 1 } else { ky }),
            ;
        }
        if e2 > -dy {
            err -= dy;
            x += sx;
        }
        if e2 < dx {
            err += dx;
            y += sy;
        }
        proof {
            kx = kx2;
            ky = ky2;
        }
        k += 1;
    }
}

/// Edge `i` of `edges` is drawn by a partial draw of `n_show` edges: it is
/// among the first `n_show` and both its ends index `pts`.
pub open spec fn edge_shown(pts: Seq<(i32, i32)>, edges: Seq<(usize, usize)>, n_show: int, i: int) -> bool {
    &&& 0 <= i < edges.len()
    &&& i < n_show
    &&& edges[i].0 < pts.len()
    &&& edges[i].1 < pts.len()
}

/// The dots of edge `i` of `edges` between the projected points `pts`.
pub open spec fn edge_dots(pts: Seq<(i32, i32)>, edges: Seq<(usize, usize)>, i: int) -> Seq<(int, int)> {
    let a = pts[edges[i].0 as int];
    let b = pts[edges[i].1 as int];
    edge_line(a.0 as int, a.1 as int, b.0 as int, b.1 as int)
}

/// Every edge drawn by a partial draw of `n_show` edges spans at most
/// `2^29` dots on both axes.
pub open spec fn edges_fit(pts: Seq<(i32, i32)>, edges: Seq<(usize, usize)>, n_show: int) -> bool {
    forall|i: int|
        #[trigger] edge_shown(pts, edges, n_show, i) ==> span_x(pts[edges[i].0 as int].0 as int, pts[edges[i].1 as int].0 as int)
            <= 0x2000_0000 && span_x(pts[edges[i].0 as int].1 as int, pts[edges[i].1 as int].1 as int) <= 0x2000_0000
}

/// Draws the first `n_show` of `edges` between the projected points `pts`,
/// skipping any edge whose ends do not index `pts`.
pub fn draw_edges_partial(grid: &mut BrailleGrid, pts: &[(i32, i32)], edges: &[(usize, usize)], n_show: usize)
    requires
        old(grid)@.wf(),
        edges_fit(pts@, edges@, n_show as int),
    ensures
        old(grid)@.gains_dots(
            final(grid)@,
            (|px: int, py: int|
                exists|i: int|
                    edge_shown(pts@, edges@, n_show as int, i) && #[trigger] edge_dots(pts@, edges@, i).contains((px, py))),
        ),
{
    let ghost g0 = grid@;
    proof {
        lemma_gains_nothing(
            g0,
            |px: int, py: int| exists|i: int| edge_shown(pts@, edges@, n_show as int, i) && i < 0 && #[trigger] edge_dots(pts@, edges@, i).contains((px, py)),
        );
    }
    let count = if n_show < edges.len() { n_show } else { edges.len() };
    let mut i: usize = 0;
    while i < count
        invariant
            i <= count,
            count <= edges.len(),
            count <= n_show,
            count == n_show || count == edges.len(),
            grid@.wf(),
            edges_fit(pts@, edges@, n_show as int),
            g0.gains_dots(
                grid@,
                |px: int, py: int| exists|j: int| edge_shown(pts@, edges@, n_show as int, j) && j < i && #[trigger] edge_dots(pts@, edges@, j).contains((px, py)),
            ),
        decreases count - i,
    {
        let (a, b) = edges[i];
        let ghost g = grid@;
        if a < pts.len() && b < pts.len() {
            let (x0, y0) = pts[a];
            let (x1, y1) = pts[b];
            proof {
                assert(edge_shown(pts@, edges@, n_show as int, i as int));
            }
            draw_edge(grid, x0, y0, x1, y1);
            proof {
                assert(edge_dots(pts@, edges@, i as int) == edge_line(x0 as int, y0 as int, x1 as int, y1 as int));
                lemma_gains_trans(
                    g0,
                    g,
                    grid@,
                    |px: int, py: int| exists|j: int| edge_shown(pts@, edges@, n_show as int, j) && j < i && #[trigger] edge_dots(pts@, edges@, j).contains((px, py)),
                    |px: int, py: int| edge_line(x0 as int, y0 as int, x1 as int, y1 as int).contains((px, py)),
                    |px: int, py: int| exists|j: int| edge_shown(pts@, edges@, n_show as int, j) && j < i + 1 && #[trigger] edge_dots(pts@, edges@, j).contains((px, py)),
                );
            }
        } else {
            proof {
                assert forall|px: int, py: int| g0.in_dots(px, py) implies ((exists|j: int| edge_shown(pts@, edges@, n_show as int, j) && j < i + 1 && #[trigger] edge_dots(pts@, edges@, j).contains((px, py))) <==> (exists|j: int| edge_shown(pts@, edges@, n_show as int, j) && j < i && #[trigger] edge_dots(pts@, edges@, j).contains((px, py)))) by {
                    if exists|j: int| edge_shown(pts@, edges@, n_show as int, j) && j < i + 1 && #[trigger] edge_dots(pts@, edges@, j).contains((px, py)) {
                        let j = choose|j: int| edge_shown(pts@, edges@, n_show as int, j) && j < i + 1 && #[trigger] edge_dots(pts@, edges@, j).contains((px, py));
                        assert(j != i);
                    }
                }
                assert(g0.gains_dots(
                    grid@,
                    |px: int, py: int| exists|j: int| edge_shown(pts@, edges@, n_show as int, j) && j < i + 1 && #[trigger] edge_dots(pts@, edges@, j).contains((px, py)),
                ));
            }
        }
        i = i + 1;
    }
    proof {
        assert forall|px: int, py: int| g0.in_dots(px, py) implies ((exists|j: int| edge_shown(pts@, edges@, n_show as int, j) && #[trigger] edge_dots(pts@, edges@, j).contains((px, py))) <==> (exists|j: int| edge_shown(pts@, edges@, n_show as int, j) && j < i && #[trigger] edge_dots(pts@, edges@, j).contains((px, py)))) by {
            if exists|j: int| edge_shown(pts@, edges@, n_show as int, j) && #[trigger] edge_dots(pts@, edges@, j).contains((px, py)) {
                let j = choose|j: int| edge_shown(pts@, edges@, n_show as int, j) && #[trigger] edge_dots(pts@, edges@, j).contains((px, py));
                assert(j < i);
            }
        }
    }
}

/// Spoke `i` of `spokes` is drawn by a frame showing `n_show` spokes: it is
/// among the first `n_show`, its tip indexes `tips` and its foot `hub`.
pub open spec fn spoke_shown(
    tips: Seq<(i32, i32)>,
    hub: Seq<(i32, i32)>,
    spokes: Seq<(usize, usize)>,
    n_show: int,
    i: int,
) -> bool {
    &&& 0 <= i < spokes.len()
    &&& i < n_show
    &&& spokes[i].0 < tips.len()
    &&& spokes[i].1 < hub.len()
}

/// The dots of spoke `i`: the edge from its tip to its foot.
pub open spec fn spoke_dots(tips: Seq<(i32, i32)>, hub: Seq<(i32, i32)>, spokes: Seq<(usize, usize)>, i: int) -> Seq<(int, int)> {
    let a = tips[spokes[i].0 as int];
    let b = hub[spokes[i].1 as int];
    edge_line(a.0 as int, a.1 as int, b.0 as int, b.1 as int)
}

/// Every spoke shown spans at most `2^29` dots on both axes.
pub open spec fn spokes_fit(tips: Seq<(i32, i32)>, hub: Seq<(i32, i32)>, spokes: Seq<(usize, usize)>, n_show: int) -> bool {
    forall|i: int|
        #[trigger] spoke_shown(tips, hub, spokes, n_show, i) ==> span_x(
            tips[spokes[i].0 as int].0 as int,
            hub[spokes[i].1 as int].0 as int,
        ) <= 0x2000_0000 && span_x(tips[spokes[i].0 as int].1 as int, hub[spokes[i].1 as int].1 as int) <= 0x2000_0000
}

impl StellatedDodecahedron {
    /// The spikes of one frame: the first `n_show` of `spokes`, each an edge
    /// from spike tip `tips[s]` to dodecahedron vertex `hub[d]`, skipping any
    /// spoke whose ends index neither list.
    pub fn draw_spokes(
        &self,
        grid: &mut BrailleGrid,
        tips: &[(i32, i32)],
        hub: &[(i32, i32)],
        spokes: &[(usize, usize)],
        n_show: usize,
    )
        requires
            old(grid)@.wf(),
            spokes_fit(tips@, hub@, spokes@, n_show as int),
        ensures
            old(grid)@.gains_dots(
                final(grid)@,
                (|px: int, py: int|
                    exists|i: int|
                        spoke_shown(tips@, hub@, spokes@, n_show as int, i) && #[trigger] spoke_dots(tips@, hub@, spokes@, i).contains(
                            (px, py),
                        )),
            ),
    {
        let ghost g0 = grid@;
        proof {
            lemma_gains_nothing(
                g0,
                |px: int, py: int|
                    exists|i: int|
                        spoke_shown(tips@, hub@, spokes@, n_show as int, i) && i < 0 && #[trigger] spoke_dots(tips@, hub@, spokes@, i).contains(
                            (px, py),
                        ),
            );
        }
        let count = if n_show < spokes.len() { n_show } else { spokes.len() };
        let mut i: usize = 0;
        while i < count
            invariant
                i <= count,
                count <= spokes.len(),
                count <= n_show,
                count == n_show || count == spokes.len(),
                grid@.wf(),
                spokes_fit(tips@, hub@, spokes@, n_show as int),
                g0.gains_dots(
                    grid@,
                    |px: int, py: int|
                        exists|j: int|
                            spoke_shown(tips@, hub@, spokes@, n_show as int, j) && j < i && #[trigger] spoke_dots(tips@, hub@, spokes@, j).contains(
                                (px, py),
                            ),
                ),
            decreases count - i,
        {
            let (a, b) = spokes[i];
            let ghost g = grid@;
            let ghost before = |px: int, py: int|
                exists|j: int|
                    spoke_shown(tips@, hub@, spokes@, n_show as int, j) && j < i && #[trigger] spoke_dots(tips@, hub@, spokes@, j).contains(
                        (px, py),
                    );
            let ghost after = |px: int, py: int|
                exists|j: int|
                    spoke_shown(tips@, hub@, spokes@, n_show as int, j) && j < i + 1 && #[trigger] spoke_dots(tips@, hub@, spokes@, j).contains(
                        (px, py),
                    );
            if a < tips.len() && b < hub.len() {
                let (x0, y0) = tips[a];
                let (x1, y1) = hub[b];
                proof {
                    assert(spoke_shown(tips@, hub@, spokes@, n_show as int, i as int));
                }
                draw_edge(grid, x0, y0, x1, y1);
                proof {
                    assert(spoke_dots(tips@, hub@, spokes@, i as int) == edge_line(x0 as int, y0 as int, x1 as int, y1 as int));
                    lemma_gains_trans(
                        g0,
                        g,
                        grid@,
                        before,
                        |px: int, py: int| edge_line(x0 as int, y0 as int, x1 as int, y1 as int).contains((px, py)),
                        after,
                    );
                }
            } else {
                proof {
                    assert forall|px: int, py: int| g0.in_dots(px, py) implies (after(px, py) <==> before(px, py)) by {
                        if after(px, py) {
                            let j = choose|j: int|
                                spoke_shown(tips@, hub@, spokes@, n_show as int, j) && j < i + 1 && #[trigger] spoke_dots(
                                    tips@,
                                    hub@,
                                    spokes@,
                                    j,
                                ).contains((px, py));
                            assert(j != i);
                        }
                    }
                    lemma_gains_nothing(g, |px: int, py: int| false);
                    lemma_gains_trans(g0, g, grid@, before, |px: int, py: int| false, after);
                }
            }
            i = i + 1;
        }
        proof {
            let all = |px: int, py: int|
                exists|j: int|
                    spoke_shown(tips@, hub@, spokes@, n_show as int, j) && #[trigger] spoke_dots(tips@, hub@, spokes@, j).contains(
                        (px, py),
                    );
            assert forall|px: int, py: int| g0.in_dots(px, py) implies (#[trigger] grid@.is_lit(px, py) <==> (g0.is_lit(px, py)
                || all(px, py))) by {
                assert(grid@.is_lit(px, py) <==> (g0.is_lit(px, py) || exists|j: int|
                    spoke_shown(tips@, hub@, spokes@, n_show as int, j) && j < i && #[trigger] spoke_dots(tips@, hub@, spokes@, j).contains(
                        (px, py),
                    )));
                if all(px, py) {
                    let j = choose|j: int|
                        spoke_shown(tips@, hub@, spokes@, n_show as int, j) && #[trigger] spoke_dots(tips@, hub@, spokes@, j).contains(
                            (px, py),
                        );
                    assert(j < i);
                }
            }
        }
    }
}

} // verus!
