//! Procedural-noise and flow-field progress bars.

use vstd::prelude::*;
use crate::progress::ProgressStyle;
use crate::progress::draw;
use crate::grid::{lemma_gains_dot, lemma_gains_nothing, lemma_gains_trans, BrailleGrid};

verus! {

/// Animated bilinear value noise thresholded by eased progress.
pub struct ValueNoiseFill;

impl ProgressStyle for ValueNoiseFill {
    open spec fn style_name(&self) -> Seq<char> {
        "value-noise-fill"@
    }

    open spec fn style_theme(&self) -> Seq<char> {
        "noise"@
    }

    open spec fn style_description(&self) -> Seq<char> {
        "Bilinear value noise lattice thresholded by progress — blobs of filled \
         dots that slowly churn and spread as progress grows."@
    }

    fn name(&self) -> (r: &str) {
        "value-noise-fill"
    }

    fn theme(&self) -> (r: &str) {
        "noise"
    }

    fn describe(&self) -> (r: &str) {
        "Bilinear value noise lattice thresholded by progress — blobs of filled \
         dots that slowly churn and spread as progress grows."
    }
}

/// fBm with octave count driven by progress — the detail level visibly grows.
pub struct FbmContour;

impl ProgressStyle for FbmContour {
    open spec fn style_name(&self) -> Seq<char> {
        "fbm-contour"@
    }

    open spec fn style_theme(&self) -> Seq<char> {
        "noise"@
    }

    open spec fn style_description(&self) -> Seq<char> {
        "Fractal Brownian motion fill: octave count rises with progress, so the \
         bar starts smooth and gains turbulent detail as it nears 100%."@
    }

    fn name(&self) -> (r: &str) {
        "fbm-contour"
    }

    fn theme(&self) -> (r: &str) {
        "noise"
    }

    fn describe(&self) -> (r: &str) {
        "Fractal Brownian motion fill: octave count rises with progress, so the \
         bar starts smooth and gains turbulent detail as it nears 100%."
    }
}

/// Perlin-style gradient noise: smoother, more organic than value noise.
pub struct GradientNoiseFill;

impl ProgressStyle for GradientNoiseFill {
    open spec fn style_name(&self) -> Seq<char> {
        "gradient-noise-fill"@
    }

    open spec fn style_theme(&self) -> Seq<char> {
        "noise"@
    }

    open spec fn style_description(&self) -> Seq<char> {
        "Perlin-style gradient noise thresholded by progress — smoother, more \
         organic blobs than value noise, with a shimmering animated field."@
    }

    fn name(&self) -> (r: &str) {
        "gradient-noise-fill"
    }

    fn theme(&self) -> (r: &str) {
        "noise"
    }

    fn describe(&self) -> (r: &str) {
        "Perlin-style gradient noise thresholded by progress — smoother, more \
         organic blobs than value noise, with a shimmering animated field."
    }
}

/// Domain warping: sample fBm at `(x + fbm(x,y), y + fbm(x+5,y+5))`.
/// Creates hypnotic swirls that evolve with time.
pub struct DomainWarp;

impl ProgressStyle for DomainWarp {
    open spec fn style_name(&self) -> Seq<char> {
        "domain-warp"@
    }

    open spec fn style_theme(&self) -> Seq<char> {
        "noise"@
    }

    open spec fn style_description(&self) -> Seq<char> {
        "Domain warping — sampling fBm at displaced coordinates — produces \
         hypnotic, swirling tendrils that churn and grow with progress."@
    }

    fn name(&self) -> (r: &str) {
        "domain-warp"
    }

    fn theme(&self) -> (r: &str) {
        "noise"
    }

    fn describe(&self) -> (r: &str) {
        "Domain warping — sampling fBm at displaced coordinates — produces \
         hypnotic, swirling tendrils that churn and grow with progress."
    }
}

/// Flow field: angle = noise(x, y, t)·2π, particles are advected and drawn.
/// Number of active particles scales with progress.
pub struct FlowField;

impl ProgressStyle for FlowField {
    open spec fn style_name(&self) -> Seq<char> {
        "flow-field"@
    }

    open spec fn style_theme(&self) -> Seq<char> {
        "noise"@
    }

    open spec fn style_description(&self) -> Seq<char> {
        "Flow-field particles: each particle is advected along a noise-derived \
         angle field, leaving a streak. Particle count grows with progress."@
    }

    fn name(&self) -> (r: &str) {
        "flow-field"
    }

    fn theme(&self) -> (r: &str) {
        "noise"
    }

    fn describe(&self) -> (r: &str) {
        "Flow-field particles: each particle is advected along a noise-derived \
         angle field, leaving a streak. Particle count grows with progress."
    }
}

/// Worley cellular noise: shade by F1 distance, reveal cells left of fill edge.
pub struct WorleyCell;

impl ProgressStyle for WorleyCell {
    open spec fn style_name(&self) -> Seq<char> {
        "worley-cell"@
    }

    open spec fn style_theme(&self) -> Seq<char> {
        "noise"@
    }

    open spec fn style_description(&self) -> Seq<char> {
        "Worley cellular noise — distance to nearest feature point — fills with \
         shimmering cell-membrane patterns, edges sharpening with progress."@
    }

    fn name(&self) -> (r: &str) {
        "worley-cell"
    }

    fn theme(&self) -> (r: &str) {
        "noise"
    }

    fn describe(&self) -> (r: &str) {
        "Worley cellular noise — distance to nearest feature point — fills with \
         shimmering cell-membrane patterns, edges sharpening with progress."
    }
}

/// Voronoi diagram: seeds grow with progress, draw nearest-seed boundaries.
pub struct VoronoiDiagram;

impl ProgressStyle for VoronoiDiagram {
    open spec fn style_name(&self) -> Seq<char> {
        "voronoi-diagram"@
    }

    open spec fn style_theme(&self) -> Seq<char> {
        "noise"@
    }

    open spec fn style_description(&self) -> Seq<char> {
        "Voronoi diagram with seed count growing with progress — cell boundaries \
         shatter and multiply, revealing a cracked-glass pattern."@
    }

    fn name(&self) -> (r: &str) {
        "voronoi-diagram"
    }

    fn theme(&self) -> (r: &str) {
        "noise"
    }

    fn describe(&self) -> (r: &str) {
        "Voronoi diagram with seed count growing with progress — cell boundaries \
         shatter and multiply, revealing a cracked-glass pattern."
    }
}

/// Deterministic DLA approximation: grow a crystal cluster whose size is
/// controlled by `eased`.  Implemented as a space-filling hash walk so it's
/// O(N) with no random-number state.
pub struct DlaGrowth;

impl ProgressStyle for DlaGrowth {
    open spec fn style_name(&self) -> Seq<char> {
        "dla-growth"@
    }

    open spec fn style_theme(&self) -> Seq<char> {
        "noise"@
    }

    open spec fn style_description(&self) -> Seq<char> {
        "Deterministic DLA crystal: a branching, fern-like aggregate grows from \
         the centre outward as progress increases."@
    }

    fn name(&self) -> (r: &str) {
        "dla-growth"
    }

    fn theme(&self) -> (r: &str) {
        "noise"
    }

    fn describe(&self) -> (r: &str) {
        "Deterministic DLA crystal: a branching, fern-like aggregate grows from \
         the centre outward as progress increases."
    }
}

/// Hash-driven random walk trails, revealed left-to-right by eased progress.
pub struct BrownianTrail;

impl ProgressStyle for BrownianTrail {
    open spec fn style_name(&self) -> Seq<char> {
        "brownian-trail"@
    }

    open spec fn style_theme(&self) -> Seq<char> {
        "noise"@
    }

    open spec fn style_description(&self) -> Seq<char> {
        "Brownian random-walk trails: multiple walkers leave hash-driven paths \
         that are progressively revealed as the bar fills."@
    }

    fn name(&self) -> (r: &str) {
        "brownian-trail"
    }

    fn theme(&self) -> (r: &str) {
        "noise"
    }

    fn describe(&self) -> (r: &str) {
        "Brownian random-walk trails: multiple walkers leave hash-driven paths \
         that are progressively revealed as the bar fills."
    }
}

/// Curl noise: take the 2-D curl of a scalar noise potential to get a
/// divergence-free velocity field, then draw streamlines through it.
pub struct CurlNoise;

impl ProgressStyle for CurlNoise {
    open spec fn style_name(&self) -> Seq<char> {
        "curl-noise"@
    }

    open spec fn style_theme(&self) -> Seq<char> {
        "noise"@
    }

    open spec fn style_description(&self) -> Seq<char> {
        "Curl-noise streamlines: a divergence-free velocity field derived from \
         the gradient of value noise — swirling, never-crossing filaments."@
    }

    fn name(&self) -> (r: &str) {
        "curl-noise"
    }

    fn theme(&self) -> (r: &str) {
        "noise"
    }

    fn describe(&self) -> (r: &str) {
        "Curl-noise streamlines: a divergence-free velocity field derived from \
         the gradient of value noise — swirling, never-crossing filaments."
    }
}

/// Marching contour bands of fBm — looks like a topographic map.
/// Number of contour levels grows with progress.
pub struct TopoContour;

impl ProgressStyle for TopoContour {
    open spec fn style_name(&self) -> Seq<char> {
        "topo-contour"@
    }

    open spec fn style_theme(&self) -> Seq<char> {
        "noise"@
    }

    open spec fn style_description(&self) -> Seq<char> {
        "Topographic fBm isolines: contour bands of fractal Brownian motion \
         multiply with progress, building a richly detailed elevation map."@
    }

    fn name(&self) -> (r: &str) {
        "topo-contour"
    }

    fn theme(&self) -> (r: &str) {
        "noise"
    }

    fn describe(&self) -> (r: &str) {
        "Topographic fBm isolines: contour bands of fractal Brownian motion \
         multiply with progress, building a richly detailed elevation map."
    }
}

/// Classic demoscene plasma: sum of sines of x, y, distance, and time.
/// Threshold the result against eased progress to fill left-to-right.
pub struct Plasma;

impl ProgressStyle for Plasma {
    open spec fn style_name(&self) -> Seq<char> {
        "plasma"@
    }

    open spec fn style_theme(&self) -> Seq<char> {
        "noise"@
    }

    open spec fn style_description(&self) -> Seq<char> {
        "Classic demoscene plasma — superimposed sine waves of position, \
         distance, and time — thresholded into a pulsing psychedelic fill."@
    }

    fn name(&self) -> (r: &str) {
        "plasma"
    }

    fn theme(&self) -> (r: &str) {
        "noise"
    }

    fn describe(&self) -> (r: &str) {
        "Classic demoscene plasma — superimposed sine waves of position, \
         distance, and time — thresholded into a pulsing psychedelic fill."
    }
}

/// The integer core of the noise lattice hash: mixes `(x, y)` with wrapping
/// multiplies and xor-shifts, reduced to `0..1000`.
pub open spec fn hash2_spec(x: i32, y: i32) -> u32 {
    let h0 = x.wrapping_mul(374_761_393).wrapping_add(y.wrapping_mul(668_265_263)) as u32;
    let h1 = (h0 ^ (h0 >> 13u32)).wrapping_mul(1_274_126_177);
    (h1 ^ (h1 >> 16u32)) % 1000
}

/// Fast integer hash of a lattice point, in thousandths: the noise value
/// is this over 1000, in `[0, 1)`.
pub fn hash2_permille(x: i32, y: i32) -> (r: u32)
    ensures
        r == hash2_spec(x, y),
        r < 1000,
{
    let mut h = (x.wrapping_mul(374_761_393).wrapping_add(y.wrapping_mul(668_265_263))) as u32;
    h = (h ^ (h >> 13)).wrapping_mul(1_274_126_177);
    (h ^ (h >> 16)) % 1000
}

/// Hash of a lattice point in a time slot `z`, in thousandths: the slot is
/// folded into both coordinates before hashing.
pub fn hash3_permille(x: i32, y: i32, z: i32) -> (r: u32)
    ensures
        r == hash2_spec(x ^ z.wrapping_mul(1_234_567), y ^ z.wrapping_mul(7_654_321)),
        r < 1000,
{
    hash2_permille(x ^ z.wrapping_mul(1_234_567), y ^ z.wrapping_mul(7_654_321))
}

/// Horizontal step `s` of walker `w` under `seed`: right when the lattice
/// hash is above one half, else left.
pub open spec fn walk_dx(w: int, s: int, seed: i32) -> int {
    if hash2_spec((w * 1000 + s) as i32, seed) > 500 {
        1
    } else {
        -1
    }
}

/// Vertical step `s` of walker `w` under `seed`: down above two thirds of
/// the hash range, up below one third, level between.
pub open spec fn walk_dy(w: int, s: int, seed: i32) -> int {
    let h = hash2_spec((w * 2000 + s) as i32, (seed + 1) as i32);
    if h > 660 {
        1
    } else if h < 330 {
        -1
    } else {
        0
    }
}

/// Where walker `w` of six on a bar `dw x dh` dots stands after `k`
/// steps: it starts at the middle row, spread evenly across the width.
pub open spec fn walker_at(w: int, k: nat, dw: int, dh: int, seed: i32) -> (int, int)
    decreases k,
{
    if k == 0 {
        (w * dw / 6, dh / 2)
    } else {
        let p = walker_at(w, (k - 1) as nat, dw, dh, seed);
        (p.0 + walk_dx(w, k - 1, seed), p.1 + walk_dy(w, k - 1, seed))
    }
}

/// Steps each walker takes on a bar `dw` dots wide: a sixth of the width,
/// at least 4.
pub open spec fn walk_steps(dw: int) -> int {
    if dw / 6 > 4 {
        dw / 6
    } else {
        4
    }
}

/// The dots of a Brownian-trail frame: every position the six walkers
/// reach that lies left of column `upto`, and the baseline up to it.
pub open spec fn brownian_dot(dw: int, dh: int, upto: int, seed: i32, x: int, y: int) -> bool {
    let last = if upto >= 1 { upto - 1 } else { 0 };
    ||| (exists|w: int, k: int|
        0 <= w < 6 && 1 <= k <= walk_steps(dw) && #[trigger] walker_at(w, k as nat, dw, dh, seed) == (x, y) && 0 <= x
            < upto)
    ||| (y == dh - 1 && 0 <= x <= last)
}

proof fn lemma_walker_bounds(w: int, k: nat, dw: int, dh: int, seed: i32)
    requires
        0 <= w < 6,
        0 <= dw,
        0 <= dh,
    ensures
        w * dw / 6 - k <= walker_at(w, k, dw, dh, seed).0 <= w * dw / 6 + k,
        dh / 2 - k <= walker_at(w, k, dw, dh, seed).1 <= dh / 2 + k,
    decreases k,
{
    if k > 0 {
        lemma_walker_bounds(w, (k - 1) as nat, dw, dh, seed);
    }
}

/// The walkers of step `k` and before, for walkers below `w`.
pub open spec fn walked(dw: int, dh: int, upto: int, seed: i32, w: int, k: int) -> spec_fn(int, int) -> bool {
    |x: int, y: int|
        exists|v: int, j: int|
            0 <= v < 6 && 1 <= j <= walk_steps(dw) && (v < w || (v == w && j <= k)) && #[trigger] walker_at(
                v,
                j as nat,
                dw,
                dh,
                seed,
            ) == (x, y) && 0 <= x < upto
}

proof fn lemma_walk_fits(w: int, s: int, dw: int, dh: int) by (nonlinear_arith)
    requires
        0 <= w < 6,
        0 <= s < walk_steps(dw),
        0 <= dw <= 0x7fff_0000,
        0 <= dh,
        dh / 2 + dw / 6 + 4 <= i32::MAX,
    ensures
        0 <= w * dw / 6 <= dw,
        w * dw / 6 + s + 1 <= i32::MAX,
        dh / 2 + s + 1 <= i32::MAX,
        w * 2000 + s <= i32::MAX,
{
    assert(w * dw <= 5 * dw);
    assert(w * dw / 6 <= 5 * dw / 6);
    assert(s < dw / 6 || s < 4);
}

impl BrownianTrail {
    /// One frame of the Brownian trail: six seeded random walkers (walks
    /// fixed by `seed`) leave their dots left of column `reveal_x`, over a
    /// baseline drawn up to that column.
    pub fn draw(&self, grid: &mut BrailleGrid, reveal_x: usize, seed: i32)
        requires
            old(grid)@.wf(),
            old(grid)@.dot_width() <= 0x7fff_0000,
            old(grid)@.dot_height() / 2 + old(grid)@.dot_width() / 6 + 4 <= i32::MAX,
            seed < i32::MAX,
        ensures
            old(grid)@.gains_dots(
                final(grid)@,
                |x: int, y: int|
                    brownian_dot(
                        old(grid)@.dot_width() as int,
                        old(grid)@.dot_height() as int,
                        reveal_x as int,
                        seed,
                        x,
                        y,
                    ),
            ),
    {
        let ghost g0 = grid@;
        let (dw, dh) = draw::dot_dims(grid);
        let ghost dwi = dw as int;
        let ghost dhi = dh as int;
        let steps = if dw / 6 > 4 { dw / 6 } else { 4 };
        proof {
            lemma_gains_nothing(g0, walked(dwi, dhi, reveal_x as int, seed, 0, 0));
        }
        let mut w: usize = 0;
        while w < 6
            invariant
                g0.wf(),
                dw == g0.dot_width(),
                dh == g0.dot_height(),
                dwi == dw,
                dhi == dh,
                dw <= 0x7fff_0000,
                dh / 2 + dw / 6 + 4 <= i32::MAX,
                seed < i32::MAX,
                steps == walk_steps(dwi),
                w <= 6,
                g0.gains_dots(grid@, walked(dwi, dhi, reveal_x as int, seed, w as int, 0)),
            decreases 6 - w,
        {
            proof {
                assert(w * dw / 6 <= dw) by (nonlinear_arith)
                    requires
                        w <= 6,
                        dw >= 0,
                ;
            }
            let mut x: i32 = ((w as u64) * (dw as u64) / 6) as i32;
            let mut y: i32 = (dh / 2) as i32;
            let mut s: usize = 0;
            while s < steps
                invariant
                    g0.wf(),
                    dw == g0.dot_width(),
                    dh == g0.dot_height(),
                    dwi == dw,
                    dhi == dh,
                    dw <= 0x7fff_0000,
                    dh / 2 + dw / 6 + 4 <= i32::MAX,
                    seed < i32::MAX,
                    steps == walk_steps(dwi),
                    w < 6,
                    s <= steps,
                    (x as int, y as int) == walker_at(w as int, s as nat, dwi, dhi, seed),
                    g0.gains_dots(grid@, walked(dwi, dhi, reveal_x as int, seed, w as int, s as int)),
                decreases steps - s,
            {
                proof {
                    lemma_walk_fits(w as int, s as int, dwi, dhi);
                    lemma_walker_bounds(w as int, s as nat, dwi, dhi, seed);
                    lemma_walker_bounds(w as int, (s + 1) as nat, dwi, dhi, seed);
                    assert(w * dw / 6 <= dw) by (nonlinear_arith)
                        requires
                            w <= 6,
                            dw >= 0,
                    ;
                }
                let hx = hash2_permille((w * 1000 + s) as i32, seed);
                let hy = hash2_permille((w * 2000 + s) as i32, seed + 1);
                x = x + if hx > 500 { 1 } else { -1 };
                y = y + if hy > 660 {
                    1
                } else if hy < 330 {
                    -1
                } else {
                    0
                };
                let ghost g1 = grid@;
                let ghost before = walked(dwi, dhi, reveal_x as int, seed, w as int, s as int);
                let ghost after = walked(dwi, dhi, reveal_x as int, seed, w as int, s + 1);
                proof {
                    assert((x as int, y as int) == walker_at(w as int, (s + 1) as nat, dwi, dhi, seed));
                }
                if x >= 0 && (x as usize) < reveal_x {
                    draw::dot_i(grid, x, y);
                    proof {
                        assert forall|px: int, py: int| g0.in_dots(px, py) implies (after(px, py) <==> (before(px, py) || (px == x
                            && py == y))) by {
                            if after(px, py) {
                                let (v, j) = choose|v: int, j: int|
                                    0 <= v < 6 && 1 <= j <= walk_steps(dwi) && (v < w || (v == w && j <= s + 1))
                                        && #[trigger] walker_at(v, j as nat, dwi, dhi, seed) == (px, py) && 0 <= px < reveal_x;
                                if v < w || j <= s {
                                    assert(before(px, py));
                                }
                            }
                            if before(px, py) {
                                let (v, j) = choose|v: int, j: int|
                                    0 <= v < 6 && 1 <= j <= walk_steps(dwi) && (v < w || (v == w && j <= s))
                                        && #[trigger] walker_at(v, j as nat, dwi, dhi, seed) == (px, py) && 0 <= px < reveal_x;
                                assert(after(px, py));
                            }
                            if px == x && py == y {
                                assert(walker_at(w as int, (s + 1) as nat, dwi, dhi, seed) == (px, py));
                            }
                        }
                        crate::grid::lemma_gains_dot(g0, g1, x as int, y as int, before, after);
                    }
                } else {
                    proof {
                        assert forall|px: int, py: int| g0.in_dots(px, py) implies (after(px, py) <==> before(px, py)) by {
                            if after(px, py) {
                                let (v, j) = choose|v: int, j: int|
                                    0 <= v < 6 && 1 <= j <= walk_steps(dwi) && (v < w || (v == w && j <= s + 1))
                                        && #[trigger] walker_at(v, j as nat, dwi, dhi, seed) == (px, py) && 0 <= px < reveal_x;
                                if v < w || j <= s {
                                    assert(before(px, py));
                                }
                            }
                            if before(px, py) {
                                let (v, j) = choose|v: int, j: int|
                                    0 <= v < 6 && 1 <= j <= walk_steps(dwi) && (v < w || (v == w && j <= s))
                                        && #[trigger] walker_at(v, j as nat, dwi, dhi, seed) == (px, py) && 0 <= px < reveal_x;
                                assert(after(px, py));
                            }
                        }
                    }
                }
                s = s + 1;
            }
            proof {
                let cur = walked(dwi, dhi, reveal_x as int, seed, w as int, steps as int);
                let nxt = walked(dwi, dhi, reveal_x as int, seed, w + 1, 0);
                assert forall|px: int, py: int| g0.in_dots(px, py) implies (#[trigger] grid@.is_lit(px, py) <==> (g0.is_lit(px, py)
                    || nxt(px, py))) by {
                    if nxt(px, py) {
                        let (v, j) = choose|v: int, j: int|
                            0 <= v < 6 && 1 <= j <= walk_steps(dwi) && (v < w + 1 || (v == w + 1 && j <= 0))
                                && #[trigger] walker_at(v, j as nat, dwi, dhi, seed) == (px, py) && 0 <= px < reveal_x;
                        assert(cur(px, py));
                    }
                    if cur(px, py) {
                        let (v, j) = choose|v: int, j: int|
                            0 <= v < 6 && 1 <= j <= walk_steps(dwi) && (v < w || (v == w && j <= steps))
                                && #[trigger] walker_at(v, j as nat, dwi, dhi, seed) == (px, py) && 0 <= px < reveal_x;
                        assert(nxt(px, py));
                    }
                }
            }
            w = w + 1;
        }
        let ghost g2 = grid@;
        let x1 = if reveal_x >= 1 { reveal_x - 1 } else { 0 };
        draw::hline(grid, 0, x1, dh - 1);
        proof {
            let walks = walked(dwi, dhi, reveal_x as int, seed, 6, 0);
            let base = |px: int, py: int| py == dh - 1 && (if 0 <= x1 { 0 <= px <= x1 } else { x1 <= px <= 0 });
            assert forall|px: int, py: int| g0.in_dots(px, py) implies (brownian_dot(dwi, dhi, reveal_x as int, seed, px, py) <==> (
            walks(px, py) || base(px, py))) by {
                if exists|v: int, j: int|
                    0 <= v < 6 && 1 <= j <= walk_steps(dwi) && #[trigger] walker_at(v, j as nat, dwi, dhi, seed) == (px, py)
                        && 0 <= px < reveal_x {
                    let (v, j) = choose|v: int, j: int|
                        0 <= v < 6 && 1 <= j <= walk_steps(dwi) && #[trigger] walker_at(v, j as nat, dwi, dhi, seed) == (px, py)
                            && 0 <= px < reveal_x;
                    assert(walks(px, py));
                }
                if walks(px, py) {
                    let (v, j) = choose|v: int, j: int|
                        0 <= v < 6 && 1 <= j <= walk_steps(dwi) && (v < 6 || (v == 6 && j <= 0)) && #[trigger] walker_at(
                            v,
                            j as nat,
                            dwi,
                            dhi,
                            seed,
                        ) == (px, py) && 0 <= px < reveal_x;
                    assert(brownian_dot(dwi, dhi, reveal_x as int, seed, px, py));
                }
            }
            lemma_gains_trans(g0, g2, grid@, walks, base, |x: int, y: int| brownian_dot(dwi, dhi, reveal_x as int, seed, x, y));
        }
    }
}

} // verus!
