//! Plants / flora progress bars — living, growing, breathing.

use vstd::prelude::*;
use crate::progress::ProgressStyle;
use crate::progress::draw;
use crate::grid::{lemma_gains_dot, lemma_gains_nothing, lemma_gains_trans, lemma_with_char_glyph, BrailleGrid, GridView};

verus! {

/// The `seedling` style.
pub struct Seedling;

impl ProgressStyle for Seedling {
    open spec fn style_name(&self) -> Seq<char> {
        "seedling"@
    }

    open spec fn style_theme(&self) -> Seq<char> {
        "plants"@
    }

    open spec fn style_description(&self) -> Seq<char> {
        "Five discrete growth stages: seed → sprout → stem → leaves → flower, driven by progress"@
    }

    fn name(&self) -> (r: &str) {
        "seedling"
    }

    fn theme(&self) -> (r: &str) {
        "plants"
    }

    fn describe(&self) -> (r: &str) {
        "Five discrete growth stages: seed → sprout → stem → leaves → flower, driven by progress"
    }
}

/// The `fern-fiddlehead` style.
pub struct FernFiddlehead;

impl ProgressStyle for FernFiddlehead {
    open spec fn style_name(&self) -> Seq<char> {
        "fern-fiddlehead"@
    }

    open spec fn style_theme(&self) -> Seq<char> {
        "plants"@
    }

    open spec fn style_description(&self) -> Seq<char> {
        "A fern fiddlehead unrolls from a tight coil into an open frond as progress advances"@
    }

    fn name(&self) -> (r: &str) {
        "fern-fiddlehead"
    }

    fn theme(&self) -> (r: &str) {
        "plants"
    }

    fn describe(&self) -> (r: &str) {
        "A fern fiddlehead unrolls from a tight coil into an open frond as progress advances"
    }
}

/// The `bamboo-shoot` style.
pub struct BambooShoot;

impl ProgressStyle for BambooShoot {
    open spec fn style_name(&self) -> Seq<char> {
        "bamboo-shoot"@
    }

    open spec fn style_theme(&self) -> Seq<char> {
        "plants"@
    }

    open spec fn style_description(&self) -> Seq<char> {
        "Bamboo culm grows segment by segment upward; joints appear at each node as progress rises"@
    }

    fn name(&self) -> (r: &str) {
        "bamboo-shoot"
    }

    fn theme(&self) -> (r: &str) {
        "plants"
    }

    fn describe(&self) -> (r: &str) {
        "Bamboo culm grows segment by segment upward; joints appear at each node as progress rises"
    }
}

/// The `ivy-trellis` style.
pub struct IvyTrellis;

impl ProgressStyle for IvyTrellis {
    open spec fn style_name(&self) -> Seq<char> {
        "ivy-trellis"@
    }

    open spec fn style_theme(&self) -> Seq<char> {
        "plants"@
    }

    open spec fn style_description(&self) -> Seq<char> {
        "Ivy climbs a dot-grid trellis left-to-right; curling tendrils spiral off the vine"@
    }

    fn name(&self) -> (r: &str) {
        "ivy-trellis"
    }

    fn theme(&self) -> (r: &str) {
        "plants"
    }

    fn describe(&self) -> (r: &str) {
        "Ivy climbs a dot-grid trellis left-to-right; curling tendrils spiral off the vine"
    }
}

/// The `cactus-arms` style.
pub struct CactusArms;

impl ProgressStyle for CactusArms {
    open spec fn style_name(&self) -> Seq<char> {
        "cactus-arms"@
    }

    open spec fn style_theme(&self) -> Seq<char> {
        "plants"@
    }

    open spec fn style_description(&self) -> Seq<char> {
        "A cactus trunk rises then sprouts a left arm, right arm, and finally spines at full growth"@
    }

    fn name(&self) -> (r: &str) {
        "cactus-arms"
    }

    fn theme(&self) -> (r: &str) {
        "plants"
    }

    fn describe(&self) -> (r: &str) {
        "A cactus trunk rises then sprouts a left arm, right arm, and finally spines at full growth"
    }
}

/// The `sunflower-seeds` style.
pub struct SunflowerSeeds;

impl ProgressStyle for SunflowerSeeds {
    open spec fn style_name(&self) -> Seq<char> {
        "sunflower-seeds"@
    }

    open spec fn style_theme(&self) -> Seq<char> {
        "plants"@
    }

    open spec fn style_description(&self) -> Seq<char> {
        "Sunflower disc fills with golden-angle phyllotaxis seeds radiating from the centre"@
    }

    fn name(&self) -> (r: &str) {
        "sunflower-seeds"
    }

    fn theme(&self) -> (r: &str) {
        "plants"
    }

    fn describe(&self) -> (r: &str) {
        "Sunflower disc fills with golden-angle phyllotaxis seeds radiating from the centre"
    }
}

/// The `mushroom-cap` style.
pub struct MushroomCap;

impl ProgressStyle for MushroomCap {
    open spec fn style_name(&self) -> Seq<char> {
        "mushroom-cap"@
    }

    open spec fn style_theme(&self) -> Seq<char> {
        "plants"@
    }

    open spec fn style_description(&self) -> Seq<char> {
        "A mushroom stalk rises then its dome cap expands; spore dots drift downward"@
    }

    fn name(&self) -> (r: &str) {
        "mushroom-cap"
    }

    fn theme(&self) -> (r: &str) {
        "plants"
    }

    fn describe(&self) -> (r: &str) {
        "A mushroom stalk rises then its dome cap expands; spore dots drift downward"
    }
}

/// The `succulent-rosette` style.
pub struct Succulent;

impl ProgressStyle for Succulent {
    open spec fn style_name(&self) -> Seq<char> {
        "succulent-rosette"@
    }

    open spec fn style_theme(&self) -> Seq<char> {
        "plants"@
    }

    open spec fn style_description(&self) -> Seq<char> {
        "A succulent rosette opens radially; leaves widen and extend as progress advances"@
    }

    fn name(&self) -> (r: &str) {
        "succulent-rosette"
    }

    fn theme(&self) -> (r: &str) {
        "plants"
    }

    fn describe(&self) -> (r: &str) {
        "A succulent rosette opens radially; leaves widen and extend as progress advances"
    }
}

/// The `root-system` style.
pub struct RootSystem;

impl ProgressStyle for RootSystem {
    open spec fn style_name(&self) -> Seq<char> {
        "root-system"@
    }

    open spec fn style_theme(&self) -> Seq<char> {
        "plants"@
    }

    open spec fn style_description(&self) -> Seq<char> {
        "Fractal root branches grow downward from a taproot; depth and density increase with progress"@
    }

    fn name(&self) -> (r: &str) {
        "root-system"
    }

    fn theme(&self) -> (r: &str) {
        "plants"
    }

    fn describe(&self) -> (r: &str) {
        "Fractal root branches grow downward from a taproot; depth and density increase with progress"
    }
}

/// The `bonsai` style.
pub struct Bonsai;

impl ProgressStyle for Bonsai {
    open spec fn style_name(&self) -> Seq<char> {
        "bonsai"@
    }

    open spec fn style_theme(&self) -> Seq<char> {
        "plants"@
    }

    open spec fn style_description(&self) -> Seq<char> {
        "A bonsai forms: trunk rises, branches fork in tiers, then canopy foliage fills in"@
    }

    fn name(&self) -> (r: &str) {
        "bonsai"
    }

    fn theme(&self) -> (r: &str) {
        "plants"
    }

    fn describe(&self) -> (r: &str) {
        "A bonsai forms: trunk rises, branches fork in tiers, then canopy foliage fills in"
    }
}

/// A saguaro arm: how far it reaches sideways and how far it then rises.
pub struct Arm {
    pub reach: i32,
    pub rise: i32,
}

/// Row `r` carries a spine on a trunk from `top` (exclusive) down to row
/// `base`: every fourth row above the base.
pub open spec fn spine_row(r: int, top: int, base: int) -> bool {
    top < r <= base - 4 && (base - r) % 4 == 0
}

/// Side a spine on row `r` sticks out to: right on even quarter rows.
pub open spec fn spine_side(r: int) -> int {
    if (r / 4) % 2 == 0 {
        3
    } else {
        -3
    }
}

/// Part `k` of a saguaro whose trunk stands two dots wide at column `cx`
/// from row `base` up `trunk_h` rows: the two trunk columns (0, 1); a rib
/// left of the trunk when `rib` shows on a trunk taller than 4 (2); a left
/// arm attached a third of the way down from the top (3) and a right arm a
/// fifth of the way (4), each reaching out then rising; and, when `spines`
/// show, a spine on every fourth row (5) with a dot above it one column
/// out (6).
pub open spec fn cactus_part(
    k: int,
    cx: int,
    base: int,
    trunk_h: int,
    rib: bool,
    left: Option<Arm>,
    right: Option<Arm>,
    spines: bool,
    x: int,
    y: int,
) -> bool {
    let top = base - trunk_h;
    let la = top + trunk_h / 3;
    let ra = top + trunk_h / 5;
    if k == 0 {
        x == cx && top <= y <= base
    } else if k == 1 {
        x == cx + 1 && top <= y <= base
    } else if k == 2 {
        rib && trunk_h > 4 && x == cx - 1 && base - (trunk_h - 2) <= y <= base - 2
    } else if k == 3 {
        left is Some && ((y == la && cx - left->0.reach <= x <= cx) || (x == cx - left->0.reach && la - left->0.rise
            <= y <= la))
    } else if k == 4 {
        right is Some && ((y == ra && cx + 1 <= x <= cx + 1 + right->0.reach) || (x == cx + 1 + right->0.reach && ra
            - right->0.rise <= y <= ra))
    } else if k == 5 {
        spines && spine_row(y, top, base) && x == cx + spine_side(y)
    } else {
        spines && spine_row(y + 1, top, base) && x == cx + spine_side(y + 1) / 3
    }
}

/// The parts of the saguaro before `k`.
pub open spec fn cactus_upto(
    k: int,
    cx: int,
    base: int,
    trunk_h: int,
    rib: bool,
    left: Option<Arm>,
    right: Option<Arm>,
    spines: bool,
) -> spec_fn(int, int) -> bool {
    |x: int, y: int| exists|j: int| 0 <= j < k && #[trigger] cactus_part(j, cx, base, trunk_h, rib, left, right, spines, x, y)
}

/// A grid that gained `s` has gained any shape that agrees with `s` on
/// the lattice.
proof fn lemma_gains_same(g0: GridView, g: GridView, s: spec_fn(int, int) -> bool, t: spec_fn(int, int) -> bool)
    requires
        g0.gains_dots(g, s),
        forall|x: int, y: int| g0.in_dots(x, y) ==> (s(x, y) <==> t(x, y)),
    ensures
        g0.gains_dots(g, t),
{
}

/// Raises the dots `(x, y0 - k)` for `k` in `0..=len`, extending what the
/// grid has gained since `g0`.
fn column_up(
    grid: &mut BrailleGrid,
    x: i32,
    y0: i32,
    len: i32,
    Ghost(g0): Ghost<GridView>,
    Ghost(shape): Ghost<spec_fn(int, int) -> bool>,
)
    requires
        old(grid)@.wf(),
        g0.gains_dots(old(grid)@, shape),
        0 <= len < i32::MAX,
        y0 - len >= i32::MIN,
    ensures
        g0.gains_dots(final(grid)@, |px: int, py: int| shape(px, py) || (px == x && y0 - len <= py <= y0)),
{
    let mut k: i32 = 0;
    while k <= len
        invariant
            0 <= k <= len + 1,
            0 <= len < i32::MAX,
            y0 - len >= i32::MIN,
            g0.gains_dots(grid@, |px: int, py: int| shape(px, py) || (px == x && y0 - k < py <= y0)),
        decreases len + 1 - k,
    {
        let ghost g1 = grid@;
        draw::dot_i(grid, x, y0 - k);
        proof {
            lemma_gains_dot(
                g0,
                g1,
                x as int,
                y0 - k,
                |px: int, py: int| shape(px, py) || (px == x && y0 - k < py <= y0),
                |px: int, py: int| shape(px, py) || (px == x && y0 - (k + 1) < py <= y0),
            );
        }
        k = k + 1;
    }
}

/// Raises the dots `(x, y)` for `x` from `x0` to `x1` inclusive, extending
/// what the grid has gained since `g0`.
fn row_span(
    grid: &mut BrailleGrid,
    x0: i32,
    x1: i32,
    y: i32,
    Ghost(g0): Ghost<GridView>,
    Ghost(shape): Ghost<spec_fn(int, int) -> bool>,
)
    requires
        old(grid)@.wf(),
        g0.gains_dots(old(grid)@, shape),
        x0 <= x1,
    ensures
        g0.gains_dots(final(grid)@, |px: int, py: int| shape(px, py) || (py == y && x0 <= px <= x1)),
{
    let mut x = x0;
    while x < x1
        invariant
            x0 <= x <= x1,
            g0.gains_dots(grid@, |px: int, py: int| shape(px, py) || (py == y && x0 <= px < x)),
        decreases x1 - x,
    {
        let ghost g1 = grid@;
        draw::dot_i(grid, x, y);
        proof {
            lemma_gains_dot(
                g0,
                g1,
                x as int,
                y as int,
                |px: int, py: int| shape(px, py) || (py == y && x0 <= px < x),
                |px: int, py: int| shape(px, py) || (py == y && x0 <= px < x + 1),
            );
        }
        x = x + 1;
    }
    let ghost g1 = grid@;
    draw::dot_i(grid, x1, y);
    proof {
        lemma_gains_dot(
            g0,
            g1,
            x1 as int,
            y as int,
            |px: int, py: int| shape(px, py) || (py == y && x0 <= px < x1),
            |px: int, py: int| shape(px, py) || (py == y && x0 <= px <= x1),
        );
    }
}

impl CactusArms {
    /// The saguaro of one frame, standing at the middle column: a trunk
    /// `trunk_h` rows tall, its rib when `rib`, the `left` and `right` arms
    /// when grown, and the spines when `spines`.
    pub fn draw(
        &self,
        grid: &mut BrailleGrid,
        trunk_h: i32,
        rib: bool,
        left: Option<Arm>,
        right: Option<Arm>,
        spines: bool,
    )
        requires
            old(grid)@.wf(),
            old(grid)@.dot_width() + old(grid)@.dot_height() <= 0x4000_0000,
            0 <= trunk_h < old(grid)@.dot_height(),
            left matches Some(a) ==> 0 <= a.reach <= old(grid)@.dot_width() && 0 <= a.rise <= old(grid)@.dot_height(),
            right matches Some(a) ==> 0 <= a.reach <= old(grid)@.dot_width() && 0 <= a.rise <= old(grid)@.dot_height(),
        ensures
            old(grid)@.gains_dots(
                final(grid)@,
                cactus_upto(
                    7,
                    old(grid)@.dot_width() as int / 2,
                    old(grid)@.dot_height() - 1,
                    trunk_h as int,
                    rib,
                    left,
                    right,
                    spines,
                ),
            ),
    {
        let ghost g0 = grid@;
        let (w, h) = draw::dot_dims(grid);
        let cx = (w / 2) as i32;
        let base_y = (h - 1) as i32;
        let trunk_top = base_y - trunk_h;
        let ghost ci = cx as int;
        let ghost bi = base_y as int;
        let ghost th = trunk_h as int;
        proof {
            lemma_gains_nothing(g0, cactus_upto(0, ci, bi, th, rib, left, right, spines));
        }
        column_up(grid, cx, base_y, trunk_h, Ghost(g0), Ghost(cactus_upto(0, ci, bi, th, rib, left, right, spines)));
        proof {
            let got = |px: int, py: int| cactus_upto(0, ci, bi, th, rib, left, right, spines)(px, py) || (px == cx && base_y
                - trunk_h <= py <= base_y);
            assert forall|x: int, y: int| g0.in_dots(x, y) implies (got(x, y) <==> cactus_upto(1, ci, bi, th, rib, left, right, spines)(x, y)) by {
                if got(x, y) {
                    assert(cactus_part(0, ci, bi, th, rib, left, right, spines, x, y));
                }
            }
            lemma_gains_same(g0, grid@, got, cactus_upto(1, ci, bi, th, rib, left, right, spines));
        }
        column_up(grid, cx + 1, base_y, trunk_h, Ghost(g0), Ghost(cactus_upto(1, ci, bi, th, rib, left, right, spines)));
        proof {
            let got = |px: int, py: int| cactus_upto(1, ci, bi, th, rib, left, right, spines)(px, py) || (px == cx + 1 && base_y
                - trunk_h <= py <= base_y);
            assert forall|x: int, y: int| g0.in_dots(x, y) implies (got(x, y) <==> cactus_upto(2, ci, bi, th, rib, left, right, spines)(x, y)) by {
                if got(x, y) && x == cx + 1 && base_y - trunk_h <= y <= base_y {
                    assert(cactus_part(1, ci, bi, th, rib, left, right, spines, x, y));
                }
            }
            lemma_gains_same(g0, grid@, got, cactus_upto(2, ci, bi, th, rib, left, right, spines));
        }
        if rib && trunk_h > 4 {
            column_up(grid, cx - 1, base_y - 2, trunk_h - 4, Ghost(g0), Ghost(cactus_upto(2, ci, bi, th, rib, left, right, spines)));
            proof {
                let got = |px: int, py: int| cactus_upto(2, ci, bi, th, rib, left, right, spines)(px, py) || (px == cx - 1
                    && base_y - 2 - (trunk_h - 4) <= py <= base_y - 2);
                assert forall|x: int, y: int| g0.in_dots(x, y) implies (got(x, y) <==> cactus_upto(3, ci, bi, th, rib, left, right, spines)(x, y)) by {
                    if got(x, y) && x == cx - 1 && base_y - 2 - (trunk_h - 4) <= y <= base_y - 2 {
                        assert(cactus_part(2, ci, bi, th, rib, left, right, spines, x, y));
                    }
                }
                lemma_gains_same(g0, grid@, got, cactus_upto(3, ci, bi, th, rib, left, right, spines));
            }
        } else {
            proof {
                lemma_gains_same(g0, grid@, cactus_upto(2, ci, bi, th, rib, left, right, spines), cactus_upto(3, ci, bi, th, rib, left, right, spines));
            }
        }
        match left {
            Some(a) => {
                let la = trunk_top + trunk_h / 3;
                row_span(grid, cx - a.reach, cx, la, Ghost(g0), Ghost(cactus_upto(3, ci, bi, th, rib, left, right, spines)));
                let ghost s = |px: int, py: int| cactus_upto(3, ci, bi, th, rib, left, right, spines)(px, py) || (py == la && cx
                    - a.reach <= px <= cx);
                column_up(grid, cx - a.reach, la, a.rise, Ghost(g0), Ghost(s));
                proof {
                    let got = |px: int, py: int| s(px, py) || (px == cx - a.reach && la - a.rise <= py <= la);
                    assert forall|x: int, y: int| g0.in_dots(x, y) implies (got(x, y) <==> cactus_upto(4, ci, bi, th, rib, left, right, spines)(x, y)) by {
                        if got(x, y) && !cactus_upto(3, ci, bi, th, rib, left, right, spines)(x, y) {
                            assert(cactus_part(3, ci, bi, th, rib, left, right, spines, x, y));
                        }
                    }
                    lemma_gains_same(g0, grid@, got, cactus_upto(4, ci, bi, th, rib, left, right, spines));
                }
            },
            None => {
                proof {
                    lemma_gains_same(g0, grid@, cactus_upto(3, ci, bi, th, rib, left, right, spines), cactus_upto(4, ci, bi, th, rib, left, right, spines));
                }
            },
        }
        match right {
            Some(a) => {
                let ra = trunk_top + trunk_h / 5;
                row_span(grid, cx + 1, cx + 1 + a.reach, ra, Ghost(g0), Ghost(cactus_upto(4, ci, bi, th, rib, left, right, spines)));
                let ghost s = |px: int, py: int| cactus_upto(4, ci, bi, th, rib, left, right, spines)(px, py) || (py == ra && cx
                    + 1 <= px <= cx + 1 + a.reach);
                column_up(grid, cx + 1 + a.reach, ra, a.rise, Ghost(g0), Ghost(s));
                proof {
                    let got = |px: int, py: int| s(px, py) || (px == cx + 1 + a.reach && ra - a.rise <= py <= ra);
                    assert forall|x: int, y: int| g0.in_dots(x, y) implies (got(x, y) <==> cactus_upto(5, ci, bi, th, rib, left, right, spines)(x, y)) by {
                        if got(x, y) && !cactus_upto(4, ci, bi, th, rib, left, right, spines)(x, y) {
                            assert(cactus_part(4, ci, bi, th, rib, left, right, spines, x, y));
                        }
                    }
                    lemma_gains_same(g0, grid@, got, cactus_upto(5, ci, bi, th, rib, left, right, spines));
                }
            },
            None => {
                proof {
                    lemma_gains_same(g0, grid@, cactus_upto(4, ci, bi, th, rib, left, right, spines), cactus_upto(5, ci, bi, th, rib, left, right, spines));
                }
            },
        }
        if spines {
            let mut y = base_y - 4;
            while y > trunk_top
                invariant
                    g0.wf(),
                    ci == cx,
                    bi == base_y,
                    th == trunk_h,
                    spines,
                    0 <= trunk_h,
                    trunk_top == base_y - trunk_h,
                    0 <= trunk_top,
                    base_y < 0x4000_0000,
                    y <= base_y - 4,
                    y >= trunk_top - 4,
                    (base_y - y) % 4 == 0,
                    0 <= cx < 0x4000_0000,
                    g0.gains_dots(
                        grid@,
                        |px: int, py: int| cactus_upto(5, ci, bi, th, rib, left, right, spines)(px, py) || (py > y && (
                        cactus_part(5, ci, bi, th, rib, left, right, spines, px, py) || cactus_part(6, ci, bi, th, rib, left, right, spines, px, py + 0))),
                    ),
                decreases y - trunk_top + 4,
            {
                let side: i32 = if (y / 4) % 2 == 0 { 3 } else { -3 };
                let half: i32 = if side > 0 { 1 } else { -1 };
                let ghost before = |px: int, py: int| cactus_upto(5, ci, bi, th, rib, left, right, spines)(px, py) || (py > y && (
                cactus_part(5, ci, bi, th, rib, left, right, spines, px, py) || cactus_part(6, ci, bi, th, rib, left, right, spines, px, py + 0)));
                let ghost mid = |px: int, py: int| before(px, py) || (px == cx + side && py == y);
                let ghost after = |px: int, py: int| cactus_upto(5, ci, bi, th, rib, left, right, spines)(px, py) || (py > y - 4 && (
                cactus_part(5, ci, bi, th, rib, left, right, spines, px, py) || cactus_part(6, ci, bi, th, rib, left, right, spines, px, py + 0)));
                let ghost g1 = grid@;
                draw::dot_i(grid, cx + side, y);
                proof {
                    lemma_gains_dot(g0, g1, cx + side, y as int, before, mid);
                }
                let ghost g2 = grid@;
                draw::dot_i(grid, cx + half, y - 1);
                proof {
                    assert(spine_side(y as int) == side);
                    assert(spine_side(y as int) / 3 == half);
                    assert forall|px: int, py: int| g0.in_dots(px, py) implies (after(px, py) <==> (mid(px, py) || (px == cx + half
                        && py == y - 1))) by {
                        if py > y - 4 && py <= y && cactus_part(5, ci, bi, th, rib, left, right, spines, px, py) {
                            assert(py == y) by {
                                assert((bi - py) % 4 == 0);
                            }
                        }
                        if py > y - 4 && py <= y && cactus_part(6, ci, bi, th, rib, left, right, spines, px, py) {
                            assert(py + 1 == y) by {
                                assert((bi - (py + 1)) % 4 == 0);
                            }
                        }
                    }
                    lemma_gains_dot(g0, g2, cx + half, y - 1, mid, after);
                }
                y = y - 4;
            }
            proof {
                assert forall|x: int, yy: int| g0.in_dots(x, yy) implies (#[trigger] grid@.is_lit(x, yy) <==> (g0.is_lit(x, yy)
                    || cactus_upto(7, ci, bi, th, rib, left, right, spines)(x, yy))) by {
                    let j5 = cactus_part(5, ci, bi, th, rib, left, right, spines, x, yy);
                    let j6 = cactus_part(6, ci, bi, th, rib, left, right, spines, x, yy);
                    if cactus_upto(7, ci, bi, th, rib, left, right, spines)(x, yy) && !cactus_upto(5, ci, bi, th, rib, left, right, spines)(x, yy) {
                        let j = choose|j: int| 0 <= j < 7 && #[trigger] cactus_part(j, ci, bi, th, rib, left, right, spines, x, yy);
                        assert(j == 5 || j == 6);
                    }
                    if j5 || j6 {
                        assert(yy > y);
                    }
                }
            }
        } else {
            proof {
                lemma_gains_same(g0, grid@, cactus_upto(5, ci, bi, th, rib, left, right, spines), cactus_upto(7, ci, bi, th, rib, left, right, spines));
            }
        }
    }
}

/// Number of segments of a bamboo culm that show on a bar `ch` cells tall
/// when `segs` have grown: each segment takes two cell rows, and at least
/// one fits.
pub open spec fn bamboo_count(ch: int, segs: int) -> int {
    let fit = if ch / 2 > 1 { ch / 2 } else { 1 };
    if segs < fit { segs } else { fit }
}

/// Cell column of the culm on a bar `cw` cells wide, swayed `sway` cells
/// from the middle and kept on the bar.
pub open spec fn bamboo_col(cw: int, sway: int) -> int {
    let c = cw / 2 + sway;
    if c < 0 {
        0
    } else if c > cw - 1 {
        cw - 1
    } else {
        c
    }
}

/// Top cell row of a culm of `n` segments on a bar `ch` cells tall.
pub open spec fn bamboo_top(ch: int, n: int) -> int {
    if ch - 2 * n > 0 { ch - 2 * n } else { 0 }
}

/// Dot row of the joint at the base of segment `seg`.
pub open spec fn bamboo_node_y(ch: int, seg: int) -> int {
    4 * (ch - 1 - 2 * seg) + 3
}

/// `(x, y)` belongs to the three-dot leaf of segment `seg` of a culm in
/// cell column `sx`: every other segment bears one, sweeping up and out to
/// the right and to the left in turn.
pub open spec fn bamboo_leaf(ch: int, sx: int, seg: int, x: int, y: int) -> bool {
    let side = if seg % 4 == 0 { 1int } else { -1int };
    let y0 = 4 * (ch - 1 - 2 * seg);
    &&& seg % 2 == 0
    &&& ((x == 2 * sx + side && y == y0 - 1) || (x == 2 * sx + 2 * side && y == y0 - 2) || (x == 2 * sx + 3 * side
        && y == y0 - 3))
}

/// The dots of a bamboo frame on a bar `cw x ch` cells with `segs`
/// segments grown and the culm swayed `sway` cells: a border column on
/// each side of the culm, a joint line at the base of each segment, and,
/// once more than one segment has grown, the leaves.
pub open spec fn bamboo_dots(cw: int, ch: int, segs: int, sway: int) -> spec_fn(int, int) -> bool {
    let n = bamboo_count(ch, segs);
    let sx = bamboo_col(cw, sway);
    let top = bamboo_top(ch, n);
    let left = if sx >= 1 { 2 * sx - 1 } else { 0 };
    let right = if 2 * sx + 2 < 2 * cw - 1 { 2 * sx + 2 } else { 2 * cw - 1 };
    let joint_l = if sx >= 1 { 2 * (sx - 1) } else { 0 };
    let joint_r = if sx + 2 < cw { 2 * (sx + 2) } else { 2 * cw };
    |x: int, y: int|
        (n >= 1 && 4 * top <= y <= 4 * ch - 1 && (x == left || x == right)) || ((exists|seg: int|
            0 <= seg < n && y == #[trigger] bamboo_node_y(ch, seg)) && joint_l <= x <= joint_r) || (segs > 1 && exists|
            seg: int,
        |
            0 <= seg < n && #[trigger] bamboo_leaf(ch, sx, seg, x, y))
}

/// The glyph override of cell `(x, y)` after a bamboo frame: a full block
/// down the culm, else `prior`.
pub open spec fn bamboo_glyph(cw: int, ch: int, segs: int, sway: int, x: int, y: int, prior: Option<char>) -> Option<char> {
    let n = bamboo_count(ch, segs);
    if n >= 1 && x == bamboo_col(cw, sway) && bamboo_top(ch, n) <= y <= ch - 1 {
        Some('█')
    } else {
        prior
    }
}

/// A culm segment that shows starts at or above the bottom row: its two
/// cell rows lie on the bar.
proof fn lemma_bamboo_rows(ch: int, segs: int, seg: int)
    requires
        ch >= 1,
        0 <= seg < bamboo_count(ch, segs),
    ensures
        1 + 2 * seg <= ch,
{
}

impl BambooShoot {
    /// One frame of the bamboo culm: `segs_grown` segments rising from the
    /// bottom row, swayed `sway_cells` cells off the middle column.
    pub fn draw(&self, grid: &mut BrailleGrid, segs_grown: usize, sway_cells: i32)
        requires
            old(grid)@.wf(),
            old(grid)@.dot_width() < i32::MAX,
            old(grid)@.dot_height() <= i32::MAX,
            old(grid)@.width / 2 + sway_cells <= i32::MAX,
        ensures
            final(grid)@.wf(),
            old(grid)@.gains_dots(
                (GridView { characters: old(grid)@.characters, ..final(grid)@ }),
                bamboo_dots(old(grid)@.width as int, old(grid)@.height as int, segs_grown as int, sway_cells as int),
            ),
            final(grid)@.characters.len() == old(grid)@.characters.len(),
            forall|x: int, y: int|
                old(grid)@.in_cells(x, y) ==> #[trigger] final(grid)@.characters[old(grid)@.cell_index(x, y)]
                    == bamboo_glyph(
                    old(grid)@.width as int,
                    old(grid)@.height as int,
                    segs_grown as int,
                    sway_cells as int,
                    x,
                    y,
                    old(grid)@.characters[old(grid)@.cell_index(x, y)],
                ),
    {
        let ghost g0 = grid@;
        let (cw, ch) = grid.dimensions();
        let ghost cwi = cw as int;
        let ghost chi = ch as int;
        let fit = if ch / 2 > 1 { ch / 2 } else { 1 };
        let n = if segs_grown < fit { segs_grown } else { fit };
        let c: i32 = (cw / 2) as i32 + sway_cells;
        let sx: usize = if c < 0 {
            0
        } else if c as usize > cw - 1 {
            cw - 1
        } else {
            c as usize
        };
        let top = if n == 0 { ch } else if ch > 2 * n { ch - 2 * n } else { 0 };
        proof {
            assert(sx as int == bamboo_col(cwi, sway_cells as int));
            assert(n as int == bamboo_count(chi, segs_grown as int));
        }
        // The culm: a full block in each of its cells.
        let mut y = top;
        while y < ch
            invariant
                g0.wf(),
                cw == g0.width,
                ch == g0.height,
                sx < cw,
                top <= y <= ch,
                n >= 1 ==> top as int == bamboo_top(chi, n as int),
                n == 0 ==> top == ch,
                grid@.wf(),
                grid@.width == g0.width,
                grid@.height == g0.height,
                grid@.patterns == g0.patterns,
                grid@.colors == g0.colors,
                forall|px: int, py: int|
                    g0.in_cells(px, py) ==> #[trigger] grid@.characters[g0.cell_index(px, py)] == (if px == sx && top
                        <= py < y {
                        Some('█')
                    } else {
                        g0.characters[g0.cell_index(px, py)]
                    }),
            decreases ch - y,
        {
            let ghost g = grid@;
            draw::vblock(grid, sx, y, 8);
            proof {
                assert(draw::v_block(8) == '█');
                assert forall|px: int, py: int| g0.in_cells(px, py) implies #[trigger] grid@.characters[g0.cell_index(px, py)]
                    == (if px == sx && top <= py < y + 1 {
                    Some('█')
                } else {
                    g0.characters[g0.cell_index(px, py)]
                }) by {
                    lemma_with_char_glyph(g, sx as int, y as int, '█', px, py);
                }
            }
            y = y + 1;
        }
        let ghost glyphs = grid@;
        let ghost shape = bamboo_dots(cwi, chi, segs_grown as int, sway_cells as int);
        let ghost left = if sx >= 1 { 2 * sx - 1 } else { 0 };
        let ghost right = if 2 * sx + 2 < 2 * cw - 1 { 2 * sx + 2 } else { 2 * cw - 1 };
        let ghost joint_l = if sx >= 1 { 2 * (sx - 1) } else { 0 };
        let ghost joint_r = if sx + 2 < cw { 2 * (sx + 2) } else { 2 * cwi };
        let ghost border = |px: int, py: int| n >= 1 && 4 * top <= py <= 4 * ch - 1 && (px == left || px == right);
        proof {
            lemma_gains_nothing(glyphs, |px: int, py: int| false);
        }
        // The border columns on either side of the culm.
        if n >= 1 {
            let dl = if sx >= 1 { 2 * sx - 1 } else { 0 };
            let dr = if 2 * sx + 2 < 2 * cw - 1 { 2 * sx + 2 } else { 2 * cw - 1 };
            let y0 = 4 * top;
            let y1 = 4 * ch - 1;
            let ghost g1 = grid@;
            draw::vline(grid, dl, y0, y1);
            let ghost g2 = grid@;
            draw::vline(grid, dr, y0, y1);
            proof {
                let s1 = |px: int, py: int| px == dl && (if y0 <= y1 { y0 <= py <= y1 } else { y1 <= py <= y0 });
                let s2 = |px: int, py: int| px == dr && (if y0 <= y1 { y0 <= py <= y1 } else { y1 <= py <= y0 });
                lemma_gains_trans(glyphs, g1, g2, |px: int, py: int| false, s1, s1);
                lemma_gains_trans(glyphs, g2, grid@, s1, s2, border);
            }
        } else {
            proof {
                lemma_gains_same(glyphs, grid@, |px: int, py: int| false, border);
            }
        }
        // The joints at the base of each segment.
        let jl = if sx >= 1 { 2 * (sx - 1) } else { 0 };
        let jr = if sx + 2 < cw { 2 * (sx + 2) } else { 2 * cw };
        let mut seg: usize = 0;
        while seg < n
            invariant
                glyphs.wf(),
                cw == glyphs.width,
                ch == glyphs.height,
                cwi == cw,
                chi == ch,
                ch * 4 <= i32::MAX,
                sx < cw,
                n as int == bamboo_count(chi, segs_grown as int),
                jl <= jr,
                seg <= n,
                glyphs.gains_dots(
                    grid@,
                    |px: int, py: int|
                        border(px, py) || ((exists|j: int| 0 <= j < seg && py == #[trigger] bamboo_node_y(chi, j)) && jl
                            <= px <= jr),
                ),
            decreases n - seg,
        {
            let ghost before = |px: int, py: int|
                border(px, py) || ((exists|j: int| 0 <= j < seg && py == #[trigger] bamboo_node_y(chi, j)) && jl <= px
                    <= jr);
            let ghost after = |px: int, py: int|
                border(px, py) || ((exists|j: int| 0 <= j < seg + 1 && py == #[trigger] bamboo_node_y(chi, j)) && jl
                    <= px <= jr);
            proof {
                lemma_bamboo_rows(chi, segs_grown as int, seg as int);
            }
            let ny = 4 * (ch - 1 - 2 * seg) + 3;
            let ghost g = grid@;
            draw::hline(grid, jl, jr, ny);
            proof {
                let line = |px: int, py: int| py == ny && (if jl <= jr { jl <= px <= jr } else { jr <= px <= jl });
                assert forall|px: int, py: int| glyphs.in_dots(px, py) implies (after(px, py) <==> (before(px, py) || line(
                    px,
                    py,
                ))) by {
                    if (exists|j: int| 0 <= j < seg + 1 && py == #[trigger] bamboo_node_y(chi, j)) {
                        let j = choose|j: int| 0 <= j < seg + 1 && py == #[trigger] bamboo_node_y(chi, j);
                        if j < seg {
                            assert(exists|j: int| 0 <= j < seg && py == #[trigger] bamboo_node_y(chi, j));
                        }
                    }
                    if py == ny {
                        assert(py == bamboo_node_y(chi, seg as int));
                    }
                }
                lemma_gains_trans(glyphs, g, grid@, before, line, after);
            }
            seg = seg + 1;
        }
        let ghost jointed = |px: int, py: int|
            border(px, py) || ((exists|j: int| 0 <= j < n && py == #[trigger] bamboo_node_y(chi, j)) && jl <= px <= jr);
        proof {
            lemma_gains_same(
                glyphs,
                grid@,
                |px: int, py: int|
                    border(px, py) || ((exists|j: int| 0 <= j < seg && py == #[trigger] bamboo_node_y(chi, j)) && jl <= px
                        <= jr),
                jointed,
            );
        }
        // The leaves, on every other segment once the culm has grown.
        let mut leaf_seg: usize = 0;
        while leaf_seg < n
            invariant
                glyphs.wf(),
                cw == glyphs.width,
                ch == glyphs.height,
                cwi == cw,
                chi == ch,
                2 * cw < i32::MAX,
                ch * 4 <= i32::MAX,
                sx < cw,
                n as int == bamboo_count(chi, segs_grown as int),
                leaf_seg <= n,
                glyphs.gains_dots(
                    grid@,
                    |px: int, py: int|
                        jointed(px, py) || (segs_grown > 1 && exists|j: int|
                            0 <= j < leaf_seg && #[trigger] bamboo_leaf(chi, sx as int, j, px, py)),
                ),
            decreases n - leaf_seg,
        {
            let ghost before = |px: int, py: int|
                jointed(px, py) || (segs_grown > 1 && exists|j: int|
                    0 <= j < leaf_seg && #[trigger] bamboo_leaf(chi, sx as int, j, px, py));
            let ghost after = |px: int, py: int|
                jointed(px, py) || (segs_grown > 1 && exists|j: int|
                    0 <= j < leaf_seg + 1 && #[trigger] bamboo_leaf(chi, sx as int, j, px, py));
            proof {
                lemma_bamboo_rows(chi, segs_grown as int, leaf_seg as int);
            }
            if leaf_seg % 2 == 0 && segs_grown > 1 {
                let side: i32 = if leaf_seg % 4 == 0 { 1 } else { -1 };
                let bx = (sx as i32) * 2;
                let by = ((ch - 1 - 2 * leaf_seg) as i32) * 4;
                let (x1, y1) = (bx + side, by - 1);
                let (x2, y2) = (bx + 2 * side, by - 2);
                let (x3, y3) = (bx + 3 * side, by - 3);
                let ghost g1 = grid@;
                draw::dot_i(grid, x1, y1);
                let ghost g2 = grid@;
                draw::dot_i(grid, x2, y2);
                let ghost g3 = grid@;
                draw::dot_i(grid, x3, y3);
                proof {
                    let m1 = |px: int, py: int| before(px, py) || (px == x1 && py == y1);
                    let m2 = |px: int, py: int| m1(px, py) || (px == x2 && py == y2);
                    lemma_gains_dot(glyphs, g1, x1 as int, y1 as int, before, m1);
                    lemma_gains_dot(glyphs, g2, x2 as int, y2 as int, m1, m2);
                    assert forall|px: int, py: int| glyphs.in_dots(px, py) implies (after(px, py) <==> (m2(px, py) || (px
                        == x3 && py == y3))) by {
                        if (exists|j: int| 0 <= j < leaf_seg + 1 && #[trigger] bamboo_leaf(chi, sx as int, j, px, py)) {
                            let j = choose|j: int| 0 <= j < leaf_seg + 1 && #[trigger] bamboo_leaf(chi, sx as int, j, px, py);
                            if j < leaf_seg {
                                assert(exists|j: int| 0 <= j < leaf_seg && #[trigger] bamboo_leaf(chi, sx as int, j, px, py));
                            }
                        }
                        if (px == x1 && py == y1) || (px == x2 && py == y2) || (px == x3 && py == y3) {
                            assert(bamboo_leaf(chi, sx as int, leaf_seg as int, px, py));
                        }
                    }
                    lemma_gains_dot(glyphs, g3, x3 as int, y3 as int, m2, after);
                }
            } else {
                proof {
                    assert forall|px: int, py: int| glyphs.in_dots(px, py) implies (after(px, py) <==> before(px, py)) by {
                        if segs_grown > 1 && (exists|j: int|
                            0 <= j < leaf_seg + 1 && #[trigger] bamboo_leaf(chi, sx as int, j, px, py)) {
                            let j = choose|j: int| 0 <= j < leaf_seg + 1 && #[trigger] bamboo_leaf(chi, sx as int, j, px, py);
                            if j < leaf_seg {
                                assert(exists|j: int| 0 <= j < leaf_seg && #[trigger] bamboo_leaf(chi, sx as int, j, px, py));
                            }
                        }
                    }
                    lemma_gains_same(glyphs, grid@, before, after);
                }
            }
            leaf_seg = leaf_seg + 1;
        }
        proof {
            let plain = GridView { characters: g0.characters, ..grid@ };
            assert forall|x: int, y: int| g0.in_dots(x, y) implies (#[trigger] plain.is_lit(x, y) <==> (g0.is_lit(x, y)
                || shape(x, y))) by {
                assert(glyphs.in_dots(x, y));
                assert(grid@.is_lit(x, y) <==> (glyphs.is_lit(x, y) || (jointed(x, y) || (segs_grown > 1 && exists|j: int|
                    0 <= j < leaf_seg && #[trigger] bamboo_leaf(chi, sx as int, j, x, y)))));
            }
        }
    }
}

} // verus!
