//! Nature / weather / seasons progress bars.

use vstd::prelude::*;
use crate::progress::ProgressStyle;
use crate::progress::draw;
use crate::grid::{lemma_gains_dot, lemma_gains_nothing, lemma_gains_trans, BrailleGrid};

verus! {

/// The `growing-vine` style.
pub struct GrowingVine;

impl ProgressStyle for GrowingVine {
    open spec fn style_name(&self) -> Seq<char> {
        "growing-vine"@
    }

    open spec fn style_theme(&self) -> Seq<char> {
        "nature"@
    }

    open spec fn style_description(&self) -> Seq<char> {
        "A vine climbs left-to-right; leaf crosses sprout at every 10% milestone"@
    }

    fn name(&self) -> (r: &str) {
        "growing-vine"
    }

    fn theme(&self) -> (r: &str) {
        "nature"
    }

    fn describe(&self) -> (r: &str) {
        "A vine climbs left-to-right; leaf crosses sprout at every 10% milestone"
    }
}

/// The `grass-blades` style.
pub struct GrassBlade;

impl ProgressStyle for GrassBlade {
    open spec fn style_name(&self) -> Seq<char> {
        "grass-blades"@
    }

    open spec fn style_theme(&self) -> Seq<char> {
        "nature"@
    }

    open spec fn style_description(&self) -> Seq<char> {
        "Individual grass blades grow taller with progress and sway in the wind"@
    }

    fn name(&self) -> (r: &str) {
        "grass-blades"
    }

    fn theme(&self) -> (r: &str) {
        "nature"
    }

    fn describe(&self) -> (r: &str) {
        "Individual grass blades grow taller with progress and sway in the wind"
    }
}

/// The `sunrise` style.
pub struct Sunrise;

impl ProgressStyle for Sunrise {
    open spec fn style_name(&self) -> Seq<char> {
        "sunrise"@
    }

    open spec fn style_theme(&self) -> Seq<char> {
        "nature"@
    }

    open spec fn style_description(&self) -> Seq<char> {
        "A sun disc rises along an arc; the horizon glows as it climbs"@
    }

    fn name(&self) -> (r: &str) {
        "sunrise"
    }

    fn theme(&self) -> (r: &str) {
        "nature"
    }

    fn describe(&self) -> (r: &str) {
        "A sun disc rises along an arc; the horizon glows as it climbs"
    }
}

/// The `rain-gauge` style.
pub struct RainGauge;

impl ProgressStyle for RainGauge {
    open spec fn style_name(&self) -> Seq<char> {
        "rain-gauge"@
    }

    open spec fn style_theme(&self) -> Seq<char> {
        "nature"@
    }

    open spec fn style_description(&self) -> Seq<char> {
        "Raindrops fall from a cloud; the water level rises with progress"@
    }

    fn name(&self) -> (r: &str) {
        "rain-gauge"
    }

    fn theme(&self) -> (r: &str) {
        "nature"
    }

    fn describe(&self) -> (r: &str) {
        "Raindrops fall from a cloud; the water level rises with progress"
    }
}

/// The `tree-rings` style.
pub struct TreeRings;

impl ProgressStyle for TreeRings {
    open spec fn style_name(&self) -> Seq<char> {
        "tree-rings"@
    }

    open spec fn style_theme(&self) -> Seq<char> {
        "nature"@
    }

    open spec fn style_description(&self) -> Seq<char> {
        "Concentric growth rings expand outward from the center as progress advances"@
    }

    fn name(&self) -> (r: &str) {
        "tree-rings"
    }

    fn theme(&self) -> (r: &str) {
        "nature"
    }

    fn describe(&self) -> (r: &str) {
        "Concentric growth rings expand outward from the center as progress advances"
    }
}

/// The `mountain-snow` style.
pub struct MountainSnow;

impl ProgressStyle for MountainSnow {
    open spec fn style_name(&self) -> Seq<char> {
        "mountain-snow"@
    }

    open spec fn style_theme(&self) -> Seq<char> {
        "nature"@
    }

    open spec fn style_description(&self) -> Seq<char> {
        "A mountain silhouette fills with snow creeping down from the peaks"@
    }

    fn name(&self) -> (r: &str) {
        "mountain-snow"
    }

    fn theme(&self) -> (r: &str) {
        "nature"
    }

    fn describe(&self) -> (r: &str) {
        "A mountain silhouette fills with snow creeping down from the peaks"
    }
}

/// The `four-seasons` style.
pub struct FourSeasons;

impl ProgressStyle for FourSeasons {
    open spec fn style_name(&self) -> Seq<char> {
        "four-seasons"@
    }

    open spec fn style_theme(&self) -> Seq<char> {
        "nature"@
    }

    open spec fn style_description(&self) -> Seq<char> {
        "The fill sweeps through spring, summer, autumn, and winter colour bands"@
    }

    fn name(&self) -> (r: &str) {
        "four-seasons"
    }

    fn theme(&self) -> (r: &str) {
        "nature"
    }

    fn describe(&self) -> (r: &str) {
        "The fill sweeps through spring, summer, autumn, and winter colour bands"
    }
}

/// The `flower-bloom` style.
pub struct FlowerBloom;

impl ProgressStyle for FlowerBloom {
    open spec fn style_name(&self) -> Seq<char> {
        "flower-bloom"@
    }

    open spec fn style_theme(&self) -> Seq<char> {
        "nature"@
    }

    open spec fn style_description(&self) -> Seq<char> {
        "Petals extend radially from the centre as the flower blooms with progress"@
    }

    fn name(&self) -> (r: &str) {
        "flower-bloom"
    }

    fn theme(&self) -> (r: &str) {
        "nature"
    }

    fn describe(&self) -> (r: &str) {
        "Petals extend radially from the centre as the flower blooms with progress"
    }
}

/// The `falling-leaves` style.
pub struct FallingLeaves;

impl ProgressStyle for FallingLeaves {
    open spec fn style_name(&self) -> Seq<char> {
        "falling-leaves"@
    }

    open spec fn style_theme(&self) -> Seq<char> {
        "nature"@
    }

    open spec fn style_description(&self) -> Seq<char> {
        "Autumn leaves drift downward with parabolic + sine sway, density grows with progress"@
    }

    fn name(&self) -> (r: &str) {
        "falling-leaves"
    }

    fn theme(&self) -> (r: &str) {
        "nature"
    }

    fn describe(&self) -> (r: &str) {
        "Autumn leaves drift downward with parabolic + sine sway, density grows with progress"
    }
}

/// The `lightning-bolt` style.
pub struct LightningBolt;

impl ProgressStyle for LightningBolt {
    open spec fn style_name(&self) -> Seq<char> {
        "lightning-bolt"@
    }

    open spec fn style_theme(&self) -> Seq<char> {
        "nature"@
    }

    open spec fn style_description(&self) -> Seq<char> {
        "A jagged lightning bolt zigzags across the bar; intensity pulses with time"@
    }

    fn name(&self) -> (r: &str) {
        "lightning-bolt"
    }

    fn theme(&self) -> (r: &str) {
        "nature"
    }

    fn describe(&self) -> (r: &str) {
        "A jagged lightning bolt zigzags across the bar; intensity pulses with time"
    }
}

/// Dot row of the summit of a mountain column `height` dots high on a bar
/// whose bottom row is `base`.
pub open spec fn summit(base: int, height: int) -> int {
    if base > height {
        base - height
    } else {
        0
    }
}

/// Dot `(x, y)` of a mountain frame with bottom row `base`: in each column
/// of positive height, its summit dot, a sparse rock texture below it on
/// every third diagonal, and a snow cap `snow` dots deep from the summit
/// (never below the base).
pub open spec fn mountain_dot(heights: Seq<usize>, snow: Seq<usize>, dw: int, base: int, x: int, y: int) -> bool {
    let top = summit(base, heights[x] as int);
    let snow_bottom = if top + snow[x] < base { top + snow[x] } else { base };
    &&& 0 <= x < dw
    &&& heights[x] > 0
    &&& {
        ||| y == top
        ||| (top < y <= base && (x + 2 * y) % 3 == 0)
        ||| (snow[x] > 0 && top <= y <= snow_bottom)
    }
}

/// The rock of a mountain frame: each column's summit and its texture.
pub open spec fn mountain_rock(heights: Seq<usize>, dw: int, base: int, x: int, y: int) -> bool {
    let top = summit(base, heights[x] as int);
    &&& 0 <= x < dw
    &&& heights[x] > 0
    &&& (y == top || (top < y <= base && (x + 2 * y) % 3 == 0))
}

proof fn lemma_diagonal_mod3(x: int, y: int)
    requires
        x >= 0,
        y >= 0,
    ensures
        (x + 2 * y) % 3 == (x % 3 + 2 * (y % 3)) % 3,
{
    vstd::arithmetic::div_mod::lemma_add_mod_noop(x, 2 * y, 3);
    vstd::arithmetic::div_mod::lemma_mul_mod_noop_right(2, y, 3);
    vstd::arithmetic::div_mod::lemma_add_mod_noop(x, 2 * (y % 3), 3);
    vstd::arithmetic::div_mod::lemma_mod_twice(x, 3);
}

impl MountainSnow {
    /// The mountain of one frame: columns of the given `heights` (one per
    /// dot column) with rock texture, capped with `snow` dots of snow.
    pub fn draw(&self, grid: &mut BrailleGrid, heights: &Vec<usize>, snow: &Vec<usize>)
        requires
            old(grid)@.wf(),
            heights.len() >= old(grid)@.dot_width(),
            snow.len() >= old(grid)@.dot_width(),
        ensures
            old(grid)@.gains_dots(
                final(grid)@,
                |x: int, y: int|
                    mountain_dot(
                        heights@,
                        snow@,
                        old(grid)@.dot_width() as int,
                        old(grid)@.dot_height() - 1,
                        x,
                        y,
                    ),
            ),
    {
        let ghost g0 = grid@;
        let (w, h) = draw::dot_dims(grid);
        let base_y = h - 1;
        proof {
            lemma_gains_nothing(g0, |x: int, y: int| false);
        }
        let mut x: usize = 0;
        while x < w
            invariant
                g0.wf(),
                w == g0.dot_width(),
                h == g0.dot_height(),
                base_y == h - 1,
                heights.len() >= w,
                x <= w,
                g0.gains_dots(grid@, |px: int, py: int| px < x && mountain_rock(heights@, w as int, base_y as int, px, py)),
            decreases w - x,
        {
            let ghost before = |px: int, py: int| px < x && mountain_rock(heights@, w as int, base_y as int, px, py);
            let ghost after = |px: int, py: int| px < x + 1 && mountain_rock(heights@, w as int, base_y as int, px, py);
            let mh = heights[x];
            if mh == 0 {
                proof {
                    assert forall|px: int, py: int| g0.in_dots(px, py) implies (after(px, py) <==> before(px, py)) by {}
                }
            } else {
                let top_y = if base_y > mh { base_y - mh } else { 0 };
                let ghost g1 = grid@;
                draw::dot(grid, x, top_y);
                let ghost col = |px: int, py: int| before(px, py) || (px == x && py == top_y);
                proof {
                    lemma_gains_dot(g0, g1, x as int, top_y as int, before, col);
                }
                let mut y = top_y + 1;
                while y <= base_y
                    invariant
                        g0.wf(),
                        w == g0.dot_width(),
                        base_y == g0.dot_height() - 1,
                        h == g0.dot_height(),
                        x < w,
                        top_y < y <= base_y + 1,
                        g0.gains_dots(grid@, |px: int, py: int| col(px, py) || (px == x && top_y < py < y && (px + 2 * py) % 3 == 0)),
                    decreases base_y + 1 - y,
                {
                    let ghost g2 = grid@;
                    let ghost cur = |px: int, py: int| col(px, py) || (px == x && top_y < py < y && (px + 2 * py) % 3 == 0);
                    let ghost nxt = |px: int, py: int| col(px, py) || (px == x && top_y < py < y + 1 && (px + 2 * py) % 3 == 0);
                    proof {
                        lemma_diagonal_mod3(x as int, y as int);
                    }
                    if (x % 3 + 2 * (y % 3)) % 3 == 0 {
                        draw::dot(grid, x, y);
                        proof {
                            lemma_gains_dot(g0, g2, x as int, y as int, cur, nxt);
                        }
                    } else {
                        proof {
                            assert forall|px: int, py: int| g0.in_dots(px, py) implies (nxt(px, py) <==> cur(px, py)) by {}
                        }
                    }
                    y = y + 1;
                }
                proof {
                    assert forall|px: int, py: int| g0.in_dots(px, py) implies (#[trigger] grid@.is_lit(px, py) <==> (g0.is_lit(px, py)
                        || after(px, py))) by {
                        assert(grid@.is_lit(px, py) <==> (g0.is_lit(px, py) || col(px, py) || (px == x && top_y < py < y && (px + 2 * py) % 3 == 0)));
                    }
                }
            }
            x = x + 1;
        }
        let ghost rocky = grid@;
        let mut x: usize = 0;
        while x < w
            invariant
                g0.wf(),
                w == g0.dot_width(),
                h == g0.dot_height(),
                base_y == h - 1,
                heights.len() >= w,
                snow.len() >= w,
                x <= w,
                g0.gains_dots(
                    grid@,
                    |px: int, py: int| mountain_rock(heights@, w as int, base_y as int, px, py) || (px < x && mountain_dot(heights@, snow@, w as int, base_y as int, px, py)),
                ),
            decreases w - x,
        {
            let ghost before = |px: int, py: int| mountain_rock(heights@, w as int, base_y as int, px, py) || (px < x && mountain_dot(heights@, snow@, w as int, base_y as int, px, py));
            let ghost after = |px: int, py: int| mountain_rock(heights@, w as int, base_y as int, px, py) || (px < x + 1 && mountain_dot(heights@, snow@, w as int, base_y as int, px, py));
            let mh = heights[x];
            let snow_h = snow[x];
            if mh == 0 || snow_h == 0 {
                proof {
                    assert forall|px: int, py: int| g0.in_dots(px, py) implies (after(px, py) <==> before(px, py)) by {
                        if px == x && mountain_dot(heights@, snow@, w as int, base_y as int, px, py) {
                            assert(mountain_rock(heights@, w as int, base_y as int, px, py));
                        }
                    }
                }
            } else {
                let top_y = if base_y > mh { base_y - mh } else { 0 };
                let snow_bottom = if snow_h < base_y - top_y { top_y + snow_h } else { base_y };
                let ghost g1 = grid@;
                draw::vline(grid, x, top_y, snow_bottom);
                proof {
                    let seg = |px: int, py: int| px == x && (if top_y <= snow_bottom { top_y <= py <= snow_bottom } else { snow_bottom <= py <= top_y });
                    assert forall|px: int, py: int| g0.in_dots(px, py) implies (after(px, py) <==> (before(px, py) || seg(px, py))) by {
                        if px == x && mountain_dot(heights@, snow@, w as int, base_y as int, px, py) && !seg(px, py) {
                            assert(mountain_rock(heights@, w as int, base_y as int, px, py));
                        }
                    }
                    lemma_gains_trans(g0, g1, grid@, before, seg, after);
                }
            }
            x = x + 1;
        }
        proof {
            assert forall|px: int, py: int| g0.in_dots(px, py) implies (#[trigger] grid@.is_lit(px, py) <==> (g0.is_lit(px, py)
                || mountain_dot(heights@, snow@, w as int, base_y as int, px, py))) by {
                if mountain_rock(heights@, w as int, base_y as int, px, py) {
                    assert(mountain_dot(heights@, snow@, w as int, base_y as int, px, py));
                }
            }
        }
    }
}

/// Top dot row of the water in a rain gauge `h` dots tall filled `fill`
/// rows above its bottom border.
pub open spec fn rain_water_top(h: int, fill: int) -> int {
    if fill < h - 1 { h - 1 - fill } else { 0 }
}

/// The dots of a rain-gauge frame `w x h` dots: the outline of the gauge,
/// the water `fill` rows deep inside it, and, while more than one row of
/// air remains above the water, each raindrop of `drops` kept inside the
/// gauge and above the water.
pub open spec fn rain_dots(w: int, h: int, fill: int, drops: Seq<(usize, usize)>) -> spec_fn(int, int) -> bool {
    let top = rain_water_top(h, fill);
    let water_w = if w - 2 > 1 { w - 2 } else { 1 };
    |x: int, y: int|
        draw::on_outline(0, 0, w - 1, h - 1, x, y) || (fill > 0 && 1 <= x < 1 + water_w && top <= y < top + fill) || (
        top > 1 && exists|i: int|
            0 <= i < drops.len() && x == (if drops[i].0 < w - 2 { drops[i].0 as int } else { w - 2 }) && y == (if drops[i].1
                < top - 1 {
                drops[i].1 as int
            } else {
                top - 1
            }))
}

impl RainGauge {
    /// One frame of the rain gauge: the gauge outline, water `fill_h` rows
    /// deep, and the raindrops `drops` falling through the air above it.
    pub fn draw(&self, grid: &mut BrailleGrid, fill_h: usize, drops: &Vec<(usize, usize)>)
        requires
            old(grid)@.wf(),
        ensures
            old(grid)@.gains_dots(
                final(grid)@,
                rain_dots(old(grid)@.dot_width() as int, old(grid)@.dot_height() as int, fill_h as int, drops@),
            ),
    {
        let ghost g0 = grid@;
        let (w, h) = draw::dot_dims(grid);
        let ghost wi = w as int;
        let ghost hi = h as int;
        let ghost shape = rain_dots(wi, hi, fill_h as int, drops@);
        let ghost outline = |px: int, py: int| draw::on_outline(0, 0, w - 1, h - 1, px, py);
        draw::rect_outline(grid, 0, 0, w, h);
        let ghost g1 = grid@;
        let water_top = if fill_h < h - 1 { h - 1 - fill_h } else { 0 };
        let water_w = if w - 2 > 1 { w - 2 } else { 1 };
        let ghost water = |px: int, py: int|
            outline(px, py) || (fill_h > 0 && 1 <= px < 1 + water_w && water_top <= py < water_top + fill_h);
        if fill_h > 0 {
            draw::fill_rect(grid, 1, water_top, water_w, fill_h);
            proof {
                lemma_gains_trans(
                    g0,
                    g1,
                    grid@,
                    outline,
                    |px: int, py: int| 1 <= px < 1 + water_w && water_top <= py < water_top + fill_h,
                    water,
                );
            }
        } else {
            proof {
                assert forall|px: int, py: int| g0.in_dots(px, py) implies (#[trigger] grid@.is_lit(px, py) <==> (g0.is_lit(
                    px,
                    py,
                ) || water(px, py))) by {
                    assert(g1.is_lit(px, py) <==> (g0.is_lit(px, py) || outline(px, py)));
                }
            }
        }
        let ghost g2 = grid@;
        let ghost rained = |px: int, py: int|
            water(px, py) || (water_top > 1 && exists|i: int|
                0 <= i < drops.len() && px == (if drops@[i].0 < w - 2 { drops@[i].0 as int } else { w - 2 }) && py == (if drops@[i].1
                    < water_top - 1 {
                    drops@[i].1 as int
                } else {
                    water_top - 1
                }));
        if water_top > 1 {
            let mut d: usize = 0;
            while d < drops.len()
                invariant
                    g0.wf(),
                    w == g0.dot_width(),
                    h == g0.dot_height(),
                    water_top > 1,
                    d <= drops.len(),
                    g0.gains_dots(
                        grid@,
                        |px: int, py: int|
                            water(px, py) || exists|i: int|
                                0 <= i < d && px == (if drops@[i].0 < w - 2 { drops@[i].0 as int } else { w - 2 }) && py
                                    == (if drops@[i].1 < water_top - 1 {
                                    drops@[i].1 as int
                                } else {
                                    water_top - 1
                                }),
                    ),
                decreases drops.len() - d,
            {
                let (dx, dy) = drops[d];
                let x = if dx < w - 2 { dx } else { w - 2 };
                let y = if dy < water_top - 1 { dy } else { water_top - 1 };
                let ghost g = grid@;
                draw::dot(grid, x, y);
                proof {
                    let before = |px: int, py: int|
                        water(px, py) || exists|i: int|
                            0 <= i < d && px == (if drops@[i].0 < w - 2 { drops@[i].0 as int } else { w - 2 }) && py == (if drops@[i].1
                                < water_top - 1 {
                                drops@[i].1 as int
                            } else {
                                water_top - 1
                            });
                    let after = |px: int, py: int|
                        water(px, py) || exists|i: int|
                            0 <= i < d + 1 && px == (if drops@[i].0 < w - 2 { drops@[i].0 as int } else { w - 2 }) && py
                                == (if drops@[i].1 < water_top - 1 {
                                drops@[i].1 as int
                            } else {
                                water_top - 1
                            });
                    assert forall|px: int, py: int| g0.in_dots(px, py) implies (after(px, py) <==> (before(px, py) || (px == x
                        && py == y))) by {
                        if px == x && py == y {
                            assert(drops@[d as int] == (dx, dy));
                        }
                        if after(px, py) && !water(px, py) {
                            let i = choose|i: int|
                                0 <= i < d + 1 && px == (if drops@[i].0 < w - 2 { drops@[i].0 as int } else { w - 2 }) && py
                                    == (if drops@[i].1 < water_top - 1 {
                                    drops@[i].1 as int
                                } else {
                                    water_top - 1
                                });
                            if i < d {
                                assert(before(px, py));
                            } else {
                                assert(drops@[d as int] == (dx, dy));
                            }
                        }
                    }
                    lemma_gains_dot(g0, g, x as int, y as int, before, after);
                }
                d = d + 1;
            }
        }
        proof {
            assert forall|px: int, py: int| g0.in_dots(px, py) implies (#[trigger] grid@.is_lit(px, py) <==> (g0.is_lit(px, py)
                || shape(px, py))) by {
                assert(grid@.is_lit(px, py) <==> (g0.is_lit(px, py) || rained(px, py)));
            }
        }
    }
}

} // verus!
