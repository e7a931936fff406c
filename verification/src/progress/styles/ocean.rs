//! Ocean / aquatic progress bars.

use vstd::prelude::*;
use crate::progress::ProgressStyle;
use crate::progress::draw;
use crate::grid::{lemma_gains_dot, lemma_gains_nothing, lemma_gains_trans, BrailleGrid};

verus! {

/// The `rising-tide` style.
pub struct RisingTide;

impl ProgressStyle for RisingTide {
    open spec fn style_name(&self) -> Seq<char> {
        "rising-tide"@
    }

    open spec fn style_theme(&self) -> Seq<char> {
        "ocean"@
    }

    open spec fn style_description(&self) -> Seq<char> {
        "Water level rises with eased progress; animated sine-wave surface"@
    }

    fn name(&self) -> (r: &str) {
        "rising-tide"
    }

    fn theme(&self) -> (r: &str) {
        "ocean"
    }

    fn describe(&self) -> (r: &str) {
        "Water level rises with eased progress; animated sine-wave surface"
    }
}

/// The `bubbles-rising` style.
pub struct BubblesRising;

impl ProgressStyle for BubblesRising {
    open spec fn style_name(&self) -> Seq<char> {
        "bubbles-rising"@
    }

    open spec fn style_theme(&self) -> Seq<char> {
        "ocean"@
    }

    open spec fn style_description(&self) -> Seq<char> {
        "Bubbles float upward with wobble; spawn density scales with progress"@
    }

    fn name(&self) -> (r: &str) {
        "bubbles-rising"
    }

    fn theme(&self) -> (r: &str) {
        "ocean"
    }

    fn describe(&self) -> (r: &str) {
        "Bubbles float upward with wobble; spawn density scales with progress"
    }
}

/// The `fish-swim` style.
pub struct FishSwim;

impl ProgressStyle for FishSwim {
    open spec fn style_name(&self) -> Seq<char> {
        "fish-swim"@
    }

    open spec fn style_theme(&self) -> Seq<char> {
        "ocean"@
    }

    open spec fn style_description(&self) -> Seq<char> {
        "A fish swims across with a flickering tail driven by time"@
    }

    fn name(&self) -> (r: &str) {
        "fish-swim"
    }

    fn theme(&self) -> (r: &str) {
        "ocean"
    }

    fn describe(&self) -> (r: &str) {
        "A fish swims across with a flickering tail driven by time"
    }
}

/// The `wave-crest` style.
pub struct WaveCrest;

impl ProgressStyle for WaveCrest {
    open spec fn style_name(&self) -> Seq<char> {
        "wave-crest"@
    }

    open spec fn style_theme(&self) -> Seq<char> {
        "ocean"@
    }

    open spec fn style_description(&self) -> Seq<char> {
        "A rolling sine-wave crest advances with progress; fill trails behind"@
    }

    fn name(&self) -> (r: &str) {
        "wave-crest"
    }

    fn theme(&self) -> (r: &str) {
        "ocean"
    }

    fn describe(&self) -> (r: &str) {
        "A rolling sine-wave crest advances with progress; fill trails behind"
    }
}

/// The `sonar-ping` style.
pub struct SonarPing;

impl ProgressStyle for SonarPing {
    open spec fn style_name(&self) -> Seq<char> {
        "sonar-ping"@
    }

    open spec fn style_theme(&self) -> Seq<char> {
        "ocean"@
    }

    open spec fn style_description(&self) -> Seq<char> {
        "Expanding sonar arcs; ring count scales with eased progress"@
    }

    fn name(&self) -> (r: &str) {
        "sonar-ping"
    }

    fn theme(&self) -> (r: &str) {
        "ocean"
    }

    fn describe(&self) -> (r: &str) {
        "Expanding sonar arcs; ring count scales with eased progress"
    }
}

/// The `depth-gauge` style.
pub struct DepthGauge;

impl ProgressStyle for DepthGauge {
    open spec fn style_name(&self) -> Seq<char> {
        "depth-gauge"@
    }

    open spec fn style_theme(&self) -> Seq<char> {
        "ocean"@
    }

    open spec fn style_description(&self) -> Seq<char> {
        "Submarine depth gauge: fills downward with depth markers and tint"@
    }

    fn name(&self) -> (r: &str) {
        "depth-gauge"
    }

    fn theme(&self) -> (r: &str) {
        "ocean"
    }

    fn describe(&self) -> (r: &str) {
        "Submarine depth gauge: fills downward with depth markers and tint"
    }
}

/// The `jellyfish-pulse` style.
pub struct JellyfishPulse;

impl ProgressStyle for JellyfishPulse {
    open spec fn style_name(&self) -> Seq<char> {
        "jellyfish-pulse"@
    }

    open spec fn style_theme(&self) -> Seq<char> {
        "ocean"@
    }

    open spec fn style_description(&self) -> Seq<char> {
        "A pulsing jellyfish bell drifts upward; tentacles sway in the current"@
    }

    fn name(&self) -> (r: &str) {
        "jellyfish-pulse"
    }

    fn theme(&self) -> (r: &str) {
        "ocean"
    }

    fn describe(&self) -> (r: &str) {
        "A pulsing jellyfish bell drifts upward; tentacles sway in the current"
    }
}

/// The `coral-reef` style.
pub struct CoralReef;

impl ProgressStyle for CoralReef {
    open spec fn style_name(&self) -> Seq<char> {
        "coral-reef"@
    }

    open spec fn style_theme(&self) -> Seq<char> {
        "ocean"@
    }

    open spec fn style_description(&self) -> Seq<char> {
        "Coral branches grow from the seafloor; sway and growth track progress"@
    }

    fn name(&self) -> (r: &str) {
        "coral-reef"
    }

    fn theme(&self) -> (r: &str) {
        "ocean"
    }

    fn describe(&self) -> (r: &str) {
        "Coral branches grow from the seafloor; sway and growth track progress"
    }
}

/// The `seaweed` style.
pub struct Seaweed;

impl ProgressStyle for Seaweed {
    open spec fn style_name(&self) -> Seq<char> {
        "seaweed"@
    }

    open spec fn style_theme(&self) -> Seq<char> {
        "ocean"@
    }

    open spec fn style_description(&self) -> Seq<char> {
        "Seaweed fronds grow and sway; column fill tracks eased progress"@
    }

    fn name(&self) -> (r: &str) {
        "seaweed"
    }

    fn theme(&self) -> (r: &str) {
        "ocean"
    }

    fn describe(&self) -> (r: &str) {
        "Seaweed fronds grow and sway; column fill tracks eased progress"
    }
}

/// The `ripple-interference` style.
pub struct RippleInterference;

impl ProgressStyle for RippleInterference {
    open spec fn style_name(&self) -> Seq<char> {
        "ripple-interference"@
    }

    open spec fn style_theme(&self) -> Seq<char> {
        "ocean"@
    }

    open spec fn style_description(&self) -> Seq<char> {
        "Two point sources create animated ripple interference patterns"@
    }

    fn name(&self) -> (r: &str) {
        "ripple-interference"
    }

    fn theme(&self) -> (r: &str) {
        "ocean"
    }

    fn describe(&self) -> (r: &str) {
        "Two point sources create animated ripple interference patterns"
    }
}

/// Length in dots of depth marker `i`: long for the surface and every
/// fifth marker, short otherwise.
pub open spec fn depth_tick_len(i: int) -> int {
    if i % 5 == 0 { 5 } else { 3 }
}

/// Dot `(x, y)` belongs to depth marker `i` at row `row` on a gauge `w`
/// dots wide: a run from the left edge, kept on the bar.
pub open spec fn depth_tick(i: int, row: int, w: int, x: int, y: int) -> bool {
    y == row && 0 <= x <= (if depth_tick_len(i) < w - 1 { depth_tick_len(i) } else { w - 1 })
}

/// Dot `(x, y)` belongs to a two-dot bubble whose left dot is `(bx, by)`.
pub open spec fn depth_bubble(bx: int, by: int, x: int, y: int) -> bool {
    (x == bx || x == bx + 1) && y == by
}

/// The dots of a depth-gauge frame `w x h` dots: the spine down column 1,
/// the water `filled` rows deep beside it over a third of the width, the
/// depth markers at rows `ticks`, and the bubbles.
pub open spec fn depth_dots(
    w: int,
    h: int,
    filled: int,
    ticks: Seq<usize>,
    bubbles: Seq<(i32, i32)>,
) -> spec_fn(int, int) -> bool {
    let fill_w = if w / 3 > 1 { w / 3 } else { 1 };
    |x: int, y: int|
        (x == 1 && 0 <= y <= h - 1) || (2 <= x < 2 + fill_w && 0 <= y < filled) || (exists|i: int|
            0 <= i < ticks.len() && #[trigger] depth_tick(i, ticks[i] as int, w, x, y)) || (exists|i: int|
            0 <= i < bubbles.len() && #[trigger] depth_bubble(bubbles[i].0 as int, bubbles[i].1 as int, x, y))
}

impl DepthGauge {
    /// One frame of the depth gauge: the spine, the water `filled_h` rows
    /// deep, the depth markers at rows `ticks` (the surface and every fifth
    /// one long), and the bubbles, each two dots wide from its left dot.
    pub fn draw(&self, grid: &mut BrailleGrid, filled_h: usize, ticks: &Vec<usize>, bubbles: &Vec<(i32, i32)>)
        requires
            old(grid)@.wf(),
            forall|i: int| 0 <= i < bubbles.len() ==> #[trigger] bubbles[i].0 < i32::MAX,
        ensures
            old(grid)@.gains_dots(
                final(grid)@,
                depth_dots(old(grid)@.dot_width() as int, old(grid)@.dot_height() as int, filled_h as int, ticks@, bubbles@),
            ),
    {
        let ghost g0 = grid@;
        let (w, h) = draw::dot_dims(grid);
        let ghost wi = w as int;
        let ghost hi = h as int;
        let ghost shape = depth_dots(wi, hi, filled_h as int, ticks@, bubbles@);
        let ghost spine = |px: int, py: int| px == 1 && (if 0 <= h - 1 { 0 <= py <= h - 1 } else { h - 1 <= py <= 0 });
        draw::vline(grid, 1, 0, h - 1);
        let ghost g1 = grid@;
        let fill_w = if w / 3 > 1 { w / 3 } else { 1 };
        let ghost base = |px: int, py: int| spine(px, py) || (2 <= px < 2 + fill_w && 0 <= py < filled_h);
        draw::fill_rect(grid, 2, 0, fill_w, filled_h);
        proof {
            lemma_gains_trans(g0, g1, grid@, spine, |px: int, py: int| 2 <= px < 2 + fill_w && 0 <= py < 0 + filled_h, base);
        }
        let mut i: usize = 0;
        while i < ticks.len()
            invariant
                g0.wf(),
                w == g0.dot_width(),
                h == g0.dot_height(),
                wi == w,
                i <= ticks.len(),
                g0.gains_dots(
                    grid@,
                    |px: int, py: int|
                        base(px, py) || exists|j: int| 0 <= j < i && #[trigger] depth_tick(j, ticks@[j] as int, wi, px, py),
                ),
            decreases ticks.len() - i,
        {
            let len: usize = if i % 5 == 0 { 5 } else { 3 };
            let x1 = if len < w - 1 { len } else { w - 1 };
            let y = ticks[i];
            let ghost g = grid@;
            draw::hline(grid, 0, x1, y);
            proof {
                let before = |px: int, py: int|
                    base(px, py) || exists|j: int| 0 <= j < i && #[trigger] depth_tick(j, ticks@[j] as int, wi, px, py);
                let after = |px: int, py: int|
                    base(px, py) || exists|j: int| 0 <= j < i + 1 && #[trigger] depth_tick(j, ticks@[j] as int, wi, px, py);
                let run = |px: int, py: int| py == y && (if 0 <= x1 { 0 <= px <= x1 } else { x1 <= px <= 0 });
                assert forall|px: int, py: int| g0.in_dots(px, py) implies (after(px, py) <==> (before(px, py) || run(px, py))) by {
                    if run(px, py) {
                        assert(depth_tick(i as int, ticks@[i as int] as int, wi, px, py));
                    }
                    if after(px, py) && !base(px, py) {
                        let j = choose|j: int| 0 <= j < i + 1 && #[trigger] depth_tick(j, ticks@[j] as int, wi, px, py);
                        if j < i {
                            assert(before(px, py));
                        }
                    }
                }
                lemma_gains_trans(g0, g, grid@, before, run, after);
            }
            i = i + 1;
        }
        let mut b: usize = 0;
        while b < bubbles.len()
            invariant
                g0.wf(),
                w == g0.dot_width(),
                h == g0.dot_height(),
                i == ticks.len(),
                b <= bubbles.len(),
                forall|k: int| 0 <= k < bubbles.len() ==> #[trigger] bubbles[k].0 < i32::MAX,
                g0.gains_dots(
                    grid@,
                    |px: int, py: int|
                        (base(px, py) || exists|j: int| 0 <= j < i && #[trigger] depth_tick(j, ticks@[j] as int, wi, px, py))
                            || exists|k: int|
                            0 <= k < b && #[trigger] depth_bubble(bubbles@[k].0 as int, bubbles@[k].1 as int, px, py),
                ),
            decreases bubbles.len() - b,
        {
            let (bx, by) = bubbles[b];
            let bx1 = bx + 1;
            let ghost g = grid@;
            draw::dot_i(grid, bx, by);
            let ghost gm = grid@;
            draw::dot_i(grid, bx1, by);
            proof {
                let before = |px: int, py: int|
                    (base(px, py) || exists|j: int| 0 <= j < i && #[trigger] depth_tick(j, ticks@[j] as int, wi, px, py))
                        || exists|k: int| 0 <= k < b && #[trigger] depth_bubble(bubbles@[k].0 as int, bubbles@[k].1 as int, px, py);
                let mid = |px: int, py: int| before(px, py) || (px == bx && py == by);
                let after = |px: int, py: int|
                    (base(px, py) || exists|j: int| 0 <= j < i && #[trigger] depth_tick(j, ticks@[j] as int, wi, px, py))
                        || exists|k: int|
                        0 <= k < b + 1 && #[trigger] depth_bubble(bubbles@[k].0 as int, bubbles@[k].1 as int, px, py);
                lemma_gains_dot(g0, g, bx as int, by as int, before, mid);
                assert forall|px: int, py: int| g0.in_dots(px, py) implies (after(px, py) <==> (mid(px, py) || (px == bx1
                    && py == by))) by {
                    assert(bubbles@[b as int] == (bx, by));
                    if (px == bx && py == by) || (px == bx1 && py == by) {
                        assert(depth_bubble(bubbles@[b as int].0 as int, bubbles@[b as int].1 as int, px, py));
                    }
                    if after(px, py) && !before(px, py) {
                        let k = choose|k: int|
                            0 <= k < b + 1 && #[trigger] depth_bubble(bubbles@[k].0 as int, bubbles@[k].1 as int, px, py);
                        if k < b {
                            assert(before(px, py));
                        }
                    }
                }
                lemma_gains_dot(g0, gm, bx1 as int, by as int, mid, after);
            }
            b = b + 1;
        }
        proof {
            assert forall|px: int, py: int| g0.in_dots(px, py) implies (#[trigger] grid@.is_lit(px, py) <==> (g0.is_lit(px, py)
                || shape(px, py))) by {
                assert(grid@.is_lit(px, py) <==> (g0.is_lit(px, py) || ((base(px, py) || exists|j: int|
                    0 <= j < i && #[trigger] depth_tick(j, ticks@[j] as int, wi, px, py)) || exists|k: int|
                    0 <= k < b && #[trigger] depth_bubble(bubbles@[k].0 as int, bubbles@[k].1 as int, px, py))));
            }
        }
    }
}

} // verus!
