//! NES / Nintendo-classics themed progress bars.

use vstd::prelude::*;
use crate::progress::ProgressStyle;
use crate::progress::draw;
use crate::grid::{
    lemma_gains_dot, lemma_gains_nothing, lemma_gains_trans, lemma_with_char_at, lemma_with_char_glyph, BrailleGrid,
    Color, GridView,
};
use crate::progress::draw::{shade_char, v_block};

verus! {

/// Mario runs rightward with animated legs; at 100% a flagpole appears on the
/// right and Mario "slides" (collapses to a dot at the base).
pub struct MarioRun;

impl ProgressStyle for MarioRun {
    open spec fn style_name(&self) -> Seq<char> {
        "mario-run"@
    }

    open spec fn style_theme(&self) -> Seq<char> {
        "nintendo"@
    }

    open spec fn style_description(&self) -> Seq<char> {
        "Mario sprints right in braille dots; flagpole drops at 100%"@
    }

    fn name(&self) -> (r: &str) {
        "mario-run"
    }

    fn theme(&self) -> (r: &str) {
        "nintendo"
    }

    fn describe(&self) -> (r: &str) {
        "Mario sprints right in braille dots; flagpole drops at 100%"
    }
}

/// Zelda HUD heart containers: full hearts are dense-filled, empty hearts are
/// outlines, and partial is a half-full heart.  Progress maps to half-hearts.
pub struct ZeldaHearts;

impl ProgressStyle for ZeldaHearts {
    open spec fn style_name(&self) -> Seq<char> {
        "zelda-hearts"@
    }

    open spec fn style_theme(&self) -> Seq<char> {
        "nintendo"@
    }

    open spec fn style_description(&self) -> Seq<char> {
        "Zelda heart-container row — fills one half-heart at a time"@
    }

    fn name(&self) -> (r: &str) {
        "zelda-hearts"
    }

    fn theme(&self) -> (r: &str) {
        "nintendo"
    }

    fn describe(&self) -> (r: &str) {
        "Zelda heart-container row — fills one half-heart at a time"
    }
}

/// Metroid HUD: a row of rectangular energy-tank segments that charge one at a
/// time.  Each tank is a bordered rectangle; the active one shows a partial fill.
pub struct MetroidETanks;

impl ProgressStyle for MetroidETanks {
    open spec fn style_name(&self) -> Seq<char> {
        "metroid-etanks"@
    }

    open spec fn style_theme(&self) -> Seq<char> {
        "nintendo"@
    }

    open spec fn style_description(&self) -> Seq<char> {
        "Metroid energy-tank segments — each tank charges then the next activates"@
    }

    fn name(&self) -> (r: &str) {
        "metroid-etanks"
    }

    fn theme(&self) -> (r: &str) {
        "nintendo"
    }

    fn describe(&self) -> (r: &str) {
        "Metroid energy-tank segments — each tank charges then the next activates"
    }
}

/// A vertical well (left and right walls, open top) fills from the bottom as
/// tetrominoes settle.  The stack height is driven by `eased`; the topmost
/// layer shows the current "falling" piece as a blinking row.
pub struct TetrisWell;

impl ProgressStyle for TetrisWell {
    open spec fn style_name(&self) -> Seq<char> {
        "tetris-well"@
    }

    open spec fn style_theme(&self) -> Seq<char> {
        "nintendo"@
    }

    open spec fn style_description(&self) -> Seq<char> {
        "Tetris well fills upward with a settling block stack"@
    }

    fn name(&self) -> (r: &str) {
        "tetris-well"
    }

    fn theme(&self) -> (r: &str) {
        "nintendo"
    }

    fn describe(&self) -> (r: &str) {
        "Tetris well fills upward with a settling block stack"
    }
}

/// Ducks arc across the sky using sinusoidal paths; the number of "shot" ducks
/// equals `round(progress * total_ducks)`.  Downed ducks fall to the ground.
pub struct DuckHunt;

impl ProgressStyle for DuckHunt {
    open spec fn style_name(&self) -> Seq<char> {
        "duck-hunt"@
    }

    open spec fn style_theme(&self) -> Seq<char> {
        "nintendo"@
    }

    open spec fn style_description(&self) -> Seq<char> {
        "Ducks arc across the sky; progress = ducks shot, complete ducks fall"@
    }

    fn name(&self) -> (r: &str) {
        "duck-hunt"
    }

    fn theme(&self) -> (r: &str) {
        "nintendo"
    }

    fn describe(&self) -> (r: &str) {
        "Ducks arc across the sky; progress = ducks shot, complete ducks fall"
    }
}

/// The bike position on row 1 tracks `eased` (progress = distance covered).
/// Row 2 is a TURBO HEAT gauge: it oscillates — if it overheats the bike icon
/// stutters (shows a "flame" glyph and the bar pulses red via tinting).
pub struct Excitebike;

impl ProgressStyle for Excitebike {
    open spec fn style_name(&self) -> Seq<char> {
        "excitebike"@
    }

    open spec fn style_theme(&self) -> Seq<char> {
        "nintendo"@
    }

    open spec fn style_description(&self) -> Seq<char> {
        "Bike races right; row 2 is a turbo-heat gauge that must not overheat"@
    }

    fn name(&self) -> (r: &str) {
        "excitebike"
    }

    fn theme(&self) -> (r: &str) {
        "nintendo"
    }

    fn describe(&self) -> (r: &str) {
        "Bike races right; row 2 is a turbo-heat gauge that must not overheat"
    }
}

/// A segmented stamina bar that depletes left-to-right as `progress` rises,
/// then at 75%+ refills from right-to-left as a "star-power" burst (bright
/// glyphs).  Uses `vblock` for segment columns.
pub struct PunchOutStars;

impl ProgressStyle for PunchOutStars {
    open spec fn style_name(&self) -> Seq<char> {
        "punchout-stars"@
    }

    open spec fn style_theme(&self) -> Seq<char> {
        "nintendo"@
    }

    open spec fn style_description(&self) -> Seq<char> {
        "Punch-Out stamina bar depletes then surges back as star-power at 75%"@
    }

    fn name(&self) -> (r: &str) {
        "punchout-stars"
    }

    fn theme(&self) -> (r: &str) {
        "nintendo"
    }

    fn describe(&self) -> (r: &str) {
        "Punch-Out stamina bar depletes then surges back as star-power at 75%"
    }
}

/// Contra spread-shot: multiple bullets fan out from the left edge in a
/// symmetric arc.  Progress controls how far the fan has travelled rightward.
/// Each bullet trail is a dotted line along its angle.
pub struct ContraSpread;

impl ProgressStyle for ContraSpread {
    open spec fn style_name(&self) -> Seq<char> {
        "contra-spread"@
    }

    open spec fn style_theme(&self) -> Seq<char> {
        "nintendo"@
    }

    open spec fn style_description(&self) -> Seq<char> {
        "Contra spread-shot bullets fan out rightward; progress = bullet travel"@
    }

    fn name(&self) -> (r: &str) {
        "contra-spread"
    }

    fn theme(&self) -> (r: &str) {
        "nintendo"
    }

    fn describe(&self) -> (r: &str) {
        "Contra spread-shot bullets fan out rightward; progress = bullet travel"
    }
}

/// Mega Man weapon-energy: a tall narrow bar divided into discrete segments
/// (like the in-game weapon panel).  Segments light up from the bottom; the
/// active segment shows sub-segment precision via `vblock`.
pub struct MegaManWeapon;

impl ProgressStyle for MegaManWeapon {
    open spec fn style_name(&self) -> Seq<char> {
        "megaman-weapon"@
    }

    open spec fn style_theme(&self) -> Seq<char> {
        "nintendo"@
    }

    open spec fn style_description(&self) -> Seq<char> {
        "Mega Man weapon-energy bar — segmented column charges from bottom up"@
    }

    fn name(&self) -> (r: &str) {
        "megaman-weapon"
    }

    fn theme(&self) -> (r: &str) {
        "nintendo"
    }

    fn describe(&self) -> (r: &str) {
        "Mega Man weapon-energy bar — segmented column charges from bottom up"
    }
}

/// Platforms scroll upward: `eased` determines how high the climber has risen.
/// The bottom of the grid shows platforms drawn as horizontal dot-lines at
/// staggered heights; the climber is a small dot cluster that moves up with
/// `eased`.
pub struct IceClimberUp;

impl ProgressStyle for IceClimberUp {
    open spec fn style_name(&self) -> Seq<char> {
        "iceclimber-up"@
    }

    open spec fn style_theme(&self) -> Seq<char> {
        "nintendo"@
    }

    open spec fn style_description(&self) -> Seq<char> {
        "Ice Climber ascends upward platform by platform driven by eased progress"@
    }

    fn name(&self) -> (r: &str) {
        "iceclimber-up"
    }

    fn theme(&self) -> (r: &str) {
        "nintendo"
    }

    fn describe(&self) -> (r: &str) {
        "Ice Climber ascends upward platform by platform driven by eased progress"
    }
}

/// Donkey Kong: girders drawn as horizontal dot-lines at staggered rows; barrels
/// are circles that roll down the girders from right to left driven by time.
/// Mario is a small dot cluster at the bottom-left that climbs a ladder (moves
/// up) as `eased` increases.
pub struct DonkeyBarrel;

impl ProgressStyle for DonkeyBarrel {
    open spec fn style_name(&self) -> Seq<char> {
        "donkey-barrel"@
    }

    open spec fn style_theme(&self) -> Seq<char> {
        "nintendo"@
    }

    open spec fn style_description(&self) -> Seq<char> {
        "DK barrels roll down girders; Mario climbs a ladder as progress rises"@
    }

    fn name(&self) -> (r: &str) {
        "donkey-barrel"
    }

    fn theme(&self) -> (r: &str) {
        "nintendo"
    }

    fn describe(&self) -> (r: &str) {
        "DK barrels roll down girders; Mario climbs a ladder as progress rises"
    }
}

/// Index of outline dot `(lx, ly)` of a heart, in drawing order, or 8 when
/// the offset is not on the outline: two bumps on top, the wide middle, the
/// taper and the point.
pub open spec fn heart_outline_index(lx: int, ly: int) -> int {
    if ly == 0 && lx == 1 { 0 }
    else if ly == 0 && lx == 4 { 1 }
    else if ly == 1 && lx == 0 { 2 }
    else if ly == 1 && lx == 5 { 3 }
    else if ly == 2 && lx == 1 { 4 }
    else if ly == 2 && lx == 4 { 5 }
    else if ly == 3 && lx == 2 { 6 }
    else if ly == 3 && lx == 3 { 7 }
    else { 8 }
}

/// Interior dot `(lx, ly)` of a heart in fill `state`: the full centre for a
/// full heart (2), its left half for a half heart (1), none when empty.
pub open spec fn heart_fill(state: int, lx: int, ly: int) -> bool {
    &&& (ly == 1 || ly == 2)
    &&& 1 <= lx
    &&& ((state == 2 && lx <= 4) || (state == 1 && lx <= 2))
}

/// Dot `(x, y)` belongs to a heart in fill `state` whose 6x4 box starts at
/// `(dx, dy)`.
pub open spec fn heart_dot(dx: int, dy: int, state: int, x: int, y: int) -> bool {
    heart_outline_index(x - dx, y - dy) < 8 || heart_fill(state, x - dx, y - dy)
}

/// The heart sprite: its outline is mirror-symmetric about the middle of
/// its 6-dot box, and so is a full heart; an empty heart is the outline
/// alone; a half heart is the outline with the left half (columns 0 to 2)
/// of a full heart's filling; every heart holds its outline.
pub proof fn lemma_heart_sprite(lx: int, ly: int)
    ensures
        heart_dot(0, 0, 0, lx, ly) <==> heart_dot(0, 0, 0, 5 - lx, ly),
        heart_dot(0, 0, 2, lx, ly) <==> heart_dot(0, 0, 2, 5 - lx, ly),
        heart_dot(0, 0, 1, lx, ly) <==> (heart_dot(0, 0, 0, lx, ly) || (lx <= 2 && heart_dot(0, 0, 2, lx, ly))),
        heart_dot(0, 0, 0, lx, ly) ==> heart_dot(0, 0, 1, lx, ly) && heart_dot(0, 0, 2, lx, ly),
        heart_dot(0, 0, 2, lx, ly) ==> 0 <= lx < 6 && 0 <= ly < 4,
        heart_dot(0, 0, 2, 2, 1) && !heart_dot(0, 0, 0, 2, 1),
{
}

/// Half-hearts shown by the first `n` hearts of a row.
pub open spec fn hearts_shown(half_filled: int, n: nat) -> int
    decreases n,
{
    if n == 0 {
        0
    } else {
        hearts_shown(half_filled, (n - 1) as nat) + zelda_state(half_filled, n - 1)
    }
}

/// The hearts fill left to right, two half-hearts each: every heart is
/// empty, half or full, no heart holds more than the one before it, and
/// the first `n` hearts show `half_filled` half-hearts, or all `2n` of
/// theirs when that is fewer.
pub proof fn lemma_zelda_fill(half_filled: int, n: nat)
    requires
        half_filled >= 0,
    ensures
        0 <= zelda_state(half_filled, n as int) <= 2,
        zelda_state(half_filled, n + 1int) <= zelda_state(half_filled, n as int),
        hearts_shown(half_filled, n) == (if half_filled < 2 * n { half_filled } else { 2 * n as int }),
    decreases n,
{
    if n > 0 {
        lemma_zelda_fill(half_filled, (n - 1) as nat);
    }
}

/// Fill state of heart `i` when `half_filled` half-hearts are full.
pub open spec fn zelda_state(half_filled: int, i: int) -> int {
    let rest = if half_filled > 2 * i { half_filled - 2 * i } else { 0 };
    if rest < 2 {
        rest
    } else {
        2
    }
}

/// Top dot row of the hearts: the middle cell row, kept clear of the bottom.
pub open spec fn zelda_row(g: GridView) -> int {
    let dy = 4 * (g.height as int / 2);
    if dy < g.dot_height() - 3 {
        dy
    } else {
        g.dot_height() - 3
    }
}

/// The hearts of a heart-container row `i < count`, spaced 8 dots apart.
pub open spec fn zelda_hearts(half_filled: int, dy: int, count: int) -> spec_fn(int, int) -> bool {
    |x: int, y: int| exists|i: int| 0 <= i < count && #[trigger] heart_dot(8 * i, dy, zelda_state(half_filled, i), x, y)
}

/// Draws one heart in fill `state` with its box at `(dx, dy)`.
fn draw_heart(grid: &mut BrailleGrid, dx: usize, dy: usize, state: usize)
    requires
        old(grid)@.wf(),
        dx + 5 <= usize::MAX,
        dy + 3 <= usize::MAX,
    ensures
        old(grid)@.gains_dots(final(grid)@, |x: int, y: int| heart_dot(dx as int, dy as int, state as int, x, y)),
{
    let ghost g0 = grid@;
    let (dw, _) = draw::dot_dims(grid);
    proof {
        lemma_gains_nothing(g0, |x: int, y: int| heart_outline_index(x - dx, y - dy) < 0);
    }
    let mut j: usize = 0;
    while j < 8
        invariant
            g0.wf(),
            j <= 8,
            dx + 5 <= usize::MAX,
            dy + 3 <= usize::MAX,
            g0.gains_dots(grid@, |x: int, y: int| heart_outline_index(x - dx, y - dy) < j),
        decreases 8 - j,
    {
        let (ox, oy): (usize, usize) = match j {
            0 => (1, 0),
            1 => (4, 0),
            2 => (0, 1),
            3 => (5, 1),
            4 => (1, 2),
            5 => (4, 2),
            6 => (2, 3),
            _ => (3, 3),
        };
        let ghost g1 = grid@;
        draw::dot(grid, dx + ox, dy + oy);
        proof {
            lemma_gains_dot(
                g0,
                g1,
                (dx + ox) as int,
                (dy + oy) as int,
                |x: int, y: int| heart_outline_index(x - dx, y - dy) < j,
                |x: int, y: int| heart_outline_index(x - dx, y - dy) < j + 1,
            );
        }
        j = j + 1;
    }
    let ghost outline = |x: int, y: int| heart_outline_index(x - dx, y - dy) < 8;
    let reach = if state == 2 { dx + 5 } else if state == 1 { dx + 3 } else { dx + 1 };
    let stop = if reach < dw { reach } else { dw };
    let mut xx = dx + 1;
    while xx < stop
        invariant
            g0.wf(),
            dx + 5 <= usize::MAX,
            dy + 3 <= usize::MAX,
            dw == g0.dot_width(),
            reach == (if state == 2 { dx + 5 } else if state == 1 { dx + 3 } else { dx + 1 }),
            stop == (if reach < dw { reach } else { dw }),
            dx + 1 <= xx,
            xx < stop || xx == dx + 1 || xx == stop,
            g0.gains_dots(grid@, |x: int, y: int| outline(x, y) || ((y == dy + 1 || y == dy + 2) && dx + 1 <= x < xx)),
        decreases stop - xx,
    {
        let ghost g1 = grid@;
        let ghost before = |x: int, y: int| outline(x, y) || ((y == dy + 1 || y == dy + 2) && dx + 1 <= x < xx);
        let ghost mid = |x: int, y: int| before(x, y) || (x == xx && y == dy + 1);
        let ghost after = |x: int, y: int| outline(x, y) || ((y == dy + 1 || y == dy + 2) && dx + 1 <= x < xx + 1);
        draw::dot(grid, xx, dy + 1);
        proof {
            lemma_gains_dot(g0, g1, xx as int, dy + 1, before, mid);
        }
        let ghost g2 = grid@;
        draw::dot(grid, xx, dy + 2);
        proof {
            lemma_gains_dot(g0, g2, xx as int, dy + 2, mid, after);
        }
        xx = xx + 1;
    }
    proof {
        let last = |x: int, y: int| outline(x, y) || ((y == dy + 1 || y == dy + 2) && dx + 1 <= x < xx);
        assert forall|x: int, y: int| g0.in_dots(x, y) implies (#[trigger] grid@.is_lit(x, y) <==> (g0.is_lit(x, y)
            || heart_dot(dx as int, dy as int, state as int, x, y))) by {
            assert(grid@.is_lit(x, y) <==> (g0.is_lit(x, y) || last(x, y)));
        }
    }
}

impl ZeldaHearts {
    /// One frame of the heart-container row: as many hearts (3 cells wide,
    /// one cell apart) as fit, on the middle cell row, the first
    /// `half_filled` halves full, each heart full, half full or empty.
    pub fn draw(&self, grid: &mut BrailleGrid, half_filled: usize)
        requires
            old(grid)@.wf(),
        ensures
            old(grid)@.gains_dots(
                final(grid)@,
                zelda_hearts(
                    half_filled as int,
                    zelda_row(old(grid)@),
                    if old(grid)@.width / 4 > 1 { old(grid)@.width as int / 4 } else { 1 },
                ),
            ),
    {
        let ghost g0 = grid@;
        let (cw, ch) = grid.dimensions();
        let (dw, dh) = draw::dot_dims(grid);
        let n_hearts = if cw / 4 > 1 { cw / 4 } else { 1 };
        let row = ch / 2;
        let dy = if row * 4 < dh - 3 { row * 4 } else { dh - 3 };
        proof {
            lemma_gains_nothing(g0, zelda_hearts(half_filled as int, dy as int, 0));
        }
        let mut i: usize = 0;
        while i < n_hearts
            invariant
                g0.wf(),
                cw == g0.width,
                dw == g0.dot_width(),
                dh == g0.dot_height(),
                n_hearts == (if cw / 4 > 1 { cw / 4 } else { 1 }),
                dy == zelda_row(g0),
                dy + 3 <= dh,
                i <= n_hearts,
                g0.gains_dots(grid@, zelda_hearts(half_filled as int, dy as int, i as int)),
            decreases n_hearts - i,
        {
            let full_halves = if half_filled > i * 2 { half_filled - i * 2 } else { 0 };
            let state = if full_halves < 2 { full_halves } else { 2 };
            let dx = i * 8;
            let ghost g1 = grid@;
            draw_heart(grid, dx, dy, state);
            proof {
                let before = zelda_hearts(half_filled as int, dy as int, i as int);
                let after = zelda_hearts(half_filled as int, dy as int, i + 1);
                let one = |x: int, y: int| heart_dot(dx as int, dy as int, state as int, x, y);
                assert(state as int == zelda_state(half_filled as int, i as int));
                assert forall|x: int, y: int| g0.in_dots(x, y) implies (after(x, y) <==> (before(x, y) || one(x, y))) by {
                    if after(x, y) {
                        let k = choose|k: int| 0 <= k < i + 1 && #[trigger] heart_dot(8 * k, dy as int, zelda_state(half_filled as int, k), x, y);
                        if k < i {
                            assert(before(x, y));
                        }
                    }
                    if one(x, y) {
                        assert(heart_dot(8 * i, dy as int, zelda_state(half_filled as int, i as int), x, y));
                    }
                    if before(x, y) {
                        let k = choose|k: int| 0 <= k < i && #[trigger] heart_dot(8 * k, dy as int, zelda_state(half_filled as int, k), x, y);
                        assert(heart_dot(8 * k, dy as int, zelda_state(half_filled as int, k), x, y));
                    }
                }
                lemma_gains_trans(g0, g1, grid@, before, one, after);
            }
            i = i + 1;
        }
    }
}

/// `a` capped at `b`.
pub open spec fn min_int(a: int, b: int) -> int {
    if a < b {
        a
    } else {
        b
    }
}

/// Dot `(x, y)` of the stacked rows of a Tetris well whose inside is
/// `inner_w` dots wide and `inner_h` tall, filled from row `top` down: full
/// rows, with every fourth row from the bottom a sparse mortar line of one
/// dot in three.
pub open spec fn tetris_stack(inner_w: int, inner_h: int, top: int, x: int, y: int) -> bool {
    &&& top <= y < inner_h
    &&& 1 <= x <= inner_w
    &&& ((inner_h - 1 - y) % 4 == 3 ==> (x - 1) % 3 == 0)
}

/// Dot `(x, y)` of falling piece `shape` (I, L, S, T, then O for any other
/// value) whose bottom row is `py` and left edge `px0`, cut at column
/// `right`.
pub open spec fn tetris_piece(shape: int, px0: int, py: int, right: int, x: int, y: int) -> bool {
    if shape == 0 {
        y == py && px0 <= x <= min_int(px0 + 3, right)
    } else if shape == 1 {
        (y == py && px0 <= x <= min_int(px0 + 2, right)) || (py >= 1 && x == px0 + 2 && y == py - 1)
    } else if shape == 2 {
        (y == py && px0 + 1 <= x <= min_int(px0 + 3, right)) || (py >= 1 && y == py - 1 && px0 <= x <= min_int(
            px0 + 2,
            right,
        ))
    } else if shape == 3 {
        (y == py && px0 <= x <= min_int(px0 + 2, right)) || (py >= 1 && x == px0 + 1 && y == py - 1)
    } else {
        (y == py || (py >= 1 && y == py - 1)) && px0 <= x <= min_int(px0 + 1, right)
    }
}

/// The falling pieces are tetrominoes of two rows, the bottom row `py` and
/// the row above, whenever the well leaves them room (`py >= 1` and the
/// cut at `right` past their fourth column):
/// - I: four in a row on the bottom row, mirror-symmetric about its middle;
/// - L: three in a row from `px0`, and one dot above the right end only;
/// - S: three in a row from `px0 + 1`, and above it the same row shifted
///   one column left;
/// - T: three in a row from `px0`, and one dot above, the piece being
///   mirror-symmetric about its centre column `px0 + 1`;
/// - O: two by two from `px0`, the top row equal to the bottom row.
pub proof fn lemma_tetrominoes(px0: int, py: int, right: int, x: int, y: int)
    requires
        py >= 1,
        right >= px0 + 3,
    ensures
        forall|s: int| #[trigger] tetris_piece(s, px0, py, right, x, y) ==> (y == py || y == py - 1),
        tetris_piece(0, px0, py, right, x, y) ==> y == py,
        tetris_piece(0, px0, py, right, x, py) <==> tetris_piece(0, px0, py, right, 2 * px0 + 3 - x, py),
        tetris_piece(0, px0, py, right, x, py) <==> px0 <= x <= px0 + 3,
        tetris_piece(1, px0, py, right, x, py) <==> px0 <= x <= px0 + 2,
        tetris_piece(1, px0, py, right, x, py - 1) <==> (tetris_piece(1, px0, py, right, x, py) && !tetris_piece(
            1,
            px0,
            py,
            right,
            x + 1,
            py,
        )),
        tetris_piece(2, px0, py, right, x, py) <==> px0 + 1 <= x <= px0 + 3,
        tetris_piece(2, px0, py, right, x, py - 1) <==> tetris_piece(2, px0, py, right, x + 1, py),
        tetris_piece(3, px0, py, right, x, py) <==> px0 <= x <= px0 + 2,
        tetris_piece(3, px0, py, right, x, y) <==> tetris_piece(3, px0, py, right, 2 * px0 + 2 - x, y),
        tetris_piece(3, px0, py, right, x, py - 1) ==> (forall|x2: int|
            #[trigger] tetris_piece(3, px0, py, right, x2, py - 1) ==> x2 == x),
        exists|x2: int| #[trigger] tetris_piece(3, px0, py, right, x2, py - 1),
        tetris_piece(4, px0, py, right, x, py) <==> px0 <= x <= px0 + 1,
        tetris_piece(4, px0, py, right, x, py - 1) <==> tetris_piece(4, px0, py, right, x, py),
{
    assert(tetris_piece(3, px0, py, right, px0 + 1, py - 1));
}

/// Width of the span a falling piece is centred in, inside a well
/// `inner_w` dots wide: the inside, at most 8 and at least 1.
pub open spec fn tetris_span(inner_w: int) -> int {
    if min_int(inner_w, 8) > 1 { min_int(inner_w, 8) } else { 1 }
}

/// Left column of the falling piece in a well `inner_w` dots wide inside
/// (its inside being columns `1..=inner_w`).
pub open spec fn tetris_piece_left(inner_w: int) -> int {
    1 + (inner_w - tetris_span(inner_w)) / 2
}

/// The falling piece is centred in the well: its span of up to 8 columns
/// starts inside the well and leaves as many free columns on its left as
/// on its right, or one fewer.
pub proof fn lemma_tetris_centred(inner_w: int)
    requires
        inner_w >= 1,
    ensures
        1 <= tetris_piece_left(inner_w),
        tetris_piece_left(inner_w) + tetris_span(inner_w) - 1 <= inner_w,
        0 <= (inner_w - (tetris_piece_left(inner_w) - 1 + tetris_span(inner_w))) - (tetris_piece_left(inner_w) - 1) <= 1,
{
}

/// A Tetris well `dw x dh` dots: walls and floor; inside, `stack` rows
/// stacked from the bottom (capped at the inside height), and while the
/// stack is not full the falling `piece`, if one shows, just above it,
/// centred in a span of at most 8 dots.
pub open spec fn tetris_well(dw: int, dh: int, stack: int, piece: Option<usize>) -> spec_fn(int, int) -> bool {
    let inner_w = dw - 2;
    let inner_h = dh - 1;
    let st = min_int(stack, inner_h);
    let top = inner_h - st;
    let px0 = tetris_piece_left(inner_w);
    |x: int, y: int|
        ((x == 0 || x == dw - 1) && 0 <= y < dh) || (y == dh - 1 && 0 <= x < dw) || (inner_w > 0 && (
        tetris_stack(inner_w, inner_h, top, x, y) || (st < inner_h && piece is Some && tetris_piece(
            piece->0 as int,
            px0,
            top - 1,
            dw - 1,
            x,
            y,
        ))))
}

/// A grid that gained `s` has gained any shape that agrees with `s` on
/// the lattice.
proof fn lemma_gains_same(g0: GridView, g: GridView, s: spec_fn(int, int) -> bool, t: spec_fn(int, int) -> bool)
    requires
        g0.gains_dots(g, s),
        forall|x: int, y: int| g0.in_dots(x, y) ==> (s(x, y) <==> t(x, y)),
    ensures
        g0.gains_dots(g, t),
{
}

/// A grid that gained `s1` and then `s2` has gained their union.
proof fn lemma_gains_union(
    g0: GridView,
    g1: GridView,
    g2: GridView,
    s1: spec_fn(int, int) -> bool,
    s2: spec_fn(int, int) -> bool,
)
    requires
        g0.gains_dots(g1, s1),
        g1.gains_dots(g2, s2),
    ensures
        g0.gains_dots(g2, |x: int, y: int| s1(x, y) || s2(x, y)),
{
    lemma_gains_trans(g0, g1, g2, s1, s2, |x: int, y: int| s1(x, y) || s2(x, y));
}

impl TetrisWell {
    /// One frame of the Tetris well: walls and floor, `stack_dots` rows of
    /// stacked blocks, and the falling `piece` (by shape index) when it is
    /// showing.
    #[verifier::rlimit(40)]
    pub fn draw(&self, grid: &mut BrailleGrid, stack_dots: usize, piece: Option<usize>)
        requires
            old(grid)@.wf(),
        ensures
            old(grid)@.gains_dots(
                final(grid)@,
                tetris_well(old(grid)@.dot_width() as int, old(grid)@.dot_height() as int, stack_dots as int, piece),
            ),
    {
        let ghost g0 = grid@;
        let (dw, dh) = draw::dot_dims(grid);
        let ghost target = tetris_well(dw as int, dh as int, stack_dots as int, piece);
        draw::vline(grid, 0, 0, dh - 1);
        let ghost g1 = grid@;
        let ghost s1 = |px: int, py: int| px == 0 && (if 0 <= dh - 1 { 0 <= py <= dh - 1 } else { dh - 1 <= py <= 0 });
        draw::vline(grid, dw - 1, 0, dh - 1);
        let ghost g2 = grid@;
        let ghost s2 = |px: int, py: int| px == dw - 1 && (if 0 <= dh - 1 { 0 <= py <= dh - 1 } else { dh - 1 <= py <= 0 });
        proof {
            lemma_gains_union(g0, g1, g2, s1, s2);
        }
        draw::hline(grid, 0, dw - 1, dh - 1);
        let ghost g3 = grid@;
        let ghost s3 = |px: int, py: int| py == dh - 1 && (if 0 <= dw - 1 { 0 <= px <= dw - 1 } else { dw - 1 <= px <= 0 });
        let ghost frame = |x: int, y: int| (|x: int, y: int| s1(x, y) || s2(x, y))(x, y) || s3(x, y);
        proof {
            lemma_gains_union(g0, g2, g3, |x: int, y: int| s1(x, y) || s2(x, y), s3);
        }
        let inner_w = dw - 2;
        let inner_h = dh - 1;
        if inner_w == 0 {
            proof {
                assert forall|x: int, y: int| g0.in_dots(x, y) implies (#[trigger] grid@.is_lit(x, y) <==> (g0.is_lit(x, y)
                    || target(x, y))) by {
                    assert(grid@.is_lit(x, y) <==> (g0.is_lit(x, y) || frame(x, y)));
                }
            }
            return;
        }
        let stack = if stack_dots < inner_h { stack_dots } else { inner_h };
        let stack_y0 = inner_h - stack;
        let ghost stacked = |x: int, y: int| tetris_stack(inner_w as int, inner_h as int, stack_y0 as int, x, y);
        let mut y = stack_y0;
        while y < inner_h
            invariant
                g0.wf(),
                dw == g0.dot_width(),
                dh == g0.dot_height(),
                inner_w == dw - 2,
                inner_w >= 1,
                inner_h == dh - 1,
                stack_y0 <= y <= inner_h,
                g0.gains_dots(
                    grid@,
                    |x: int, yy: int| frame(x, yy) || (yy < y && tetris_stack(inner_w as int, inner_h as int, stack_y0 as int, x, yy)),
                ),
            decreases inner_h - y,
        {
            let ghost before = |x: int, yy: int| frame(x, yy) || (yy < y && tetris_stack(inner_w as int, inner_h as int, stack_y0 as int, x, yy));
            let ghost after = |x: int, yy: int| frame(x, yy) || (yy < y + 1 && tetris_stack(inner_w as int, inner_h as int, stack_y0 as int, x, yy));
            let ghost g4 = grid@;
            let row_mod = (inner_h - 1 - y) % 4;
            if row_mod == 3 {
                let mut x: usize = 1;
                while x <= inner_w
                    invariant
                        g0.wf(),
                        dw == g0.dot_width(),
                        inner_w == dw - 2,
                        1 <= x <= inner_w + 3,
                        (x - 1) % 3 == 0,
                        y < inner_h,
                        g0.gains_dots(grid@, |px: int, py: int| before(px, py) || (py == y && 1 <= px < x && (px - 1) % 3 == 0)),
                    decreases inner_w + 3 - x,
                {
                    let ghost g5 = grid@;
                    draw::dot(grid, x, y);
                    proof {
                        lemma_gains_dot(
                            g0,
                            g5,
                            x as int,
                            y as int,
                            |px: int, py: int| before(px, py) || (py == y && 1 <= px < x && (px - 1) % 3 == 0),
                            |px: int, py: int| before(px, py) || (py == y && 1 <= px < x + 3 && (px - 1) % 3 == 0),
                        );
                    }
                    x = x + 3;
                }
                proof {
                    assert forall|px: int, py: int| g0.in_dots(px, py) implies (#[trigger] grid@.is_lit(px, py) <==> (g0.is_lit(px, py)
                        || after(px, py))) by {
                        assert(grid@.is_lit(px, py) <==> (g0.is_lit(px, py) || before(px, py) || (py == y && 1 <= px < x
                            && (px - 1) % 3 == 0)));
                    }
                }
            } else {
                draw::hline(grid, 1, inner_w, y);
                proof {
                    let seg = |px: int, py: int| py == y && (if 1 <= inner_w { 1 <= px <= inner_w } else { inner_w <= px <= 1 });
                    lemma_gains_trans(g0, g4, grid@, before, seg, after);
                }
            }
            y = y + 1;
        }
        let ghost g6 = grid@;
        let ghost body = |x: int, yy: int| frame(x, yy) || tetris_stack(inner_w as int, inner_h as int, stack_y0 as int, x, yy);
        proof {
            assert forall|x: int, yy: int| g0.in_dots(x, yy) implies (#[trigger] grid@.is_lit(x, yy) <==> (g0.is_lit(x, yy)
                || body(x, yy))) by {
                assert(grid@.is_lit(x, yy) <==> (g0.is_lit(x, yy) || frame(x, yy) || (yy < y && tetris_stack(
                    inner_w as int,
                    inner_h as int,
                    stack_y0 as int,
                    x,
                    yy,
                ))));
            }
        }
        if stack < inner_h {
            match piece {
                Some(shape) => {
                    let piece_y = stack_y0 - 1;
                    let pw0 = if inner_w < 8 { inner_w } else { 8 };
                    let pw = if pw0 > 1 { pw0 } else { 1 };
                    let px0 = 1 + (inner_w - pw) / 2;
                    let right = dw - 1;
                    let ghost piece_dots = |x: int, yy: int| tetris_piece(shape as int, px0 as int, piece_y as int, right as int, x, yy);
                    if shape == 0 {
                        let e = if px0 + 3 < right { px0 + 3 } else { right };
                        draw::hline(grid, px0, e, piece_y);
                    } else if shape == 1 {
                        let e = if px0 + 2 < right { px0 + 2 } else { right };
                        draw::hline(grid, px0, e, piece_y);
                        let ghost g7 = grid@;
                        if piece_y >= 1 {
                            draw::dot(grid, px0 + 2, piece_y - 1);
                        }
                        proof {
                            let a = |px: int, py: int| py == piece_y && (if px0 <= e { px0 <= px <= e } else { e <= px <= px0 });
                            if piece_y >= 1 {
                                lemma_gains_dot(g6, g7, px0 + 2, piece_y - 1, a, piece_dots);
                            } else {
                                assert(g6.gains_dots(g7, piece_dots));
                            }
                        }
                    } else if shape == 2 {
                        let e = if px0 + 3 < right { px0 + 3 } else { right };
                        draw::hline(grid, px0 + 1, e, piece_y);
                        let ghost g7 = grid@;
                        let ghost a = |px: int, py: int| py == piece_y && (if px0 + 1 <= e { px0 + 1 <= px <= e } else { e <= px <= px0 + 1 });
                        if piece_y >= 1 {
                            let e2 = if px0 + 2 < right { px0 + 2 } else { right };
                            draw::hline(grid, px0, e2, piece_y - 1);
                            proof {
                                let b = |px: int, py: int| py == piece_y - 1 && (if px0 <= e2 { px0 <= px <= e2 } else { e2 <= px <= px0 });
                                lemma_gains_trans(g6, g7, grid@, a, b, piece_dots);
                            }
                        } else {
                            proof {
                                assert(g6.gains_dots(g7, piece_dots));
                            }
                        }
                    } else if shape == 3 {
                        let e = if px0 + 2 < right { px0 + 2 } else { right };
                        draw::hline(grid, px0, e, piece_y);
                        let ghost g7 = grid@;
                        if piece_y >= 1 {
                            draw::dot(grid, px0 + 1, piece_y - 1);
                        }
                        proof {
                            let a = |px: int, py: int| py == piece_y && (if px0 <= e { px0 <= px <= e } else { e <= px <= px0 });
                            if piece_y >= 1 {
                                lemma_gains_dot(g6, g7, px0 + 1, piece_y - 1, a, piece_dots);
                            } else {
                                assert(g6.gains_dots(g7, piece_dots));
                            }
                        }
                    } else {
                        let e = if px0 + 1 < right { px0 + 1 } else { right };
                        draw::hline(grid, px0, e, piece_y);
                        let ghost g7 = grid@;
                        let ghost a = |px: int, py: int| py == piece_y && (if px0 <= e { px0 <= px <= e } else { e <= px <= px0 });
                        if piece_y >= 1 {
                            draw::hline(grid, px0, e, piece_y - 1);
                            proof {
                                let b = |px: int, py: int| py == piece_y - 1 && (if px0 <= e { px0 <= px <= e } else { e <= px <= px0 });
                                lemma_gains_trans(g6, g7, grid@, a, b, piece_dots);
                            }
                        } else {
                            proof {
                                assert(g6.gains_dots(g7, piece_dots));
                            }
                        }
                    }
                    proof {
                        assert(g6.gains_dots(grid@, piece_dots));
                        lemma_gains_union(g0, g6, grid@, body, piece_dots);
                        assert forall|x: int, yy: int| g0.in_dots(x, yy) implies (#[trigger] grid@.is_lit(x, yy) <==> (g0.is_lit(x, yy)
                            || target(x, yy))) by {
                            assert(grid@.is_lit(x, yy) <==> (g0.is_lit(x, yy) || body(x, yy) || piece_dots(x, yy)));
                        }
                    }
                    return;
                },
                None => {},
            }
        }
        proof {
            assert forall|x: int, yy: int| g0.in_dots(x, yy) implies (#[trigger] grid@.is_lit(x, yy) <==> (g0.is_lit(x, yy)
                || target(x, yy))) by {
                assert(grid@.is_lit(x, yy) <==> (g0.is_lit(x, yy) || body(x, yy)));
            }
        }
    }
}

/// Width in dots of an energy tank on a bar `dw` dots wide: a sixth of the
/// bar, at least 3, at most the bar.
pub open spec fn tank_width(dw: int) -> int {
    let t = if dw / 6 > 3 { dw / 6 } else { 3 };
    if t < dw {
        t
    } else {
        dw
    }
}

/// Number of tanks: as many as fit with one-dot gaps, at least one.
pub open spec fn tank_count(dw: int) -> int {
    let n = dw / (tank_width(dw) + 1);
    if n > 1 {
        n
    } else {
        1
    }
}

/// Dot `(x, y)` of tank `i` on a bar `dw x dh` dots with `full` tanks
/// full and the next one charged `charge` dots high when given (at least
/// one dot, at most the inside): the tank's outline, and its inside filled
/// for a full tank or from the bottom for the charging one.
pub open spec fn tank_dot(i: int, dw: int, dh: int, full: int, charge: Option<usize>, x: int, y: int) -> bool {
    let tw = tank_width(dw);
    let x0 = i * (tw + 1);
    let aw = if tw < dw - x0 { tw } else { dw - x0 };
    let iw = if aw >= 2 { aw - 2 } else { 0 };
    let ih = dh - 2;
    &&& 0 <= i < tank_count(dw)
    &&& x0 < dw
    &&& {
        ||| crate::progress::draw::on_outline(x0, 0, x0 + aw - 1, dh - 1, x, y)
        ||| (i < full && iw > 0 && x0 + 1 <= x < x0 + 1 + iw && 1 <= y < 1 + ih)
        ||| (i == full && charge is Some && iw > 0 && {
            let c = charge->0 as int;
            let ch = if c < 1 { 1 } else if c > ih { ih } else { c };
            x0 + 1 <= x < x0 + 1 + iw && ih + 1 - ch <= y < ih + 1
        })
    }
}

/// The tanks before `i`.
pub open spec fn tanks_upto(dw: int, dh: int, full: int, charge: Option<usize>, i: int) -> spec_fn(int, int) -> bool {
    |x: int, y: int| exists|k: int| k < i && #[trigger] tank_dot(k, dw, dh, full, charge, x, y)
}

proof fn lemma_tank_offset(i: int, tw: int, n0: int, n: int, dw: int) by (nonlinear_arith)
    requires
        0 <= i < n,
        tw >= 1,
        dw >= 2,
        n0 == dw / (tw + 1),
        n == (if n0 > 1 { n0 } else { 1 }),
    ensures
        0 <= i * (tw + 1) <= dw,
{
    if i >= 1 {
        assert(i * (tw + 1) <= n0 * (tw + 1));
        assert(n0 * (tw + 1) <= dw);
    }
}

impl MetroidETanks {
    /// One frame of the energy tanks: every tank outlined, the first `full`
    /// filled, and the next charged `charge` dots high when a charge is
    /// given.
    pub fn draw(&self, grid: &mut BrailleGrid, full: usize, charge: Option<usize>)
        requires
            old(grid)@.wf(),
        ensures
            old(grid)@.gains_dots(
                final(grid)@,
                |x: int, y: int|
                    exists|i: int|
                        #[trigger] tank_dot(
                            i,
                            old(grid)@.dot_width() as int,
                            old(grid)@.dot_height() as int,
                            full as int,
                            charge,
                            x,
                            y,
                        ),
            ),
    {
        let ghost g0 = grid@;
        let (dw, dh) = draw::dot_dims(grid);
        let t0 = if dw / 6 > 3 { dw / 6 } else { 3 };
        let tw = if t0 < dw { t0 } else { dw };
        let n0 = dw / (tw + 1);
        let n = if n0 > 1 { n0 } else { 1 };
        proof {
            lemma_gains_nothing(g0, tanks_upto(dw as int, dh as int, full as int, charge, 0));
        }
        let mut i: usize = 0;
        while i < n
            invariant
                g0.wf(),
                dw == g0.dot_width(),
                dh == g0.dot_height(),
                dw >= 2,
                dh >= 4,
                tw == tank_width(dw as int),
                n == tank_count(dw as int),
                n0 as int == dw as int / (tw as int + 1),
                i <= n,
                g0.gains_dots(grid@, tanks_upto(dw as int, dh as int, full as int, charge, i as int)),
            decreases n - i,
        {
            proof {
                lemma_tank_offset(i as int, tw as int, n0 as int, n as int, dw as int);
            }
            let x0 = i * (tw + 1);
            let ghost g1 = grid@;
            if x0 < dw {
                let aw = if tw < dw - x0 { tw } else { dw - x0 };
                let iw = if aw >= 2 { aw - 2 } else { 0 };
                let ih = dh - 2;
                let ghost one = |x: int, y: int| tank_dot(i as int, dw as int, dh as int, full as int, charge, x, y);
                draw::rect_outline(grid, x0, 0, aw, dh);
                let ghost g2 = grid@;
                let ghost outline = |px: int, py: int| draw::on_outline(x0 as int, 0, x0 + aw - 1, dh - 1, px, py);
                let ghost fill = |px: int, py: int| one(px, py) && !outline(px, py);
                if i < full && iw > 0 {
                    draw::fill_rect(grid, x0 + 1, 1, iw, ih);
                    proof {
                        let r = |px: int, py: int| x0 + 1 <= px < x0 + 1 + iw && 1 <= py < 1 + ih;
                        lemma_gains_trans(g1, g2, grid@, outline, r, one);
                    }
                } else if i == full && iw > 0 && charge.is_some() {
                    let c = match charge {
                        Some(c) => c,
                        None => 0,
                    };
                    let ch = if c < 1 { 1 } else if c > ih { ih } else { c };
                    let y0 = ih + 1 - ch;
                    draw::fill_rect(grid, x0 + 1, y0, iw, ch);
                    proof {
                        let r = |px: int, py: int| x0 + 1 <= px < x0 + 1 + iw && y0 <= py < y0 + ch;
                        lemma_gains_trans(g1, g2, grid@, outline, r, one);
                    }
                } else {
                    proof {
                        assert forall|px: int, py: int| g1.in_dots(px, py) implies (#[trigger] grid@.is_lit(px, py) <==> (g1.is_lit(px, py)
                            || one(px, py))) by {
                            assert(grid@.is_lit(px, py) <==> (g1.is_lit(px, py) || outline(px, py)));
                        }
                    }
                }
                proof {
                    assert(g1.gains_dots(grid@, one));
                    assert forall|px: int, py: int| g0.in_dots(px, py) implies (tanks_upto(dw as int, dh as int, full as int, charge, i + 1)(px, py) <==> (tanks_upto(dw as int, dh as int, full as int, charge, i as int)(px, py) || one(px, py))) by {
                        if tanks_upto(dw as int, dh as int, full as int, charge, i + 1)(px, py) {
                            let k = choose|k: int| k < i + 1 && #[trigger] tank_dot(k, dw as int, dh as int, full as int, charge, px, py);
                            if k < i {
                                assert(tanks_upto(dw as int, dh as int, full as int, charge, i as int)(px, py));
                            }
                        }
                        if tanks_upto(dw as int, dh as int, full as int, charge, i as int)(px, py) {
                            let k = choose|k: int| k < i && #[trigger] tank_dot(k, dw as int, dh as int, full as int, charge, px, py);
                            assert(tank_dot(k, dw as int, dh as int, full as int, charge, px, py));
                        }
                        if one(px, py) {
                            assert(tank_dot(i as int, dw as int, dh as int, full as int, charge, px, py));
                        }
                    }
                    lemma_gains_trans(g0, g1, grid@, tanks_upto(dw as int, dh as int, full as int, charge, i as int), one, tanks_upto(dw as int, dh as int, full as int, charge, i + 1));
                }
            } else {
                proof {
                    assert forall|px: int, py: int| g0.in_dots(px, py) implies (tanks_upto(dw as int, dh as int, full as int, charge, i + 1)(px, py) <==> tanks_upto(dw as int, dh as int, full as int, charge, i as int)(px, py)) by {
                        if tanks_upto(dw as int, dh as int, full as int, charge, i + 1)(px, py) {
                            let k = choose|k: int| k < i + 1 && #[trigger] tank_dot(k, dw as int, dh as int, full as int, charge, px, py);
                            if k < i {
                                assert(tanks_upto(dw as int, dh as int, full as int, charge, i as int)(px, py));
                            }
                        }
                    }
                }
            }
            i = i + 1;
        }
        proof {
            assert forall|px: int, py: int| g0.in_dots(px, py) implies (#[trigger] grid@.is_lit(px, py) <==> (g0.is_lit(px, py)
                || (exists|k: int| #[trigger] tank_dot(k, dw as int, dh as int, full as int, charge, px, py)))) by {
                if exists|k: int| #[trigger] tank_dot(k, dw as int, dh as int, full as int, charge, px, py) {
                    let k = choose|k: int| #[trigger] tank_dot(k, dw as int, dh as int, full as int, charge, px, py);
                    assert(tanks_upto(dw as int, dh as int, full as int, charge, n as int)(px, py));
                }
            }
        }
    }
}

/// Dot rows between ice platforms: a quarter of the bar, at least 2.
pub open spec fn ice_spacing(dh: int) -> int {
    if dh / 4 > 2 {
        dh / 4
    } else {
        2
    }
}

/// Left end of ice platform `p`: platforms three quarters of the bar wide,
/// alternately flush left and flush right.
pub open spec fn ice_left(p: int, dw: int) -> int {
    if p % 2 == 0 {
        0
    } else {
        dw - dw * 3 / 4
    }
}

/// Right end of ice platform `p`.
pub open spec fn ice_right(p: int, dw: int) -> int {
    let r = ice_left(p, dw) + dw * 3 / 4 - 1;
    if r < dw - 1 {
        r
    } else {
        dw - 1
    }
}

/// Row of ice platform `p` once the tower has scrolled by `offset` rows:
/// the platforms wrap around a cycle one spacing taller than the bar.
pub open spec fn ice_row(p: int, dh: int, offset: int) -> int {
    (p * ice_spacing(dh) + offset) % (dh + ice_spacing(dh))
}

/// Dot `(x, y)` of ice platform `p` on a bar `dw x dh` dots scrolled by
/// `offset`: the platform's row and, under its two ends, a dot each.
pub open spec fn ice_platform(p: int, dw: int, dh: int, offset: int, x: int, y: int) -> bool {
    let yp = ice_row(p, dh, offset);
    &&& 0 <= p < dh / ice_spacing(dh) + 2
    &&& yp < dh
    &&& {
        ||| (y == yp && ice_left(p, dw) <= x <= ice_right(p, dw))
        ||| (yp + 1 < dh && y == yp + 1 && (x == ice_left(p, dw) || x == ice_right(p, dw)))
    }
}

/// The platforms before `k`.
pub open spec fn ice_platforms(dw: int, dh: int, offset: int, k: int) -> spec_fn(int, int) -> bool {
    |x: int, y: int| exists|p: int| p < k && #[trigger] ice_platform(p, dw, dh, offset, x, y)
}

/// Dot `(x, y)` of the climber: a 2x2 body at `(cx, cy)` and a leg below it
/// under the left or right half by `leg`.
pub open spec fn climber_dot(cx: int, cy: int, leg: int, dh: int, x: int, y: int) -> bool {
    ||| (y == cy && (x == cx || x == cx + 1))
    ||| (cy + 1 < dh && y == cy + 1 && (x == cx || x == cx + 1))
    ||| (cy + 2 < dh && y == cy + 2 && x == cx + leg)
}

/// The lattice of a well-formed grid is small next to the largest `usize`.
proof fn lemma_dots_small(g: GridView)
    requires
        g.wf(),
    ensures
        3 * g.dot_width() <= usize::MAX,
        2 * g.dot_height() <= usize::MAX,
{
    assert(g.width <= g.width * g.height && g.height <= g.width * g.height) by (nonlinear_arith)
        requires
            g.width >= 1,
            g.height >= 1,
    ;
}

impl IceClimberUp {
    /// One frame of the ice tower: the platforms scrolled by `scroll` rows
    /// (taken modulo the bar height), and the climber at row `climber_y` in
    /// the middle column with its leg by the parity of `leg_phase`.
    pub fn draw(&self, grid: &mut BrailleGrid, scroll: usize, climber_y: usize, leg_phase: usize)
        requires
            old(grid)@.wf(),
            climber_y + 2 <= usize::MAX,
            (old(grid)@.dot_height() as int / ice_spacing(old(grid)@.dot_height() as int) + 1) * ice_spacing(
                old(grid)@.dot_height() as int,
            ) + scroll as int % old(grid)@.dot_height() as int <= usize::MAX,
        ensures
            old(grid)@.gains_dots(
                final(grid)@,
                |x: int, y: int|
                    (exists|p: int|
                        #[trigger] ice_platform(
                            p,
                            old(grid)@.dot_width() as int,
                            old(grid)@.dot_height() as int,
                            scroll as int % old(grid)@.dot_height() as int,
                            x,
                            y,
                        )) || climber_dot(
                        old(grid)@.dot_width() as int / 2,
                        climber_y as int,
                        leg_phase as int % 2,
                        old(grid)@.dot_height() as int,
                        x,
                        y,
                    ),
            ),
    {
        let ghost g0 = grid@;
        let (dw, dh) = draw::dot_dims(grid);
        proof {
            lemma_dots_small(g0);
        }
        let offset = scroll % dh;
        let sp = if dh / 4 > 2 { dh / 4 } else { 2 };
        let count = dh / sp + 2;
        let pw = dw * 3 / 4;
        proof {
            lemma_gains_nothing(g0, ice_platforms(dw as int, dh as int, offset as int, 0));
        }
        let mut p: usize = 0;
        while p < count
            invariant
                g0.wf(),
                dw == g0.dot_width(),
                dh == g0.dot_height(),
                dw >= 2,
                dh >= 4,
                3 * dw <= usize::MAX,
                2 * dh <= usize::MAX,
                offset < dh,
                sp == ice_spacing(dh as int),
                count == dh / sp + 2,
                (dh as int / sp as int + 1) * sp + offset <= usize::MAX,
                pw == dw * 3 / 4,
                p <= count,
                g0.gains_dots(grid@, ice_platforms(dw as int, dh as int, offset as int, p as int)),
            decreases count - p,
        {
            let ghost before = ice_platforms(dw as int, dh as int, offset as int, p as int);
            let ghost after = ice_platforms(dw as int, dh as int, offset as int, p + 1);
            proof {
                assert(p * sp + offset <= (dh / sp + 1) * sp + offset) by (nonlinear_arith)
                    requires
                        p < count,
                        count == dh / sp + 2,
                        sp >= 2,
                ;
                assert(dh + sp <= 2 * dh) by (nonlinear_arith)
                    requires
                        sp == (if dh / 4 > 2 { dh / 4 } else { 2 }),
                        dh >= 4,
                ;
            }
            let y = (p * sp + offset) % (dh + sp);
            let ghost one = |x: int, yy: int| ice_platform(p as int, dw as int, dh as int, offset as int, x, yy);
            let ghost g1 = grid@;
            if y < dh {
                let px0 = if p % 2 == 0 { 0 } else { dw - pw };
                let r0 = px0 + pw;
                let r1 = if r0 >= 1 { r0 - 1 } else { 0 };
                let right = if r1 < dw - 1 { r1 } else { dw - 1 };
                assert(px0 as int == ice_left(p as int, dw as int));
                assert(right as int == ice_right(p as int, dw as int));
                draw::hline(grid, px0, right, y);
                let ghost g2 = grid@;
                let ghost seg = |px: int, py: int| py == y && (if px0 <= right { px0 <= px <= right } else { right <= px <= px0 });
                if y + 1 < dh {
                    draw::dot(grid, px0, y + 1);
                    let ghost g3 = grid@;
                    draw::dot(grid, right, y + 1);
                    proof {
                        let s1 = |px: int, py: int| seg(px, py) || (px == px0 && py == y + 1);
                        lemma_gains_dot(g1, g2, px0 as int, y + 1, seg, s1);
                        lemma_gains_dot(g1, g3, right as int, y + 1, s1, one);
                    }
                } else {
                    proof {
                        assert forall|px: int, py: int| g1.in_dots(px, py) implies (#[trigger] grid@.is_lit(px, py) <==> (g1.is_lit(px, py)
                            || one(px, py))) by {
                            assert(grid@.is_lit(px, py) <==> (g1.is_lit(px, py) || seg(px, py)));
                        }
                    }
                }
                proof {
                    assert forall|px: int, py: int| g0.in_dots(px, py) implies (after(px, py) <==> (before(px, py) || one(px, py))) by {
                        if after(px, py) {
                            let k = choose|k: int| k < p + 1 && #[trigger] ice_platform(k, dw as int, dh as int, offset as int, px, py);
                            if k < p {
                                assert(before(px, py));
                            }
                        }
                        if before(px, py) {
                            let k = choose|k: int| k < p && #[trigger] ice_platform(k, dw as int, dh as int, offset as int, px, py);
                            assert(ice_platform(k, dw as int, dh as int, offset as int, px, py));
                        }
                        if one(px, py) {
                            assert(ice_platform(p as int, dw as int, dh as int, offset as int, px, py));
                        }
                    }
                    lemma_gains_trans(g0, g1, grid@, before, one, after);
                }
            } else {
                proof {
                    assert forall|px: int, py: int| g0.in_dots(px, py) implies (after(px, py) <==> before(px, py)) by {
                        if after(px, py) {
                            let k = choose|k: int| k < p + 1 && #[trigger] ice_platform(k, dw as int, dh as int, offset as int, px, py);
                            if k < p {
                                assert(before(px, py));
                            }
                        }
                    }
                }
            }
            p = p + 1;
        }
        let ghost g4 = grid@;
        let ghost tower = ice_platforms(dw as int, dh as int, offset as int, count as int);
        let cx = dw / 2;
        let leg = leg_phase % 2;
        let ghost climber = |x: int, y: int| climber_dot(cx as int, climber_y as int, leg as int, dh as int, x, y);
        let ghost c1 = |x: int, y: int| y == climber_y && x == cx;
        let ghost c2 = |x: int, y: int| y == climber_y && (x == cx || x == cx + 1);
        let ghost c3 = |x: int, y: int| c2(x, y) || (climber_y + 1 < dh && y == climber_y + 1 && x == cx);
        let ghost c4 = |x: int, y: int| c2(x, y) || (climber_y + 1 < dh && y == climber_y + 1 && (x == cx || x == cx + 1));
        proof {
            lemma_gains_nothing(g4, |x: int, y: int| false);
        }
        draw::dot(grid, cx, climber_y);
        proof {
            lemma_gains_dot(g4, g4, cx as int, climber_y as int, |x: int, y: int| false, c1);
        }
        let ghost g5 = grid@;
        draw::dot(grid, cx + 1, climber_y);
        proof {
            lemma_gains_dot(g4, g5, cx + 1, climber_y as int, c1, c2);
        }
        if climber_y + 1 < dh {
            let ghost g6 = grid@;
            draw::dot(grid, cx, climber_y + 1);
            proof {
                lemma_gains_dot(g4, g6, cx as int, climber_y + 1, c2, c3);
            }
            let ghost g7 = grid@;
            draw::dot(grid, cx + 1, climber_y + 1);
            proof {
                lemma_gains_dot(g4, g7, cx + 1, climber_y + 1, c3, c4);
            }
        } else {
            proof {
                assert forall|x: int, y: int| g4.in_dots(x, y) implies (c4(x, y) <==> c2(x, y)) by {}
            }
        }
        let ghost g8 = grid@;
        if climber_y + 2 < dh {
            draw::dot(grid, cx + leg, climber_y + 2);
            proof {
                lemma_gains_dot(g4, g8, (cx + leg) as int, climber_y + 2, c4, climber);
            }
        } else {
            proof {
                assert forall|x: int, y: int| g4.in_dots(x, y) implies (climber(x, y) <==> c4(x, y)) by {}
            }
        }
        proof {
            assert(g4.gains_dots(grid@, climber));
            lemma_gains_trans(
                g0,
                g4,
                grid@,
                tower,
                climber,
                |x: int, y: int|
                    (exists|p: int| #[trigger] ice_platform(p, dw as int, dh as int, offset as int, x, y)) || climber(x, y),
            );
        }
    }
}

/// What cell `(x, y)` of a weapon-energy meter `cw x ch` cells shows with
/// `full` segments full and the next at `level` eighths when given: the
/// meter is the leftmost two columns, filled bottom up, its empty segments
/// lightly shaded; the rest of the bar is blank.
pub open spec fn weapon_glyph(cw: int, ch: int, full: int, level: Option<usize>, x: int, y: int) -> char {
    let bar_w = if cw < 2 { cw } else { 2 };
    let seg = ch - 1 - y;
    if x < bar_w {
        if seg < full {
            '█'
        } else if seg == full && level is Some {
            v_block(level->0 as int)
        } else {
            shade_char(1)
        }
    } else {
        shade_char(0)
    }
}

impl MegaManWeapon {
    /// One frame of the weapon-energy meter: `full` segments of the
    /// two-column meter full (tinted `color`), the next at `partial` eighths
    /// when given, the others lightly shaded, the rest of the bar blank.
    pub fn draw(&self, grid: &mut BrailleGrid, full: usize, partial: Option<usize>, color: Color)
        requires
            old(grid)@.wf(),
        ensures
            final(grid)@.wf(),
            final(grid)@.width == old(grid)@.width,
            final(grid)@.height == old(grid)@.height,
            final(grid)@.patterns == old(grid)@.patterns,
            forall|x: int, y: int|
                old(grid)@.in_cells(x, y) ==> #[trigger] final(grid)@.char_at(x, y) == weapon_glyph(
                    old(grid)@.width as int,
                    old(grid)@.height as int,
                    full as int,
                    partial,
                    x,
                    y,
                ),
            forall|x: int, y: int|
                old(grid)@.in_cells(x, y) ==> #[trigger] final(grid)@.color_at(x, y) == (if x < 2 && old(grid)@.height - 1
                    - y < full {
                    Some(color)
                } else {
                    old(grid)@.color_at(x, y)
                }),
    {
        let ghost g0 = grid@;
        let (cw, ch) = grid.dimensions();
        let bar_w = if cw < 2 { cw } else { 2 };
        let mut seg: usize = 0;
        while seg < ch
            invariant
                g0.wf(),
                grid@.wf(),
                cw == g0.width,
                ch == g0.height,
                bar_w == (if cw < 2 { cw } else { 2 }),
                seg <= ch,
                grid@.width == g0.width,
                grid@.height == g0.height,
                grid@.patterns == g0.patterns,
                grid@.colors == g0.colors,
                forall|x: int, y: int|
                    g0.in_cells(x, y) ==> #[trigger] grid@.char_at(x, y) == (if x < bar_w && ch - 1 - y < seg {
                        weapon_glyph(cw as int, ch as int, full as int, partial, x, y)
                    } else {
                        g0.char_at(x, y)
                    }),
            decreases ch - seg,
        {
            let cell_y = ch - 1 - seg;
            let mut cx: usize = 0;
            while cx < bar_w
                invariant
                    g0.wf(),
                    grid@.wf(),
                    cw == g0.width,
                    ch == g0.height,
                    bar_w == (if cw < 2 { cw } else { 2 }),
                    seg < ch,
                    cell_y == ch - 1 - seg,
                    cx <= bar_w,
                    grid@.width == g0.width,
                    grid@.height == g0.height,
                    grid@.patterns == g0.patterns,
                    grid@.colors == g0.colors,
                    forall|x: int, y: int|
                        g0.in_cells(x, y) ==> #[trigger] grid@.char_at(x, y) == (if x < bar_w && (ch - 1 - y < seg || (y
                            == cell_y && x < cx)) {
                            weapon_glyph(cw as int, ch as int, full as int, partial, x, y)
                        } else {
                            g0.char_at(x, y)
                        }),
                decreases bar_w - cx,
            {
                let ghost before = grid@;
                if seg < full {
                    draw::glyph(grid, cx, cell_y, '█');
                } else if seg == full && partial.is_some() {
                    let level = match partial {
                        Some(l) => l,
                        None => 0,
                    };
                    draw::vblock(grid, cx, cell_y, level);
                } else {
                    draw::shade(grid, cx, cell_y, 1);
                }
                proof {
                    assert forall|x: int, y: int| g0.in_cells(x, y) implies #[trigger] grid@.char_at(x, y) == (if x < bar_w && (
                    ch - 1 - y < seg || (y == cell_y && x < cx + 1)) {
                        weapon_glyph(cw as int, ch as int, full as int, partial, x, y)
                    } else {
                        g0.char_at(x, y)
                    }) by {
                        assert(before.in_cells(cx as int, cell_y as int));
                        assert(grid@ == before.with_char(cx as int, cell_y as int, weapon_glyph(cw as int, ch as int, full as int, partial, cx as int, cell_y as int)));
                        lemma_with_char_at(before, cx as int, cell_y as int, weapon_glyph(cw as int, ch as int, full as int, partial, cx as int, cell_y as int), x, y);
                        assert(before.char_at(x, y) == (if x < bar_w && (ch - 1 - y < seg || (y == cell_y && x < cx)) {
                            weapon_glyph(cw as int, ch as int, full as int, partial, x, y)
                        } else {
                            g0.char_at(x, y)
                        }));
                    }
                }
                cx = cx + 1;
            }
            seg = seg + 1;
        }
        let mut cx = bar_w;
        while cx < cw
            invariant
                g0.wf(),
                grid@.wf(),
                cw == g0.width,
                ch == g0.height,
                bar_w == (if cw < 2 { cw } else { 2 }),
                bar_w <= cx <= cw,
                grid@.width == g0.width,
                grid@.height == g0.height,
                grid@.patterns == g0.patterns,
                grid@.colors == g0.colors,
                forall|x: int, y: int|
                    g0.in_cells(x, y) ==> #[trigger] grid@.char_at(x, y) == (if x < cx {
                        weapon_glyph(cw as int, ch as int, full as int, partial, x, y)
                    } else {
                        g0.char_at(x, y)
                    }),
            decreases cw - cx,
        {
            let mut cy: usize = 0;
            while cy < ch
                invariant
                    g0.wf(),
                    grid@.wf(),
                    cw == g0.width,
                    ch == g0.height,
                    bar_w == (if cw < 2 { cw } else { 2 }),
                    bar_w <= cx < cw,
                    cy <= ch,
                    grid@.width == g0.width,
                    grid@.height == g0.height,
                    grid@.patterns == g0.patterns,
                    grid@.colors == g0.colors,
                    forall|x: int, y: int|
                        g0.in_cells(x, y) ==> #[trigger] grid@.char_at(x, y) == (if x < cx || (x == cx && y < cy) {
                            weapon_glyph(cw as int, ch as int, full as int, partial, x, y)
                        } else {
                            g0.char_at(x, y)
                        }),
                decreases ch - cy,
            {
                let ghost before = grid@;
                draw::shade(grid, cx, cy, 0);
                proof {
                    assert forall|x: int, y: int| g0.in_cells(x, y) implies #[trigger] grid@.char_at(x, y) == (if x < cx || (x
                        == cx && y < cy + 1) {
                        weapon_glyph(cw as int, ch as int, full as int, partial, x, y)
                    } else {
                        g0.char_at(x, y)
                    }) by {
                        assert(before.in_cells(cx as int, cy as int));
                        assert(grid@ == before.with_char(cx as int, cy as int, shade_char(0)));
                        lemma_with_char_at(before, cx as int, cy as int, shade_char(0), x, y);
                        assert(before.char_at(x, y) == (if x < cx || (x == cx && y < cy) {
                            weapon_glyph(cw as int, ch as int, full as int, partial, x, y)
                        } else {
                            g0.char_at(x, y)
                        }));
                    }
                }
                cy = cy + 1;
            }
            cx = cx + 1;
        }
        let ghost glyphed = grid@;
        let stop = if full < ch { full } else { ch };
        let mut seg: usize = 0;
        while seg < stop
            invariant
                g0.wf(),
                glyphed.wf(),
                grid@.wf(),
                cw == g0.width,
                ch == g0.height,
                bar_w == (if cw < 2 { cw } else { 2 }),
                stop == (if full < ch { full } else { ch }),
                seg <= stop,
                glyphed.width == g0.width,
                glyphed.height == g0.height,
                glyphed.patterns == g0.patterns,
                glyphed.colors == g0.colors,
                grid@.width == g0.width,
                grid@.height == g0.height,
                grid@.patterns == g0.patterns,
                grid@.characters == glyphed.characters,
                forall|x: int, y: int|
                    g0.in_cells(x, y) ==> #[trigger] grid@.color_at(x, y) == (if x < bar_w && ch - 1 - y < seg {
                        Some(color)
                    } else {
                        g0.color_at(x, y)
                    }),
            decreases stop - seg,
        {
            let ghost before = grid@;
            let cell_y = ch - 1 - seg;
            let x1 = if bar_w >= 1 { bar_w - 1 } else { 0 };
            draw::tint_row(grid, cell_y, 0, x1, color);
            proof {
                assert forall|x: int, y: int| g0.in_cells(x, y) implies #[trigger] grid@.color_at(x, y) == (if x < bar_w && ch
                    - 1 - y < seg + 1 {
                    Some(color)
                } else {
                    g0.color_at(x, y)
                }) by {
                    assert(before.in_cells(x, y));
                }
            }
            seg = seg + 1;
        }
        proof {
            assert forall|x: int, y: int| g0.in_cells(x, y) implies #[trigger] grid@.char_at(x, y) == weapon_glyph(cw as int, ch as int, full as int, partial, x, y) by {
                assert(glyphed.char_at(x, y) == weapon_glyph(cw as int, ch as int, full as int, partial, x, y));
            }
        }
    }
}

/// Dot `(x, y)` of a Mario frame `dw x dh` dots: the ground row; when the
/// run is `finished`, the flagpole at the right with its flag; otherwise
/// Mario's two-dot-wide body `body_h` dots tall (at least one) standing at
/// column `mario_x`; and the first `coins` coins, every fourth column on a
/// row a third of the bar above the ground, behind Mario.
pub open spec fn mario_dot(
    dw: int,
    dh: int,
    mario_x: int,
    finished: bool,
    body_h: int,
    coins: int,
    x: int,
    y: int,
) -> bool {
    let ground = dh - 1;
    let bh = if body_h > 1 { body_h } else { 1 };
    let body_y = if ground > bh { ground - bh } else { 0 };
    let bw = if dw - mario_x < 2 { dw - mario_x } else { 2 };
    let coin_y = if ground > dh / 3 { ground - dh / 3 } else { 0 };
    ||| (y == ground && 0 <= x < dw)
    ||| (finished && x == dw - 2 && 0 <= y <= ground)
    ||| (finished && x == dw - 1 && 0 <= y < (if dh / 3 > 1 { dh / 3 } else { 1 }))
    ||| (!finished && mario_x <= x < mario_x + bw && body_y <= y < body_y + bh)
    ||| (y == coin_y && 0 <= x && x % 4 == 0 && x / 4 < coins && x + 1 < mario_x && x < dw)
}

impl MarioRun {
    /// One frame of Mario's run: the ground, Mario at column `mario_x`
    /// with a body `body_h` dots tall and his feet by the parity of
    /// `stride`, or the flagpole once the run is `finished`, and `coins`
    /// coins collected behind him.
    pub fn draw(
        &self,
        grid: &mut BrailleGrid,
        mario_x: usize,
        finished: bool,
        body_h: usize,
        stride: usize,
        coins: usize,
    )
        requires
            old(grid)@.wf(),
            coins == 0 || 4 * (coins - 1) <= usize::MAX,
        ensures
            old(grid)@.gains_dots(
                final(grid)@,
                |x: int, y: int|
                    mario_dot(
                        old(grid)@.dot_width() as int,
                        old(grid)@.dot_height() as int,
                        mario_x as int,
                        finished,
                        body_h as int,
                        coins as int,
                        x,
                        y,
                    ),
            ),
    {
        let ghost g0 = grid@;
        let (dw, dh) = draw::dot_dims(grid);
        let ghost target = |x: int, y: int| mario_dot(dw as int, dh as int, mario_x as int, finished, body_h as int, coins as int, x, y);
        let ground_y = dh - 1;
        draw::hline(grid, 0, dw - 1, ground_y);
        let ghost g1 = grid@;
        let ghost ground = |x: int, y: int| y == ground_y && (if 0 <= dw - 1 { 0 <= x <= dw - 1 } else { dw - 1 <= x <= 0 });
        let ghost figure = |x: int, y: int| ground(x, y) || (finished && x == dw - 2 && 0 <= y <= ground_y) || (finished && x == dw - 1 && 0 <= y < (if dh / 3 > 1 { dh / 3 } else { 1 })) || (!finished && {
            let bh = if body_h > 1 { body_h as int } else { 1 };
            let body_y = if ground_y > bh { ground_y - bh } else { 0 };
            let bw = if dw - mario_x < 2 { dw - mario_x } else { 2 };
            mario_x <= x < mario_x + bw && body_y <= y < body_y + bh
        });
        if finished {
            let pole_x = dw - 2;
            draw::vline(grid, pole_x, 0, ground_y);
            let ghost g2 = grid@;
            let fh = if dh / 3 > 1 { dh / 3 } else { 1 };
            draw::fill_rect(grid, pole_x + 1, 0, 1, fh);
            let ghost g3 = grid@;
            draw::dot(grid, pole_x, ground_y);
            let ghost g4 = grid@;
            proof {
                let pole = |x: int, y: int| x == pole_x && (if 0 <= ground_y { 0 <= y <= ground_y } else { ground_y <= y <= 0 });
                let flag = |x: int, y: int| pole_x + 1 <= x < pole_x + 2 && 0 <= y < fh;
                lemma_gains_trans(g0, g1, g2, ground, pole, |x: int, y: int| ground(x, y) || pole(x, y));
                lemma_gains_trans(g0, g2, g3, |x: int, y: int| ground(x, y) || pole(x, y), flag, figure);
                lemma_gains_dot(g0, g3, pole_x as int, ground_y as int, figure, figure);
            }
            if pole_x > 0 {
                draw::dot(grid, pole_x - 1, ground_y);
                proof {
                    lemma_gains_dot(g0, g4, pole_x - 1, ground_y as int, figure, figure);
                }
            }
        } else {
            let bh = if body_h > 1 { body_h } else { 1 };
            let body_y = if ground_y > bh { ground_y - bh } else { 0 };
            let rest = if mario_x < dw { dw - mario_x } else { 0 };
            let bw = if rest < 2 { rest } else { 2 };
            draw::fill_rect(grid, mario_x, body_y, bw, bh);
            let ghost g2 = grid@;
            proof {
                let body = |x: int, y: int| mario_x <= x < mario_x + bw && body_y <= y < body_y + bh;
                lemma_gains_trans(g0, g1, g2, ground, body, figure);
            }
            let step = stride % 2;
            let lx = mario_x + if mario_x < dw { step } else { 0 };
            let fx = if lx < dw - 1 { lx } else { dw - 1 };
            draw::dot(grid, fx, ground_y);
            proof {
                lemma_gains_dot(g0, g2, fx as int, ground_y as int, figure, figure);
            }
            if mario_x < dw - 1 {
                let ghost g3 = grid@;
                let rx = if mario_x + 1 >= step { mario_x + 1 - step } else { 0 };
                draw::dot(grid, rx, ground_y);
                proof {
                    lemma_gains_dot(g0, g3, rx as int, ground_y as int, figure, figure);
                }
            }
        }
        let coin_y = if ground_y > dh / 3 { ground_y - dh / 3 } else { 0 };
        let mut i: usize = 0;
        while i < coins
            invariant
                g0.wf(),
                dw == g0.dot_width(),
                dh == g0.dot_height(),
                ground_y == dh - 1,
                coin_y == (if ground_y > dh / 3 { ground_y - dh / 3 } else { 0 }),
                coins == 0 || 4 * (coins - 1) <= usize::MAX,
                i <= coins,
                g0.gains_dots(
                    grid@,
                    |x: int, y: int| figure(x, y) || (y == coin_y && 0 <= x && x % 4 == 0 && x / 4 < i && x + 1 < mario_x && x < dw),
                ),
            decreases coins - i,
        {
            let cx = i * 4;
            let ghost before = |x: int, y: int| figure(x, y) || (y == coin_y && 0 <= x && x % 4 == 0 && x / 4 < i && x + 1 < mario_x && x < dw);
            let ghost after = |x: int, y: int| figure(x, y) || (y == coin_y && 0 <= x && x % 4 == 0 && x / 4 < i + 1 && x + 1 < mario_x && x < dw);
            let ghost g5 = grid@;
            if cx + 1 < mario_x && cx < dw {
                draw::dot(grid, cx, coin_y);
                proof {
                    lemma_gains_dot(g0, g5, cx as int, coin_y as int, before, after);
                }
            } else {
                proof {
                    assert forall|x: int, y: int| g0.in_dots(x, y) implies (after(x, y) <==> before(x, y)) by {
                        if y == coin_y && 0 <= x && x % 4 == 0 && x / 4 == i {
                            assert(x == cx);
                        }
                    }
                }
            }
            i = i + 1;
        }
        proof {
            assert forall|x: int, y: int| g0.in_dots(x, y) implies (#[trigger] grid@.is_lit(x, y) <==> (g0.is_lit(x, y)
                || target(x, y))) by {
                assert(grid@.is_lit(x, y) <==> (g0.is_lit(x, y) || figure(x, y) || (y == coin_y && 0 <= x && x % 4 == 0 && x / 4
                    < i && x + 1 < mario_x && x < dw)));
            }
        }
    }
}

/// What cell `(x, y)` of a Punch-Out power meter shows with `filled`
/// columns full: full columns show a full block, or in star power a pulsing
/// dense shade by the parity of their phase; the rest a light shade.
pub open spec fn punch_glyph(filled: int, star: bool, phases: Seq<usize>, x: int) -> char {
    if x < filled {
        if star {
            if phases[x] % 2 == 0 {
                shade_char(4)
            } else {
                shade_char(3)
            }
        } else {
            v_block(8)
        }
    } else {
        shade_char(1)
    }
}

/// Tint of the Punch-Out meter: pale gold in star power, gold otherwise.
pub open spec fn punch_color(star: bool) -> Color {
    if star {
        Color { r: 255, g: 255, b: 180 }
    } else {
        Color { r: 255, g: 220, b: 0 }
    }
}

impl PunchOutStars {
    /// One frame of the power meter: the first `filled` columns full (in
    /// `star` power pulsing by the parity of each column's phase), the rest
    /// lightly shaded, and the full span tinted (at least its first column).
    pub fn draw(&self, grid: &mut BrailleGrid, filled: usize, star: bool, phases: &Vec<usize>)
        requires
            old(grid)@.wf(),
            star ==> phases.len() >= old(grid)@.width,
        ensures
            final(grid)@.wf(),
            final(grid)@.width == old(grid)@.width,
            final(grid)@.height == old(grid)@.height,
            final(grid)@.patterns == old(grid)@.patterns,
            forall|x: int, y: int|
                old(grid)@.in_cells(x, y) ==> #[trigger] final(grid)@.char_at(x, y) == punch_glyph(
                    filled as int,
                    star,
                    phases@,
                    x,
                ),
            forall|x: int, y: int|
                old(grid)@.in_cells(x, y) ==> #[trigger] final(grid)@.color_at(x, y) == (if x + 1 <= (if filled
                    < old(grid)@.width { filled as int } else { old(grid)@.width as int }) || x == 0 {
                    Some(punch_color(star))
                } else {
                    old(grid)@.color_at(x, y)
                }),
    {
        let ghost g0 = grid@;
        let (cw, ch) = grid.dimensions();
        let mut cx: usize = 0;
        while cx < cw
            invariant
                g0.wf(),
                grid@.wf(),
                cw == g0.width,
                ch == g0.height,
                star ==> phases.len() >= cw,
                cx <= cw,
                grid@.width == g0.width,
                grid@.height == g0.height,
                grid@.patterns == g0.patterns,
                grid@.colors == g0.colors,
                forall|x: int, y: int|
                    g0.in_cells(x, y) ==> #[trigger] grid@.char_at(x, y) == (if x < cx {
                        punch_glyph(filled as int, star, phases@, x)
                    } else {
                        g0.char_at(x, y)
                    }),
            decreases cw - cx,
        {
            let mut cy: usize = 0;
            while cy < ch
                invariant
                    g0.wf(),
                    grid@.wf(),
                    cw == g0.width,
                    ch == g0.height,
                    star ==> phases.len() >= cw,
                    cx < cw,
                    cy <= ch,
                    grid@.width == g0.width,
                    grid@.height == g0.height,
                    grid@.patterns == g0.patterns,
                    grid@.colors == g0.colors,
                    forall|x: int, y: int|
                        g0.in_cells(x, y) ==> #[trigger] grid@.char_at(x, y) == (if x < cx || (x == cx && y < cy) {
                            punch_glyph(filled as int, star, phases@, x)
                        } else {
                            g0.char_at(x, y)
                        }),
                decreases ch - cy,
            {
                let ghost before = grid@;
                if cx < filled {
                    if star {
                        let lvl = if phases[cx] % 2 == 0 { 4 } else { 3 };
                        draw::shade(grid, cx, cy, lvl);
                    } else {
                        draw::vblock(grid, cx, cy, 8);
                    }
                } else {
                    draw::shade(grid, cx, cy, 1);
                }
                proof {
                    assert forall|x: int, y: int| g0.in_cells(x, y) implies #[trigger] grid@.char_at(x, y) == (if x < cx || (x
                        == cx && y < cy + 1) {
                        punch_glyph(filled as int, star, phases@, x)
                    } else {
                        g0.char_at(x, y)
                    }) by {
                        assert(before.in_cells(cx as int, cy as int));
                        lemma_with_char_at(before, cx as int, cy as int, punch_glyph(filled as int, star, phases@, cx as int), x, y);
                        assert(before.char_at(x, y) == (if x < cx || (x == cx && y < cy) {
                            punch_glyph(filled as int, star, phases@, x)
                        } else {
                            g0.char_at(x, y)
                        }));
                    }
                }
                cy = cy + 1;
            }
            cx = cx + 1;
        }
        let ghost glyphed = grid@;
        let color = if star { Color::rgb(255, 255, 180) } else { Color::rgb(255, 220, 0) };
        let f = if filled < cw { filled } else { cw };
        let x1 = if f >= 1 { f - 1 } else { 0 };
        let mut cy: usize = 0;
        while cy < ch
            invariant
                g0.wf(),
                glyphed.wf(),
                grid@.wf(),
                cw == g0.width,
                ch == g0.height,
                glyphed.width == g0.width,
                glyphed.height == g0.height,
                glyphed.patterns == g0.patterns,
                glyphed.colors == g0.colors,
                color == punch_color(star),
                f == (if filled < cw { filled } else { cw }),
                x1 == (if f >= 1 { f - 1 } else { 0 }),
                cy <= ch,
                grid@.width == g0.width,
                grid@.height == g0.height,
                grid@.patterns == g0.patterns,
                grid@.characters == glyphed.characters,
                forall|x: int, y: int|
                    g0.in_cells(x, y) ==> #[trigger] grid@.color_at(x, y) == (if y < cy && x <= x1 {
                        Some(color)
                    } else {
                        g0.color_at(x, y)
                    }),
            decreases ch - cy,
        {
            let ghost before = grid@;
            draw::tint_row(grid, cy, 0, x1, color);
            proof {
                assert forall|x: int, y: int| g0.in_cells(x, y) implies #[trigger] grid@.color_at(x, y) == (if y < cy + 1 && x
                    <= x1 {
                    Some(color)
                } else {
                    g0.color_at(x, y)
                }) by {
                    assert(before.in_cells(x, y));
                }
            }
            cy = cy + 1;
        }
        proof {
            assert forall|x: int, y: int| g0.in_cells(x, y) implies #[trigger] grid@.char_at(x, y) == punch_glyph(
                filled as int,
                star,
                phases@,
                x,
            ) by {
                assert(glyphed.char_at(x, y) == punch_glyph(filled as int, star, phases@, x));
            }
        }
    }
}

/// Dot `(x, y)` of the Excitebike track `dw x dh` dots with the bike at
/// column `bx`: the ground row; the rear wheel at the bike's column and the
/// front wheel three columns back, on the row above the ground; the frame
/// rising diagonally up-left from the rear wheel for three dots; and the
/// rider three rows above the rear wheel.
pub open spec fn excite_dot(dw: int, dh: int, bx: int, x: int, y: int) -> bool {
    let wheel = dh - 2;
    ||| (y == dh - 1 && 0 <= x < dw)
    ||| (y == wheel && (x == bx || (bx >= 3 && x == bx - 3)))
    ||| (0 <= bx - x < 3 && bx - x == wheel - y)
    ||| (wheel >= 3 && x == bx && y == wheel - 3)
}

/// Red of an overheated engine gauge.
pub open spec fn overheat_color() -> Color {
    Color { r: 255, g: 40, b: 0 }
}

/// Yellow of a warm engine gauge.
pub open spec fn warm_color() -> Color {
    Color { r: 255, g: 200, b: 0 }
}

impl Excitebike {
    /// One frame of the Excitebike track: the ground and the bike at column
    /// `bike_x`; and, on a bar at least two cells tall, the engine gauge on
    /// the second row from the bottom: `heat_cells` cells shaded (dense
    /// when `overheat`) and tinted yellow up to the heat, or the whole row
    /// red when overheated.
    pub fn draw(&self, grid: &mut BrailleGrid, bike_x: usize, heat_cells: usize, overheat: bool)
        requires
            old(grid)@.wf(),
            bike_x < old(grid)@.dot_width(),
        ensures
            final(grid)@.wf(),
            old(grid)@.gains_dots(
                (GridView { characters: old(grid)@.characters, colors: old(grid)@.colors, ..final(grid)@ }),
                |x: int, y: int| excite_dot(old(grid)@.dot_width() as int, old(grid)@.dot_height() as int, bike_x as int, x, y),
            ),
            final(grid)@.characters.len() == old(grid)@.characters.len(),
            final(grid)@.colors.len() == old(grid)@.colors.len(),
            forall|x: int, y: int|
                old(grid)@.in_cells(x, y) ==> #[trigger] final(grid)@.characters[old(grid)@.cell_index(x, y)] == (if old(
                    grid,
                )@.height >= 2 && y == old(grid)@.height - 2 && x < heat_cells {
                    Some(shade_char(if overheat { 4int } else { 2int }))
                } else {
                    old(grid)@.characters[old(grid)@.cell_index(x, y)]
                }),
            forall|x: int, y: int|
                old(grid)@.in_cells(x, y) ==> #[trigger] final(grid)@.color_at(x, y) == (if old(grid)@.height >= 2 && y
                    == old(grid)@.height - 2 && (overheat || x <= heat_cells) {
                    Some(if overheat { overheat_color() } else { warm_color() })
                } else {
                    old(grid)@.color_at(x, y)
                }),
    {
        let ghost g0 = grid@;
        let (dw, dh) = draw::dot_dims(grid);
        let (cw, ch) = grid.dimensions();
        let ghost bike = |x: int, y: int| excite_dot(dw as int, dh as int, bike_x as int, x, y);
        draw::hline(grid, 0, dw - 1, dh - 1);
        let ghost g1 = grid@;
        let wheel_y = dh - 2;
        let ghost s1 = |x: int, y: int| y == dh - 1 && (if 0 <= dw - 1 { 0 <= x <= dw - 1 } else { dw - 1 <= x <= 0 });
        let ghost s2 = |x: int, y: int| s1(x, y) || (x == bike_x && y == wheel_y);
        let ghost s3 = |x: int, y: int| s2(x, y) || (bike_x >= 3 && x == bike_x - 3 && y == wheel_y);
        draw::dot(grid, bike_x, wheel_y);
        proof {
            lemma_gains_dot(g0, g1, bike_x as int, wheel_y as int, s1, s2);
        }
        let ghost g2 = grid@;
        if bike_x >= 3 {
            draw::dot(grid, bike_x - 3, wheel_y);
            proof {
                lemma_gains_dot(g0, g2, bike_x - 3, wheel_y as int, s2, s3);
            }
        } else {
            proof {
                assert forall|x: int, y: int| g0.in_dots(x, y) implies (s3(x, y) <==> s2(x, y)) by {}
            }
        }
        let mut i: usize = 0;
        while i < 3
            invariant
                g0.wf(),
                dw == g0.dot_width(),
                dh == g0.dot_height(),
                wheel_y == dh - 2,
                bike_x < dw,
                i <= 3,
                g0.gains_dots(grid@, |x: int, y: int| s3(x, y) || (0 <= bike_x - x < i && bike_x - x == wheel_y - y)),
            decreases 3 - i,
        {
            let ghost g3 = grid@;
            let ghost before = |x: int, y: int| s3(x, y) || (0 <= bike_x - x < i && bike_x - x == wheel_y - y);
            let ghost after = |x: int, y: int| s3(x, y) || (0 <= bike_x - x < i + 1 && bike_x - x == wheel_y - y);
            if bike_x >= i && wheel_y >= i {
                draw::dot(grid, bike_x - i, wheel_y - i);
                proof {
                    lemma_gains_dot(g0, g3, bike_x - i, wheel_y - i, before, after);
                }
            } else {
                proof {
                    assert forall|x: int, y: int| g0.in_dots(x, y) implies (after(x, y) <==> before(x, y)) by {}
                }
            }
            i = i + 1;
        }
        let ghost g4 = grid@;
        let ghost s4 = |x: int, y: int| s3(x, y) || (0 <= bike_x - x < 3 && bike_x - x == wheel_y - y);
        if wheel_y >= 3 {
            draw::dot(grid, bike_x, wheel_y - 3);
            proof {
                lemma_gains_dot(g0, g4, bike_x as int, wheel_y - 3, s4, bike);
            }
        } else {
            proof {
                lemma_gains_same(g0, grid@, s4, bike);
            }
        }
        let ghost drawn = grid@;
        if ch >= 2 {
            let row = ch - 2;
            let stop = if heat_cells < cw { heat_cells } else { cw };
            let level: usize = if overheat { 4 } else { 2 };
            let mut cx: usize = 0;
            while cx < stop
                invariant
                    g0.wf(),
                    drawn.wf(),
                    grid@.wf(),
                    cw == g0.width,
                    ch == g0.height,
                    ch >= 2,
                    row == ch - 2,
                    stop == (if heat_cells < cw { heat_cells } else { cw }),
                    level == (if overheat { 4usize } else { 2usize }),
                    cx <= stop,
                    drawn.width == g0.width,
                    drawn.height == g0.height,
                    drawn.characters == g0.characters,
                    drawn.colors == g0.colors,
                    grid@.width == g0.width,
                    grid@.height == g0.height,
                    grid@.patterns == drawn.patterns,
                    grid@.colors == g0.colors,
                    forall|x: int, y: int|
                        g0.in_cells(x, y) ==> #[trigger] grid@.characters[g0.cell_index(x, y)] == (if y == row && x < cx {
                            Some(shade_char(level as int))
                        } else {
                            g0.characters[g0.cell_index(x, y)]
                        }),
                decreases stop - cx,
            {
                let ghost before = grid@;
                draw::shade(grid, cx, row, level);
                proof {
                    assert forall|x: int, y: int| g0.in_cells(x, y) implies #[trigger] grid@.characters[g0.cell_index(x, y)] == (if y
                        == row && x < cx + 1 {
                        Some(shade_char(level as int))
                    } else {
                        g0.characters[g0.cell_index(x, y)]
                    }) by {
                        lemma_with_char_glyph(before, cx as int, row as int, shade_char(level as int), x, y);
                    }
                }
                cx = cx + 1;
            }
            let ghost shaded = grid@;
            if overheat {
                draw::tint_row(grid, row, 0, cw - 1, Color::rgb(255, 40, 0));
            } else {
                let hi = if heat_cells < cw - 1 { heat_cells } else { cw - 1 };
                draw::tint_row(grid, row, 0, hi, Color::rgb(255, 200, 0));
            }
            proof {
                assert forall|x: int, y: int| g0.in_cells(x, y) implies #[trigger] grid@.characters[g0.cell_index(x, y)] == (if g0.height
                    >= 2 && y == g0.height - 2 && x < heat_cells {
                    Some(shade_char(if overheat { 4int } else { 2int }))
                } else {
                    g0.characters[g0.cell_index(x, y)]
                }) by {
                    assert(shaded.characters[g0.cell_index(x, y)] == (if y == row && x < cx {
                        Some(shade_char(level as int))
                    } else {
                        g0.characters[g0.cell_index(x, y)]
                    }));
                }
                assert forall|x: int, y: int| g0.in_cells(x, y) implies #[trigger] grid@.color_at(x, y) == (if g0.height >= 2 && y
                    == g0.height - 2 && (overheat || x <= heat_cells) {
                    Some(if overheat { overheat_color() } else { warm_color() })
                } else {
                    g0.color_at(x, y)
                }) by {
                    assert(shaded.in_cells(x, y));
                    assert(shaded.color_at(x, y) == g0.color_at(x, y));
                }
                assert((GridView { characters: g0.characters, colors: g0.colors, ..grid@ }) == drawn);
            }
        } else {
            proof {
                assert((GridView { characters: g0.characters, colors: g0.colors, ..grid@ }) == drawn);
            }
        }
    }
}

/// Number of girders on a bar `dh` dots tall: a third of the height, from
/// 1 to 4.
pub open spec fn girder_count(dh: int) -> int {
    let n = if dh / 3 > 1 { dh / 3 } else { 1 };
    if n < 4 {
        n
    } else {
        4
    }
}

/// Row of girder `g` (counting up from the bottom): the girders split the
/// height evenly.
pub open spec fn girder_row(g: int, dh: int) -> int {
    let gap = dh / (girder_count(dh) + 1);
    if dh - 1 > (g + 1) * gap {
        dh - 1 - (g + 1) * gap
    } else {
        0
    }
}

/// Dot `(x, y)` of the barrel rolling on girder row `gy` at column `bx`,
/// turned by the parity of `roll`: a body across the two columns above the
/// girder, a dot left of it on the girder, and a rolling side dot.
pub open spec fn barrel_dot(bx: int, roll: int, gy: int, dw: int, x: int, y: int) -> bool {
    let by = gy - 1;
    let left = if bx >= 1 { bx - 1 } else { 0 };
    let side = if roll % 2 == 0 { left } else if bx + 2 < dw - 1 { bx + 2 } else { dw - 1 };
    &&& bx < dw
    &&& gy >= 1
    &&& {
        ||| (y == by && (x == bx || (bx + 1 < dw && x == bx + 1)))
        ||| (y == gy && x == left)
        ||| (by >= 1 && y == by && x == side)
    }
}

/// Dot `(x, y)` of a Donkey Kong frame `dw x dh` dots: the girders, the
/// ladder at the left (rails at columns 0 and 2 every third row, a pole at
/// column 1), one barrel per girder from `barrels` (column and roll), and
/// Mario's 2x2 body on the ladder at row `mario_y`.
pub open spec fn donkey_dot(dw: int, dh: int, barrels: Seq<(usize, usize)>, mario_y: int, x: int, y: int) -> bool {
    ||| (exists|g: int| 0 <= g < girder_count(dh) && y == #[trigger] girder_row(g, dh) && 0 <= x <= dw - 1)
    ||| (x == 1 && 0 <= y <= dh - 1)
    ||| ((x == 0 || x == 2) && 0 <= y < dh && y % 3 == 0)
    ||| (exists|g: int|
        0 <= g < girder_count(dh) && #[trigger] barrel_dot(
            barrels[g].0 as int,
            barrels[g].1 as int,
            girder_row(g, dh),
            dw,
            x,
            y,
        ))
    ||| ((x == 1 || x == 2) && (y == mario_y || (mario_y + 1 < dh && y == mario_y + 1)))
}

proof fn lemma_girder_row_bounds(g: int, dh: int)
    requires
        dh >= 4,
        0 <= g < girder_count(dh),
    ensures
        0 <= (g + 1) * (dh / (girder_count(dh) + 1)) <= dh,
        0 <= girder_row(g, dh) < dh,
{
    let n = girder_count(dh);
    let gap = dh / (n + 1);
    assert(0 <= (g + 1) * gap <= n * gap) by (nonlinear_arith)
        requires
            0 <= g < n,
            gap >= 0,
    ;
    assert(n * gap <= dh) by (nonlinear_arith)
        requires
            gap == dh / (n + 1),
            n >= 1,
            dh >= 0,
    ;
}

impl DonkeyBarrel {
    /// One frame of the girder climb: the girders, the ladder, the barrel
    /// of each girder at its column with its roll, and Mario on the ladder
    /// at row `mario_y`.
    #[verifier::rlimit(30)]
    pub fn draw(&self, grid: &mut BrailleGrid, barrels: &Vec<(usize, usize)>, mario_y: usize)
        requires
            old(grid)@.wf(),
            barrels.len() >= girder_count(old(grid)@.dot_height() as int),
            mario_y + 1 <= usize::MAX,
        ensures
            old(grid)@.gains_dots(
                final(grid)@,
                |x: int, y: int|
                    donkey_dot(
                        old(grid)@.dot_width() as int,
                        old(grid)@.dot_height() as int,
                        barrels@,
                        mario_y as int,
                        x,
                        y,
                    ),
            ),
    {
        let ghost g0 = grid@;
        let (dw, dh) = draw::dot_dims(grid);
        let ghost dhi = dh as int;
        let n0 = if dh / 3 > 1 { dh / 3 } else { 1 };
        let n = if n0 < 4 { n0 } else { 4 };
        let gap = dh / (n + 1);
        proof {
            lemma_gains_nothing(g0, |x: int, y: int| false);
        }
        let mut g: usize = 0;
        while g < n
            invariant
                g0.wf(),
                dw == g0.dot_width(),
                dh == g0.dot_height(),
                dhi == dh,
                dh >= 4,
                n == girder_count(dhi),
                gap as int == dhi / (n as int + 1),
                g <= n,
                g0.gains_dots(
                    grid@,
                    |x: int, y: int| (exists|k: int| 0 <= k < g && y == #[trigger] girder_row(k, dhi)) && 0 <= x <= dw - 1,
                ),
            decreases n - g,
        {
            proof {
                lemma_girder_row_bounds(g as int, dhi);
            }
            let off = (g + 1) * gap;
            let gy = if dh - 1 > off { dh - 1 - off } else { 0 };
            let ghost g1 = grid@;
            draw::hline(grid, 0, dw - 1, gy);
            proof {
                let before = |x: int, y: int| (exists|k: int| 0 <= k < g && y == #[trigger] girder_row(k, dhi)) && 0 <= x <= dw - 1;
                let after = |x: int, y: int| (exists|k: int| 0 <= k < g + 1 && y == #[trigger] girder_row(k, dhi)) && 0 <= x <= dw - 1;
                let seg = |px: int, py: int| py == gy && (if 0 <= dw - 1 { 0 <= px <= dw - 1 } else { dw - 1 <= px <= 0 });
                assert(gy == girder_row(g as int, dhi));
                assert forall|px: int, py: int| g0.in_dots(px, py) implies (after(px, py) <==> (before(px, py) || seg(px, py))) by {
                    if after(px, py) {
                        let k = choose|k: int| 0 <= k < g + 1 && py == #[trigger] girder_row(k, dhi);
                        if k < g {
                            assert(before(px, py));
                        }
                    }
                }
                lemma_gains_trans(g0, g1, grid@, before, seg, after);
            }
            g = g + 1;
        }
        let ghost girders = |x: int, y: int| (exists|k: int| 0 <= k < girder_count(dhi) && y == #[trigger] girder_row(k, dhi)) && 0 <= x <= dw - 1;
        let ghost g2 = grid@;
        draw::vline(grid, 1, 0, dh - 1);
        let ghost pole = |x: int, y: int| x == 1 && (if 0 <= dh - 1 { 0 <= y <= dh - 1 } else { dh - 1 <= y <= 0 });
        let ghost frame = |x: int, y: int| girders(x, y) || pole(x, y);
        proof {
            lemma_gains_trans(g0, g2, grid@, girders, pole, frame);
        }
        let mut ry: usize = 0;
        while ry < dh
            invariant
                g0.wf(),
                dh == g0.dot_height(),
                dhi == dh,
                ry % 3 == 0,
                ry <= dh + 2,
                g0.gains_dots(grid@, |x: int, y: int| frame(x, y) || ((x == 0 || x == 2) && 0 <= y < ry && y % 3 == 0)),
            decreases dh + 2 - ry,
        {
            let ghost g3 = grid@;
            let ghost before = |x: int, y: int| frame(x, y) || ((x == 0 || x == 2) && 0 <= y < ry && y % 3 == 0);
            let ghost mid = |x: int, y: int| before(x, y) || (x == 0 && y == ry);
            let ghost after = |x: int, y: int| frame(x, y) || ((x == 0 || x == 2) && 0 <= y < ry + 3 && y % 3 == 0);
            draw::dot(grid, 0, ry);
            proof {
                lemma_gains_dot(g0, g3, 0, ry as int, before, mid);
            }
            let ghost g4 = grid@;
            draw::dot(grid, 2, ry);
            proof {
                lemma_gains_dot(g0, g4, 2, ry as int, mid, after);
            }
            ry = ry + 3;
        }
        let ghost ladder = |x: int, y: int| frame(x, y) || ((x == 0 || x == 2) && 0 <= y < dh && y % 3 == 0);
        proof {
            lemma_gains_same(g0, grid@, |x: int, y: int| frame(x, y) || ((x == 0 || x == 2) && 0 <= y < ry && y % 3 == 0), ladder);
        }
        let mut g: usize = 0;
        while g < n
            invariant
                g0.wf(),
                dw == g0.dot_width(),
                dh == g0.dot_height(),
                dhi == dh,
                dh >= 4,
                dw < usize::MAX,
                n == girder_count(dhi),
                gap as int == dhi / (n as int + 1),
                barrels.len() >= n,
                g <= n,
                g0.gains_dots(
                    grid@,
                    |x: int, y: int| ladder(x, y) || (exists|k: int| 0 <= k < g && #[trigger] barrel_dot(
                        barrels@[k].0 as int,
                        barrels@[k].1 as int,
                        girder_row(k, dhi),
                        dw as int,
                        x,
                        y,
                    )),
                ),
            decreases n - g,
        {
            proof {
                lemma_girder_row_bounds(g as int, dhi);
            }
            let ghost before = |x: int, y: int| ladder(x, y) || (exists|k: int| 0 <= k < g && #[trigger] barrel_dot(
                barrels@[k].0 as int,
                barrels@[k].1 as int,
                girder_row(k, dhi),
                dw as int,
                x,
                y,
            ));
            let ghost after = |x: int, y: int| ladder(x, y) || (exists|k: int| 0 <= k < g + 1 && #[trigger] barrel_dot(
                barrels@[k].0 as int,
                barrels@[k].1 as int,
                girder_row(k, dhi),
                dw as int,
                x,
                y,
            ));
            let off = (g + 1) * gap;
            let gy = if dh - 1 > off { dh - 1 - off } else { 0 };
            let (bx, roll) = barrels[g];
            let ghost one = |x: int, y: int| barrel_dot(bx as int, roll as int, gy as int, dw as int, x, y);
            let ghost g5 = grid@;
            if bx < dw && gy >= 1 {
                let left = if bx >= 1 { bx - 1 } else { 0 };
                let barrel_y = gy - 1;
                let ghost t1 = |x: int, y: int| before(x, y) || (x == bx && y == barrel_y);
                let ghost t2 = |x: int, y: int| t1(x, y) || (x == left && y == gy);
                let ghost t3 = |x: int, y: int| t2(x, y) || (bx + 1 < dw && x == bx + 1 && y == barrel_y);
                draw::dot(grid, bx, gy - 1);
                proof {
                    lemma_gains_dot(g0, g5, bx as int, barrel_y as int, before, t1);
                }
                let ghost g6 = grid@;
                draw::dot(grid, left, gy);
                proof {
                    lemma_gains_dot(g0, g6, left as int, gy as int, t1, t2);
                }
                let ghost g7 = grid@;
                draw::dot(grid, bx, barrel_y);
                proof {
                    lemma_gains_dot(g0, g7, bx as int, barrel_y as int, t2, t2);
                }
                let ghost g8 = grid@;
                if bx + 1 < dw {
                    draw::dot(grid, bx + 1, barrel_y);
                    proof {
                        lemma_gains_dot(g0, g8, bx + 1, barrel_y as int, t2, t3);
                    }
                } else {
                    proof {
                        lemma_gains_same(g0, grid@, t2, t3);
                    }
                }
                let side = if roll % 2 == 0 { left } else if bx + 2 < dw - 1 { bx + 2 } else { dw - 1 };
                let ghost g9 = grid@;
                let ghost t4 = |x: int, y: int| t3(x, y) || (barrel_y >= 1 && x == side && y == barrel_y);
                if barrel_y >= 1 {
                    draw::dot(grid, side, barrel_y);
                    proof {
                        lemma_gains_dot(g0, g9, side as int, barrel_y as int, t3, t4);
                    }
                } else {
                    proof {
                        lemma_gains_same(g0, grid@, t3, t4);
                    }
                }
                proof {
                    assert(gy == girder_row(g as int, dhi));
                    assert forall|x: int, y: int| g0.in_dots(x, y) implies (t4(x, y) <==> after(x, y)) by {
                        if after(x, y) && !before(x, y) {
                            let k = choose|k: int| 0 <= k < g + 1 && #[trigger] barrel_dot(
                                barrels@[k].0 as int,
                                barrels@[k].1 as int,
                                girder_row(k, dhi),
                                dw as int,
                                x,
                                y,
                            );
                            if k < g {
                                assert(before(x, y));
                            }
                        }
                        if t4(x, y) && !before(x, y) {
                            assert(barrel_dot(
                                barrels@[g as int].0 as int,
                                barrels@[g as int].1 as int,
                                girder_row(g as int, dhi),
                                dw as int,
                                x,
                                y,
                            ));
                        }
                        if before(x, y) && !ladder(x, y) {
                            let k = choose|k: int| 0 <= k < g && #[trigger] barrel_dot(
                                barrels@[k].0 as int,
                                barrels@[k].1 as int,
                                girder_row(k, dhi),
                                dw as int,
                                x,
                                y,
                            );
                            assert(after(x, y));
                        }
                    }
                    lemma_gains_same(g0, grid@, t4, after);
                }
            } else {
                proof {
                    assert(gy == girder_row(g as int, dhi));
                    assert forall|x: int, y: int| g0.in_dots(x, y) implies (before(x, y) <==> after(x, y)) by {
                        if after(x, y) && !ladder(x, y) {
                            let k = choose|k: int| 0 <= k < g + 1 && #[trigger] barrel_dot(
                                barrels@[k].0 as int,
                                barrels@[k].1 as int,
                                girder_row(k, dhi),
                                dw as int,
                                x,
                                y,
                            );
                            if k < g {
                                assert(before(x, y));
                            }
                        }
                        if before(x, y) && !ladder(x, y) {
                            let k = choose|k: int| 0 <= k < g && #[trigger] barrel_dot(
                                barrels@[k].0 as int,
                                barrels@[k].1 as int,
                                girder_row(k, dhi),
                                dw as int,
                                x,
                                y,
                            );
                            assert(after(x, y));
                        }
                    }
                    lemma_gains_same(g0, grid@, before, after);
                }
            }
            g = g + 1;
        }
        let ghost rolled = |x: int, y: int| ladder(x, y) || (exists|k: int| 0 <= k < n && #[trigger] barrel_dot(
            barrels@[k].0 as int,
            barrels@[k].1 as int,
            girder_row(k, dhi),
            dw as int,
            x,
            y,
        ));
        let ghost g10 = grid@;
        let ghost m1 = |x: int, y: int| rolled(x, y) || (x == 1 && y == mario_y);
        let ghost m2 = |x: int, y: int| rolled(x, y) || ((x == 1 || x == 2) && y == mario_y);
        let ghost m3 = |x: int, y: int| m2(x, y) || (mario_y + 1 < dh && x == 1 && y == mario_y + 1);
        let ghost m4 = |x: int, y: int| m2(x, y) || (mario_y + 1 < dh && (x == 1 || x == 2) && y == mario_y + 1);
        draw::dot(grid, 1, mario_y);
        proof {
            lemma_gains_dot(g0, g10, 1, mario_y as int, rolled, m1);
        }
        let ghost g11 = grid@;
        draw::dot(grid, 2, mario_y);
        proof {
            lemma_gains_dot(g0, g11, 2, mario_y as int, m1, m2);
        }
        if mario_y + 1 < dh {
            let ghost g12 = grid@;
            draw::dot(grid, 1, mario_y + 1);
            proof {
                lemma_gains_dot(g0, g12, 1, mario_y + 1, m2, m3);
            }
            let ghost g13 = grid@;
            draw::dot(grid, 2, mario_y + 1);
            proof {
                lemma_gains_dot(g0, g13, 2, mario_y + 1, m3, m4);
            }
        } else {
            proof {
                lemma_gains_same(g0, grid@, m2, m4);
            }
        }
        proof {
            assert forall|x: int, y: int| g0.in_dots(x, y) implies (m4(x, y) <==> donkey_dot(dw as int, dh as int, barrels@, mario_y as int, x, y)) by {
                if donkey_dot(dw as int, dh as int, barrels@, mario_y as int, x, y) && !m4(x, y) {
                    if exists|k: int| 0 <= k < girder_count(dhi) && #[trigger] barrel_dot(
                        barrels@[k].0 as int,
                        barrels@[k].1 as int,
                        girder_row(k, dhi),
                        dw as int,
                        x,
                        y,
                    ) {
                        assert(rolled(x, y));
                    }
                }
            }
            lemma_gains_same(g0, grid@, m4, |x: int, y: int| donkey_dot(dw as int, dh as int, barrels@, mario_y as int, x, y));
        }
    }
}

} // verus!
