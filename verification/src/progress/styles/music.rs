//! Music-themed progress bars for dotmax.

use vstd::prelude::*;
use crate::progress::ProgressStyle;
use crate::progress::draw;
use crate::grid::{
    lemma_gains_dot, lemma_gains_nothing, lemma_gains_trans, lemma_with_char_glyph, BrailleGrid, Color, GridView,
};

verus! {

/// The `musical-staff` style.
pub struct MusicalStaff;

impl ProgressStyle for MusicalStaff {
    open spec fn style_name(&self) -> Seq<char> {
        "musical-staff"@
    }

    open spec fn style_theme(&self) -> Seq<char> {
        "music"@
    }

    open spec fn style_description(&self) -> Seq<char> {
        "5-line musical staff with treble clef; notes materialize left-to-right with progress"@
    }

    fn name(&self) -> (r: &str) {
        "musical-staff"
    }

    fn theme(&self) -> (r: &str) {
        "music"
    }

    fn describe(&self) -> (r: &str) {
        "5-line musical staff with treble clef; notes materialize left-to-right with progress"
    }
}

/// The `piano-keyboard` style.
pub struct PianoKeyboard;

impl ProgressStyle for PianoKeyboard {
    open spec fn style_name(&self) -> Seq<char> {
        "piano-keyboard"@
    }

    open spec fn style_theme(&self) -> Seq<char> {
        "music"@
    }

    open spec fn style_description(&self) -> Seq<char> {
        "Piano keys across the full width; black keys overlay white; melody note depresses as time ticks"@
    }

    fn name(&self) -> (r: &str) {
        "piano-keyboard"
    }

    fn theme(&self) -> (r: &str) {
        "music"
    }

    fn describe(&self) -> (r: &str) {
        "Piano keys across the full width; black keys overlay white; melody note depresses as time ticks"
    }
}

/// The `metronome` style.
pub struct Metronome;

impl ProgressStyle for Metronome {
    open spec fn style_name(&self) -> Seq<char> {
        "metronome"@
    }

    open spec fn style_theme(&self) -> Seq<char> {
        "music"@
    }

    open spec fn style_description(&self) -> Seq<char> {
        "Pendulum metronome arm swinging; beat tempo rises with progress"@
    }

    fn name(&self) -> (r: &str) {
        "metronome"
    }

    fn theme(&self) -> (r: &str) {
        "music"
    }

    fn describe(&self) -> (r: &str) {
        "Pendulum metronome arm swinging; beat tempo rises with progress"
    }
}

/// The `vinyl-record` style.
pub struct VinylRecord;

impl ProgressStyle for VinylRecord {
    open spec fn style_name(&self) -> Seq<char> {
        "vinyl-record"@
    }

    open spec fn style_theme(&self) -> Seq<char> {
        "music"@
    }

    open spec fn style_description(&self) -> Seq<char> {
        "Spinning vinyl disc with groove rings; tonearm tracks inward with progress"@
    }

    fn name(&self) -> (r: &str) {
        "vinyl-record"
    }

    fn theme(&self) -> (r: &str) {
        "music"
    }

    fn describe(&self) -> (r: &str) {
        "Spinning vinyl disc with groove rings; tonearm tracks inward with progress"
    }
}

/// The `drum-kit` style.
pub struct DrumKit;

impl ProgressStyle for DrumKit {
    open spec fn style_name(&self) -> Seq<char> {
        "drum-kit"@
    }

    open spec fn style_theme(&self) -> Seq<char> {
        "music"@
    }

    open spec fn style_description(&self) -> Seq<char> {
        "Radial impact rings exploding from centre on each beat; ghost rings accumulate with progress"@
    }

    fn name(&self) -> (r: &str) {
        "drum-kit"
    }

    fn theme(&self) -> (r: &str) {
        "music"
    }

    fn describe(&self) -> (r: &str) {
        "Radial impact rings exploding from centre on each beat; ghost rings accumulate with progress"
    }
}

/// The `sound-waveform` style.
pub struct SoundWaveform;

impl ProgressStyle for SoundWaveform {
    open spec fn style_name(&self) -> Seq<char> {
        "sound-waveform"@
    }

    open spec fn style_theme(&self) -> Seq<char> {
        "music"@
    }

    open spec fn style_description(&self) -> Seq<char> {
        "Centered oscillating waveform; amplitude grows with progress, morph sine→saw with time"@
    }

    fn name(&self) -> (r: &str) {
        "sound-waveform"
    }

    fn theme(&self) -> (r: &str) {
        "music"
    }

    fn describe(&self) -> (r: &str) {
        "Centered oscillating waveform; amplitude grows with progress, morph sine→saw with time"
    }
}

/// The `cassette-reels` style.
pub struct CassetteReels;

impl ProgressStyle for CassetteReels {
    open spec fn style_name(&self) -> Seq<char> {
        "cassette-reels"@
    }

    open spec fn style_theme(&self) -> Seq<char> {
        "music"@
    }

    open spec fn style_description(&self) -> Seq<char> {
        "Two cassette reels: supply shrinks, take-up grows, both spin as tape transfers"@
    }

    fn name(&self) -> (r: &str) {
        "cassette-reels"
    }

    fn theme(&self) -> (r: &str) {
        "music"
    }

    fn describe(&self) -> (r: &str) {
        "Two cassette reels: supply shrinks, take-up grows, both spin as tape transfers"
    }
}

/// The `conductor-baton` style.
pub struct ConductorBaton;

impl ProgressStyle for ConductorBaton {
    open spec fn style_name(&self) -> Seq<char> {
        "conductor-baton"@
    }

    open spec fn style_theme(&self) -> Seq<char> {
        "music"@
    }

    open spec fn style_description(&self) -> Seq<char> {
        "Baton tracing a 4/4 conducting pattern; beat positions illuminate with time"@
    }

    fn name(&self) -> (r: &str) {
        "conductor-baton"
    }

    fn theme(&self) -> (r: &str) {
        "music"
    }

    fn describe(&self) -> (r: &str) {
        "Baton tracing a 4/4 conducting pattern; beat positions illuminate with time"
    }
}

/// The `sheet-scroll` style.
pub struct SheetScroll;

impl ProgressStyle for SheetScroll {
    open spec fn style_name(&self) -> Seq<char> {
        "sheet-scroll"@
    }

    open spec fn style_theme(&self) -> Seq<char> {
        "music"@
    }

    open spec fn style_description(&self) -> Seq<char> {
        "Sheet music scrolling left; bar-lines and note heads reveal with progress"@
    }

    fn name(&self) -> (r: &str) {
        "sheet-scroll"
    }

    fn theme(&self) -> (r: &str) {
        "music"
    }

    fn describe(&self) -> (r: &str) {
        "Sheet music scrolling left; bar-lines and note heads reveal with progress"
    }
}

/// The `tuning-fork` style.
pub struct TuningFork;

impl ProgressStyle for TuningFork {
    open spec fn style_name(&self) -> Seq<char> {
        "tuning-fork"@
    }

    open spec fn style_theme(&self) -> Seq<char> {
        "music"@
    }

    open spec fn style_description(&self) -> Seq<char> {
        "Tuning fork tines vibrating; amplitude decays as pitch locks in with progress"@
    }

    fn name(&self) -> (r: &str) {
        "tuning-fork"
    }

    fn theme(&self) -> (r: &str) {
        "music"
    }

    fn describe(&self) -> (r: &str) {
        "Tuning fork tines vibrating; amplitude decays as pitch locks in with progress"
    }
}

/// The `volume-knob` style.
pub struct VolumeKnob;

impl ProgressStyle for VolumeKnob {
    open spec fn style_name(&self) -> Seq<char> {
        "volume-knob"@
    }

    open spec fn style_theme(&self) -> Seq<char> {
        "music"@
    }

    open spec fn style_description(&self) -> Seq<char> {
        "Potentiometer knob with rotating pointer; sweep arc fills from 7 o'clock to 5 o'clock"@
    }

    fn name(&self) -> (r: &str) {
        "volume-knob"
    }

    fn theme(&self) -> (r: &str) {
        "music"
    }

    fn describe(&self) -> (r: &str) {
        "Potentiometer knob with rotating pointer; sweep arc fills from 7 o'clock to 5 o'clock"
    }
}

/// The `beat-pulse` style.
pub struct BeatPulse;

impl ProgressStyle for BeatPulse {
    open spec fn style_name(&self) -> Seq<char> {
        "beat-pulse"@
    }

    open spec fn style_theme(&self) -> Seq<char> {
        "music"@
    }

    open spec fn style_description(&self) -> Seq<char> {
        "Concentric rings expanding outward on each beat; ring density grows with progress"@
    }

    fn name(&self) -> (r: &str) {
        "beat-pulse"
    }

    fn theme(&self) -> (r: &str) {
        "music"
    }

    fn describe(&self) -> (r: &str) {
        "Concentric rings expanding outward on each beat; ring density grows with progress"
    }
}

/// Number of staff lines asked for on a bar `dh` dots tall: five, or fewer
/// on a shorter bar.
pub open spec fn staff_line_count(dh: int) -> int {
    if dh < 5 {
        dh
    } else {
        5
    }
}

/// Dot rows between staff lines: the height split into one more part than
/// there are lines, at least one row.
pub open spec fn staff_spacing(dh: int) -> int {
    let s = dh / (staff_line_count(dh) + 1);
    if s > 1 {
        s
    } else {
        1
    }
}

/// Row of staff line `k` (counting from 0 at the top).
pub open spec fn staff_y(dh: int, k: int) -> int {
    staff_spacing(dh) * (k + 1)
}

/// Number of staff lines that fall on the bar.
pub open spec fn staff_len(dh: int) -> int {
    let fit = (dh - 1) / staff_spacing(dh);
    if fit < staff_line_count(dh) {
        fit
    } else {
        staff_line_count(dh)
    }
}

/// Row `y` holds a staff line.
pub open spec fn on_staff(dh: int, y: int) -> bool {
    exists|k: int| 0 <= k < staff_len(dh) && y == #[trigger] staff_y(dh, k)
}

/// The repeating note pattern of the scrolling sheet: world column and
/// staff line of note `j` of 15.
pub open spec fn sheet_note(j: int) -> (int, int) {
    if j == 0 { (2, 0) }
    else if j == 1 { (6, 1) }
    else if j == 2 { (10, 2) }
    else if j == 3 { (14, 3) }
    else if j == 4 { (18, 4) }
    else if j == 5 { (22, 1) }
    else if j == 6 { (26, 0) }
    else if j == 7 { (30, 2) }
    else if j == 8 { (34, 3) }
    else if j == 9 { (38, 4) }
    else if j == 10 { (3, 0) }
    else if j == 11 { (7, 2) }
    else if j == 12 { (11, 4) }
    else if j == 13 { (15, 1) }
    else { (19, 3) }
}

/// Screen column of world column `col` when the sheet, repeating every 48
/// dots, has scrolled by `offset`.
pub open spec fn sheet_x(col: int, offset: int) -> int {
    let a = offset % 48;
    if col >= a {
        col - a
    } else {
        col + 48 - a
    }
}

/// The sheet's pattern and scrolling: its fifteen notes sit on fifteen
/// different world columns, the first ten every four dots from column 2
/// and the last five every four dots from column 3, each on one of the
/// five staff lines; scrolling by `offset` shifts every world column of
/// the 48-dot pattern left by `offset`, wrapping around, so the column stays
/// in the pattern.
pub proof fn lemma_sheet_layout(j: int, k: int, col: int, offset: int)
    requires
        0 <= j < 15,
        0 <= k < 15,
        0 <= col < 48,
        offset >= 0,
    ensures
        sheet_note(j).0 == (if j < 10 { 4 * j + 2 } else { 4 * (j - 10) + 3 }),
        0 <= sheet_note(j).1 < 5,
        j != k ==> sheet_note(j).0 != sheet_note(k).0,
        0 <= sheet_x(col, offset) < 48,
        (sheet_x(col, offset) + offset - col) % 48 == 0,
{
    let a = offset % 48;
    assert(offset == 48 * (offset / 48) + a);
    assert(sheet_x(col, offset) + offset - col == 48 * (offset / 48) + (if col >= a { 0int } else { 48 }));
    vstd::arithmetic::div_mod::lemma_mod_multiples_basic(offset / 48 + (if col >= a { 0int } else { 1 }), 48);
}

/// Dot `(x, y)` of a note whose head is centred at `(vx, ny)`: a head three
/// dots wide and a stem of four dots rising from its right end.
pub open spec fn note_dot(vx: int, ny: int, x: int, y: int) -> bool {
    (y == ny && vx - 1 <= x <= vx + 1) || (x == vx + 1 && ny - 4 <= y < ny)
}

/// Dot `(x, y)` belongs to note `j` of the pattern on a bar `dw x dh` dots
/// scrolled by `offset`.
pub open spec fn sheet_note_dot(j: int, dw: int, dh: int, offset: int, x: int, y: int) -> bool {
    let vx = sheet_x(sheet_note(j).0, offset);
    &&& 0 <= j < 15
    &&& staff_len(dh) > 0
    &&& vx < dw
    &&& note_dot(vx, staff_y(dh, sheet_note(j).1 % staff_len(dh)), x, y)
}

/// A scrolling sheet-music frame `dw x dh` dots: the staff lines, a bar line
/// wherever the scrolled column is a multiple of 16, the pattern's notes,
/// and a full-height cursor at column `cursor` (kept on the bar).
pub open spec fn sheet_frame(dw: int, dh: int, offset: int, cursor: int) -> spec_fn(int, int) -> bool {
    |x: int, y: int|
        (on_staff(dh, y) && 0 <= x <= dw - 1) || (0 <= x < dw && (x + offset) % 16 == 0 && 0 <= y <= dh - 1)
            || (exists|j: int| #[trigger] sheet_note_dot(j, dw, dh, offset, x, y)) || (x == (if cursor < dw - 1 {
            cursor
        } else {
            dw - 1
        }) && 0 <= y <= dh - 1)
}

proof fn lemma_staff_rows(dh: int, i: int) by (nonlinear_arith)
    requires
        dh >= 4,
        staff_spacing(dh) >= 1,
        0 <= i,
    ensures
        (staff_spacing(dh) * (i + 1) < dh) <==> (i < (dh - 1) / staff_spacing(dh)),
        0 <= staff_spacing(dh) * (i + 1),
{
}

/// A grid's dot lattice is narrower than the largest `usize`.
proof fn lemma_dot_width_below_max(g: GridView)
    requires
        g.wf(),
    ensures
        g.dot_width() < usize::MAX,
{
    assert(g.width <= g.width * g.height) by (nonlinear_arith)
        requires
            g.height >= 1,
    ;
}

/// The note at index `j` of the pattern.
fn sheet_note_at(j: usize) -> (r: (usize, usize))
    requires
        j < 15,
    ensures
        r.0 == sheet_note(j as int).0,
        r.1 == sheet_note(j as int).1,
{
    match j {
        0 => (2, 0),
        1 => (6, 1),
        2 => (10, 2),
        3 => (14, 3),
        4 => (18, 4),
        5 => (22, 1),
        6 => (26, 0),
        7 => (30, 2),
        8 => (34, 3),
        9 => (38, 4),
        10 => (3, 0),
        11 => (7, 2),
        12 => (11, 4),
        13 => (15, 1),
        _ => (19, 3),
    }
}

/// Draws one note with its head centred at `(vx, ny)`.
fn draw_note(grid: &mut BrailleGrid, vx: usize, ny: usize)
    requires
        old(grid)@.wf(),
        vx < old(grid)@.dot_width(),
        vx + 1 <= usize::MAX,
        ny < old(grid)@.dot_height(),
    ensures
        old(grid)@.gains_dots(final(grid)@, |x: int, y: int| note_dot(vx as int, ny as int, x, y)),
{
    let ghost g0 = grid@;
    let (dw, dh) = draw::dot_dims(grid);
    let ghost s0 = |x: int, y: int| y == ny && vx <= x <= vx;
    let ghost s1 = |x: int, y: int| y == ny && vx <= x <= vx + 1;
    let ghost s2 = |x: int, y: int| y == ny && vx - 1 <= x <= vx + 1;
    proof {
        lemma_gains_nothing(g0, |x: int, y: int| false);
    }
    draw::dot(grid, vx, ny);
    proof {
        lemma_gains_dot(g0, g0, vx as int, ny as int, |x: int, y: int| false, s0);
    }
    let ghost g1 = grid@;
    if vx + 1 < dw {
        draw::dot(grid, vx + 1, ny);
        proof {
            lemma_gains_dot(g0, g1, vx + 1, ny as int, s0, s1);
        }
    } else {
        proof {
            assert forall|x: int, y: int| g0.in_dots(x, y) implies (s1(x, y) <==> s0(x, y)) by {}
        }
    }
    let ghost g2 = grid@;
    if vx > 0 {
        draw::dot(grid, vx - 1, ny);
        proof {
            lemma_gains_dot(g0, g2, vx - 1, ny as int, s1, s2);
        }
    } else {
        proof {
            assert forall|x: int, y: int| g0.in_dots(x, y) implies (s2(x, y) <==> s1(x, y)) by {}
        }
    }
    let stem_top = if ny >= 4 { ny - 4 } else { 0 };
    let mut sy = stem_top;
    while sy < ny
        invariant
            g0.wf(),
            vx + 1 <= usize::MAX,
            stem_top <= sy <= ny,
            stem_top == (if ny >= 4 { ny - 4 } else { 0 }),
            g0.gains_dots(grid@, |x: int, y: int| s2(x, y) || (x == vx + 1 && stem_top <= y < sy)),
        decreases ny - sy,
    {
        let ghost g3 = grid@;
        draw::dot(grid, vx + 1, sy);
        proof {
            lemma_gains_dot(
                g0,
                g3,
                vx + 1,
                sy as int,
                |x: int, y: int| s2(x, y) || (x == vx + 1 && stem_top <= y < sy),
                |x: int, y: int| s2(x, y) || (x == vx + 1 && stem_top <= y < sy + 1),
            );
        }
        sy = sy + 1;
    }
    proof {
        assert forall|x: int, y: int| g0.in_dots(x, y) implies (#[trigger] grid@.is_lit(x, y) <==> (g0.is_lit(x, y)
            || note_dot(vx as int, ny as int, x, y))) by {
            assert(grid@.is_lit(x, y) <==> (g0.is_lit(x, y) || s2(x, y) || (x == vx + 1 && stem_top <= y < sy)));
        }
    }
}

impl SheetScroll {
    /// One frame of the scrolling sheet: staff lines, bar lines every 16
    /// dots of the sheet scrolled by `scroll_offset`, the note pattern
    /// repeating every 48 dots, and the progress cursor at column
    /// `cursor_x`.
    pub fn draw(&self, grid: &mut BrailleGrid, scroll_offset: usize, cursor_x: usize)
        requires
            old(grid)@.wf(),
            old(grid)@.dot_width() - 1 + scroll_offset <= usize::MAX,
        ensures
            old(grid)@.gains_dots(
                final(grid)@,
                sheet_frame(
                    old(grid)@.dot_width() as int,
                    old(grid)@.dot_height() as int,
                    scroll_offset as int,
                    cursor_x as int,
                ),
            ),
    {
        let ghost g0 = grid@;
        let (dw, dh) = draw::dot_dims(grid);
        let ghost dhi = dh as int;
        let line_count = if dh < 5 { dh } else { 5 };
        let sp = dh / (line_count + 1);
        let spacing = if sp > 1 { sp } else { 1 };
        let mut staff_ys: Vec<usize> = Vec::new();
        proof {
            lemma_gains_nothing(g0, |x: int, y: int| false);
        }
        let mut i: usize = 0;
        while i < line_count
            invariant
                g0.wf(),
                dw == g0.dot_width(),
                dh == g0.dot_height(),
                dh >= 4,
                dhi == dh,
                line_count == staff_line_count(dhi),
                sp as int == dh as int / (line_count as int + 1),
                spacing == (if sp > 1 { sp } else { 1 }),
                spacing == staff_spacing(dhi),
                i <= line_count,
                staff_ys.len() == (if i < staff_len(dhi) { i as int } else { staff_len(dhi) }),
                forall|k: int| 0 <= k < staff_ys.len() ==> #[trigger] staff_ys[k] == staff_y(dhi, k),
                g0.gains_dots(
                    grid@,
                    |x: int, y: int| (exists|k: int| 0 <= k < staff_ys.len() && y == #[trigger] staff_y(dhi, k)) && 0 <= x <= dw - 1,
                ),
            decreases line_count - i,
        {
            proof {
                lemma_staff_rows(dhi, i as int);
                assert(sp * (line_count + 1) <= dh) by (nonlinear_arith)
                    requires
                        sp as int == dh as int / (line_count as int + 1),
                        line_count >= 1,
                        dh >= 0,
                ;
                assert(spacing * (i + 1) <= dh) by (nonlinear_arith)
                    requires
                        i + 1 <= line_count,
                        line_count <= dh,
                        spacing == 1 || spacing * (line_count + 1) <= dh,
                        spacing >= 1,
                ;
            }
            let y = spacing * (i + 1);
            let ghost before = |x: int, yy: int| (exists|k: int| 0 <= k < staff_ys.len() && yy == #[trigger] staff_y(dhi, k)) && 0 <= x <= dw - 1;
            if y < dh {
                let ghost g1 = grid@;
                draw::hline(grid, 0, dw - 1, y);
                staff_ys.push(y);
                proof {
                    let seg = |px: int, py: int| py == y && (if 0 <= dw - 1 { 0 <= px <= dw - 1 } else { dw - 1 <= px <= 0 });
                    let after = |x: int, yy: int| (exists|k: int| 0 <= k < staff_ys.len() && yy == #[trigger] staff_y(dhi, k)) && 0 <= x <= dw - 1;
                    assert forall|px: int, py: int| g0.in_dots(px, py) implies (after(px, py) <==> (before(px, py) || seg(px, py))) by {
                        if after(px, py) {
                            let k = choose|k: int| 0 <= k < staff_ys.len() && py == #[trigger] staff_y(dhi, k);
                            if k < staff_ys.len() - 1 {
                                assert(before(px, py));
                            }
                        }
                        if before(px, py) {
                            let k = choose|k: int| 0 <= k < staff_ys.len() - 1 && py == #[trigger] staff_y(dhi, k);
                            assert(staff_ys[k] == staff_y(dhi, k));
                        }
                        if seg(px, py) {
                            assert(py == staff_y(dhi, (staff_ys.len() - 1) as int));
                        }
                    }
                    lemma_gains_trans(g0, g1, grid@, before, seg, after);
                }
            }
            i = i + 1;
        }
        let ghost staff = |x: int, y: int| on_staff(dhi, y) && 0 <= x <= dw - 1;
        proof {
            assert(staff_ys.len() == staff_len(dhi)) by {
                lemma_staff_rows(dhi, line_count as int);
            }
            assert forall|x: int, y: int| g0.in_dots(x, y) implies (#[trigger] grid@.is_lit(x, y) <==> (g0.is_lit(x, y)
                || staff(x, y))) by {
                if on_staff(dhi, y) {
                    let k = choose|k: int| 0 <= k < staff_len(dhi) && y == #[trigger] staff_y(dhi, k);
                    assert(staff_ys[k] == staff_y(dhi, k));
                }
            }
        }
        let ghost g_staff = grid@;
        let mut xi: usize = 0;
        while xi < dw
            invariant
                g0.wf(),
                dw == g0.dot_width(),
                dh == g0.dot_height(),
                dw - 1 + scroll_offset <= usize::MAX,
                xi <= dw,
                g0.gains_dots(grid@, |x: int, y: int| staff(x, y) || (0 <= x < xi && (x + scroll_offset) % 16 == 0 && 0 <= y <= dh - 1)),
            decreases dw - xi,
        {
            let ghost before = |x: int, y: int| staff(x, y) || (0 <= x < xi && (x + scroll_offset) % 16 == 0 && 0 <= y <= dh - 1);
            let ghost after = |x: int, y: int| staff(x, y) || (0 <= x < xi + 1 && (x + scroll_offset) % 16 == 0 && 0 <= y <= dh - 1);
            let world_x = xi + scroll_offset;
            if world_x % 16 == 0 {
                let ghost g1 = grid@;
                draw::vline(grid, xi, 0, dh - 1);
                proof {
                    let seg = |px: int, py: int| px == xi && (if 0 <= dh - 1 { 0 <= py <= dh - 1 } else { dh - 1 <= py <= 0 });
                    lemma_gains_trans(g0, g1, grid@, before, seg, after);
                }
            } else {
                proof {
                    assert forall|x: int, y: int| g0.in_dots(x, y) implies (after(x, y) <==> before(x, y)) by {}
                }
            }
            xi = xi + 1;
        }
        let ghost lined = |x: int, y: int| staff(x, y) || (0 <= x < dw && (x + scroll_offset) % 16 == 0 && 0 <= y <= dh - 1);
        let adjusted = scroll_offset % 48;
        proof {
            assert forall|k: int| 0 <= k < staff_ys.len() implies #[trigger] staff_ys[k] < dh by {
                lemma_staff_rows(dhi, k);
            }
            lemma_dot_width_below_max(g0);
        }
        let mut j: usize = 0;
        if staff_ys.len() == 0 {
            j = 15;
        }
        while j < 15
            invariant
                g0.wf(),
                dw == g0.dot_width(),
                dh == g0.dot_height(),
                dh >= 4,
                dhi == dh,
                dw < usize::MAX,
                j < 15 ==> staff_ys.len() > 0,
                adjusted == scroll_offset % 48,
                j <= 15,
                staff_ys.len() == staff_len(dhi),
                forall|k: int| 0 <= k < staff_ys.len() ==> #[trigger] staff_ys[k] == staff_y(dhi, k),
                forall|k: int| 0 <= k < staff_ys.len() ==> #[trigger] staff_ys[k] < dh,
                g0.gains_dots(
                    grid@,
                    |x: int, y: int| lined(x, y) || (exists|jj: int| jj < j && #[trigger] sheet_note_dot(jj, dw as int, dh as int, scroll_offset as int, x, y)),
                ),
            decreases 15 - j,
        {
            let ghost before = |x: int, y: int| lined(x, y) || (exists|jj: int| jj < j && #[trigger] sheet_note_dot(jj, dw as int, dh as int, scroll_offset as int, x, y));
            let ghost after = |x: int, y: int| lined(x, y) || (exists|jj: int| jj < j + 1 && #[trigger] sheet_note_dot(jj, dw as int, dh as int, scroll_offset as int, x, y));
            let ghost g1 = grid@;
            let (world_col, line_idx) = sheet_note_at(j);
            let line = line_idx % staff_ys.len();
            let dot_y = staff_ys[line];
            let visible_x = if world_col >= adjusted { world_col - adjusted } else { world_col + 48 - adjusted };
            if visible_x < dw {
                draw_note(grid, visible_x, dot_y);
                proof {
                    let one = |x: int, y: int| note_dot(visible_x as int, dot_y as int, x, y);
                    assert forall|x: int, y: int| g0.in_dots(x, y) implies (after(x, y) <==> (before(x, y) || one(x, y))) by {
                        if after(x, y) && !lined(x, y) {
                            let jj = choose|jj: int| jj < j + 1 && #[trigger] sheet_note_dot(jj, dw as int, dh as int, scroll_offset as int, x, y);
                            if jj < j {
                                assert(before(x, y));
                            }
                        }
                        if before(x, y) && !lined(x, y) {
                            let jj = choose|jj: int| jj < j && #[trigger] sheet_note_dot(jj, dw as int, dh as int, scroll_offset as int, x, y);
                            assert(sheet_note_dot(jj, dw as int, dh as int, scroll_offset as int, x, y));
                        }
                        if one(x, y) {
                            assert(sheet_note_dot(j as int, dw as int, dh as int, scroll_offset as int, x, y));
                        }
                    }
                    lemma_gains_trans(g0, g1, grid@, before, one, after);
                }
            } else {
                proof {
                    assert forall|x: int, y: int| g0.in_dots(x, y) implies (after(x, y) <==> before(x, y)) by {
                        if after(x, y) && !lined(x, y) {
                            let jj = choose|jj: int| jj < j + 1 && #[trigger] sheet_note_dot(jj, dw as int, dh as int, scroll_offset as int, x, y);
                            if jj < j {
                                assert(before(x, y));
                            }
                        }
                    }
                }
            }
            j = j + 1;
        }
        let ghost noted = |x: int, y: int| lined(x, y) || (exists|jj: int| #[trigger] sheet_note_dot(jj, dw as int, dh as int, scroll_offset as int, x, y));
        proof {
            assert forall|x: int, y: int| g0.in_dots(x, y) implies (#[trigger] grid@.is_lit(x, y) <==> (g0.is_lit(x, y)
                || noted(x, y))) by {
                if exists|jj: int| #[trigger] sheet_note_dot(jj, dw as int, dh as int, scroll_offset as int, x, y) {
                    let jj = choose|jj: int| #[trigger] sheet_note_dot(jj, dw as int, dh as int, scroll_offset as int, x, y);
                    assert(staff_len(dhi) > 0);
                    assert(jj < j);
                }
            }
        }
        let ghost g2 = grid@;
        let cx = if cursor_x < dw - 1 { cursor_x } else { dw - 1 };
        draw::vline(grid, cx, 0, dh - 1);
        proof {
            let seg = |px: int, py: int| px == cx && (if 0 <= dh - 1 { 0 <= py <= dh - 1 } else { dh - 1 <= py <= 0 });
            lemma_gains_trans(
                g0,
                g2,
                grid@,
                noted,
                seg,
                sheet_frame(dw as int, dh as int, scroll_offset as int, cursor_x as int),
            );
        }
    }
}

/// The melody the keyboard plays, one note per half-second beat, as
/// semitones above the octave's C.
pub open spec fn piano_melody(beat: int) -> int {
    let i = beat % 12;
    if i == 0 { 0 }
    else if i == 1 { 2 }
    else if i == 2 { 4 }
    else if i == 3 { 5 }
    else if i == 4 { 7 }
    else if i == 5 { 9 }
    else if i == 6 { 11 }
    else if i == 7 { 9 }
    else if i == 8 { 7 }
    else if i == 9 { 5 }
    else if i == 10 { 4 }
    else { 2 }
}

/// `p` is a pitch class of the C major scale (semitones above C): the
/// naturals, even below F and odd from F up.
pub open spec fn c_major_pitch(p: int) -> bool {
    &&& 0 <= p < 12
    &&& (p < 5 ==> p % 2 == 0)
    &&& (p >= 5 ==> p % 2 == 1)
}

/// The melody is the C major scale up and back down, one twelve-beat phrase
/// repeated: every note is in C major, the first seven beats climb strictly
/// from C, the phrase reads the same from either end (beat `b` and beat
/// `12 - b` sound alike), and C sounds exactly on the first beat of each
/// phrase.
pub proof fn lemma_piano_melody(b: int)
    ensures
        c_major_pitch(piano_melody(b)),
        piano_melody(b + 12) == piano_melody(b),
        0 <= b % 12 < 6 ==> piano_melody(b) < piano_melody(b + 1),
        piano_melody(b) == piano_melody(12 - b),
        (piano_melody(b) == 0) <==> b % 12 == 0,
        b % 12 == 0 ==> forall|cx: int| cx % 7 == 0 ==> #[trigger] piano_playing(cx, piano_melody(b)),
{
    let i = b % 12;
    assert((b + 12) % 12 == i);
    assert((b + 1) % 12 == (if i == 11 { 0 } else { i + 1 }));
    assert((12 - b) % 12 == (if i == 0 { 0 } else { 12 - i }));
}

/// Key column `cx` shows a black key: positions 1, 2, 4, 5 and 6 of each
/// seven-column octave.
pub open spec fn piano_black(cx: int) -> bool {
    let o = cx % 7;
    o == 1 || o == 2 || o == 4 || o == 5 || o == 6
}

/// Key column `cx` is a white key sounding `note`: position 0 is C (0) and
/// position 3 is F (5).
pub open spec fn piano_playing(cx: int, note: int) -> bool {
    let o = cx % 7;
    (o == 0 && note == 0) || (o == 3 && note == 5)
}

/// The keyboard repeats every seven columns, one per natural note of the
/// octave; a column sounds a note only when it shows a white key, and
/// then the note is that column's natural: the `o`-th natural of C major,
/// `2o` semitones up to E and `2o - 1` from F.
pub proof fn lemma_piano_keys(cx: int, note: int)
    requires
        cx >= 0,
    ensures
        piano_black(cx + 7) == piano_black(cx),
        piano_playing(cx + 7, note) == piano_playing(cx, note),
        piano_playing(cx, note) ==> !piano_black(cx) && c_major_pitch(note) && note == (if cx % 7 < 3 {
            2 * (cx % 7)
        } else {
            2 * (cx % 7) - 1
        }),
        !piano_black(cx) && 0 <= note < 12 && note == (if cx % 7 < 3 { 2 * (cx % 7) } else { 2 * (cx % 7) - 1 })
            ==> piano_playing(cx, note),
{
    assert((cx + 7) % 7 == cx % 7);
}

/// Dot `(x, y)` of key column `cx` (dots `2cx` and `2cx+1`) on a keyboard
/// `dh` dots tall: a black key fills the top half, a sounding white key
/// the whole column, a key under the progress fill a two-row mark at the
/// bottom, and any other key a thin left edge.
pub open spec fn piano_key_dot(cx: int, dh: int, filled: int, note: int, x: int, y: int) -> bool {
    &&& (x == 2 * cx || x == 2 * cx + 1)
    &&& 0 <= y < dh
    &&& if piano_black(cx) {
        y < (if dh / 2 > 1 { dh / 2 } else { 1 })
    } else if piano_playing(cx, note) {
        true
    } else if cx < filled {
        y >= dh - 2
    } else {
        x == 2 * cx
    }
}

/// The keys left of column `k`.
pub open spec fn piano_keys(dh: int, filled: int, note: int, k: int) -> spec_fn(int, int) -> bool {
    |x: int, y: int| 0 <= x < 2 * k && piano_key_dot(x / 2, dh, filled, note, x, y)
}

impl PianoKeyboard {
    /// One frame of the keyboard: the keys of every cell column, the key
    /// sounding the melody's note for `beat` pressed, keys left of column
    /// `filled_cols` marked, and the marked span tinted `color` (at least
    /// its first column).
    pub fn draw(&self, grid: &mut BrailleGrid, filled_cols: usize, beat: usize, color: Color)
        requires
            old(grid)@.wf(),
        ensures
            final(grid)@.wf(),
            old(grid)@.gains_dots(
                (GridView { colors: old(grid)@.colors, ..final(grid)@ }),
                piano_keys(
                    old(grid)@.dot_height() as int,
                    filled_cols as int,
                    piano_melody(beat as int),
                    old(grid)@.width as int,
                ),
            ),
            final(grid)@.colors.len() == old(grid)@.colors.len(),
            forall|x: int, y: int|
                old(grid)@.in_cells(x, y) ==> #[trigger] final(grid)@.color_at(x, y) == (if x + 1 <= (if filled_cols
                    < old(grid)@.width { filled_cols as int } else { old(grid)@.width as int }) || x == 0 {
                    Some(color)
                } else {
                    old(grid)@.color_at(x, y)
                }),
    {
        let ghost g0 = grid@;
        let (dw, dh) = draw::dot_dims(grid);
        let (cw, ch) = grid.dimensions();
        let note = match beat % 12 {
            0 => 0,
            1 => 2,
            2 => 4,
            3 => 5,
            4 => 7,
            5 => 9,
            6 => 11,
            7 => 9,
            8 => 7,
            9 => 5,
            10 => 4,
            _ => 2,
        };
        let ghost nt = piano_melody(beat as int);
        assert(note == nt);
        proof {
            lemma_gains_nothing(g0, piano_keys(dh as int, filled_cols as int, nt, 0));
            lemma_dot_width_below_max(g0);
        }
        let mut cx: usize = 0;
        while cx < cw
            invariant
                g0.wf(),
                dw == g0.dot_width(),
                dh == g0.dot_height(),
                cw == g0.width,
                dw == 2 * cw,
                dw < usize::MAX,
                dh >= 4,
                note == nt,
                cx <= cw,
                g0.gains_dots(grid@, piano_keys(dh as int, filled_cols as int, nt, cx as int)),
            decreases cw - cx,
        {
            let ghost before = piano_keys(dh as int, filled_cols as int, nt, cx as int);
            let ghost after = piano_keys(dh as int, filled_cols as int, nt, cx + 1);
            let ghost one = |x: int, y: int| piano_key_dot(cx as int, dh as int, filled_cols as int, nt, x, y);
            let op = cx % 7;
            let is_black = op == 1 || op == 2 || op == 4 || op == 5 || op == 6;
            let is_playing = !is_black && ((op == 0 && note == 0) || (op == 3 && note == 5));
            let ghost g1 = grid@;
            if is_black {
                let bh = if dh / 2 > 1 { dh / 2 } else { 1 };
                draw::fill_rect(grid, cx * 2, 0, 2, bh);
                proof {
                    let r = |px: int, py: int| 2 * cx <= px < 2 * cx + 2 && 0 <= py < bh;
                    assert forall|px: int, py: int| g1.in_dots(px, py) implies (#[trigger] grid@.is_lit(px, py) <==> (g1.is_lit(px, py)
                        || one(px, py))) by {
                        assert(grid@.is_lit(px, py) <==> (g1.is_lit(px, py) || r(px, py)));
                    }
                }
            } else if is_playing {
                draw::fill_rect(grid, cx * 2, 0, 2, dh);
                proof {
                    let r = |px: int, py: int| 2 * cx <= px < 2 * cx + 2 && 0 <= py < dh;
                    assert forall|px: int, py: int| g1.in_dots(px, py) implies (#[trigger] grid@.is_lit(px, py) <==> (g1.is_lit(px, py)
                        || one(px, py))) by {
                        assert(grid@.is_lit(px, py) <==> (g1.is_lit(px, py) || r(px, py)));
                    }
                }
            } else if cx < filled_cols {
                let mark_y = dh - 2;
                draw::hline(grid, cx * 2, cx * 2 + 1, mark_y);
                let ghost g2 = grid@;
                draw::hline(grid, cx * 2, cx * 2 + 1, mark_y + 1);
                proof {
                    let a = |px: int, py: int| py == mark_y && (if 2 * cx <= 2 * cx + 1 { 2 * cx <= px <= 2 * cx + 1 } else { 2 * cx + 1 <= px <= 2 * cx });
                    let b = |px: int, py: int| py == mark_y + 1 && (if 2 * cx <= 2 * cx + 1 { 2 * cx <= px <= 2 * cx + 1 } else { 2 * cx + 1 <= px <= 2 * cx });
                    lemma_gains_trans(g1, g2, grid@, a, b, one);
                }
            } else {
                draw::vline(grid, cx * 2, 0, dh - 1);
                proof {
                    let v = |px: int, py: int| px == 2 * cx && (if 0 <= dh - 1 { 0 <= py <= dh - 1 } else { dh - 1 <= py <= 0 });
                    assert forall|px: int, py: int| g1.in_dots(px, py) implies (#[trigger] grid@.is_lit(px, py) <==> (g1.is_lit(px, py)
                        || one(px, py))) by {
                        assert(grid@.is_lit(px, py) <==> (g1.is_lit(px, py) || v(px, py)));
                    }
                }
            }
            proof {
                assert(g1.gains_dots(grid@, one));
                assert forall|px: int, py: int| g0.in_dots(px, py) implies (after(px, py) <==> (before(px, py) || one(px, py))) by {
                    if 2 * cx <= px < 2 * cx + 2 {
                        assert(px / 2 == cx);
                    }
                }
                lemma_gains_trans(g0, g1, grid@, before, one, after);
            }
            cx = cx + 1;
        }
        let ghost drawn = grid@;
        let f = if filled_cols < cw { filled_cols } else { cw };
        let x1 = if f >= 1 { f - 1 } else { 0 };
        let mut cy: usize = 0;
        while cy < ch
            invariant
                g0.wf(),
                drawn.wf(),
                grid@.wf(),
                cw == g0.width,
                ch == g0.height,
                drawn.width == g0.width,
                drawn.height == g0.height,
                drawn.colors == g0.colors,
                f == (if filled_cols < cw { filled_cols } else { cw }),
                x1 == (if f >= 1 { f - 1 } else { 0 }),
                cy <= ch,
                grid@.width == g0.width,
                grid@.height == g0.height,
                grid@.patterns == drawn.patterns,
                grid@.characters == drawn.characters,
                forall|x: int, y: int|
                    g0.in_cells(x, y) ==> #[trigger] grid@.color_at(x, y) == (if y < cy && x <= x1 {
                        Some(color)
                    } else {
                        g0.color_at(x, y)
                    }),
            decreases ch - cy,
        {
            let ghost before = grid@;
            draw::tint_row(grid, cy, 0, x1, color);
            proof {
                assert forall|x: int, y: int| g0.in_cells(x, y) implies #[trigger] grid@.color_at(x, y) == (if y < cy + 1 && x
                    <= x1 {
                    Some(color)
                } else {
                    g0.color_at(x, y)
                }) by {
                    assert(before.in_cells(x, y));
                }
            }
            cy = cy + 1;
        }
        proof {
            assert((GridView { colors: g0.colors, ..grid@ }) == drawn);
        }
    }
}

/// Dot rows between the lines of the musical staff: the height split into
/// one more part than there are lines (0 on a bar too short to split).
pub open spec fn clef_spacing(dh: int) -> int {
    dh / (staff_line_count(dh) + 1)
}

/// Row of line `k` of the musical staff.
pub open spec fn clef_staff_y(dh: int, k: int) -> int {
    clef_spacing(dh) * (k + 1)
}

/// Number of lines of the musical staff that fall on the bar.
pub open spec fn clef_staff_len(dh: int) -> int {
    if clef_spacing(dh) == 0 {
        staff_line_count(dh)
    } else {
        let fit = (dh - 1) / clef_spacing(dh);
        if fit < staff_line_count(dh) {
            fit
        } else {
            staff_line_count(dh)
        }
    }
}

/// Glyph of note `j` of the staff, cycling through five note shapes.
pub open spec fn note_glyph(j: int) -> char {
    let k = j % 5;
    if k == 0 || k == 3 {
        '♪'
    } else if k == 1 || k == 4 {
        '♫'
    } else {
        '♩'
    }
}

/// Cell row of note `i` on a staff `dh` dots (`ch` cells) tall: the cell of
/// its staff line, kept on the bar.
pub open spec fn note_row(i: int, dh: int, ch: int) -> int {
    let r = clef_staff_y(dh, i % clef_staff_len(dh)) / 4;
    if r < ch - 1 {
        r
    } else {
        ch - 1
    }
}

/// The glyph override cell `(x, y)` holds after a musical-staff frame with
/// `shown` notes on a bar `cw x ch` cells: the clef at the left of the
/// middle row, notes one per column after it on their staff lines, or
/// `prior`.
pub open spec fn staff_glyph(cw: int, ch: int, shown: int, x: int, y: int, prior: Option<char>) -> Option<char> {
    let dh = 4 * ch;
    if x == 0 && y == ch / 2 {
        Some('𝄞')
    } else if cw >= 2 && clef_staff_len(dh) > 0 && 1 <= x <= shown && x <= cw - 1 && y == note_row(x - 1, dh, ch) {
        Some(note_glyph(x - 1))
    } else {
        prior
    }
}

/// The dots of a musical-staff frame `dw x dh` dots: the staff lines and,
/// when the bar has room for notes, the cursor at column `cursor_x` (kept
/// on the bar) on staff line `cursor_line` (kept on the staff).
pub open spec fn staff_dots(dw: int, dh: int, cursor_x: int, cursor_line: int) -> spec_fn(int, int) -> bool {
    |x: int, y: int|
        ((exists|k: int| 0 <= k < clef_staff_len(dh) && y == #[trigger] clef_staff_y(dh, k)) && 0 <= x <= dw - 1) || (dw
            >= 4 && clef_staff_len(dh) > 0 && x == (if cursor_x < dw - 1 { cursor_x } else { dw - 1 }) && y
            == clef_staff_y(
            dh,
            if cursor_line < clef_staff_len(dh) - 1 { cursor_line } else { clef_staff_len(dh) - 1 },
        ))
}

proof fn lemma_clef_rows(dh: int, i: int) by (nonlinear_arith)
    requires
        dh >= 4,
        clef_spacing(dh) >= 1,
        0 <= i,
    ensures
        (clef_spacing(dh) * (i + 1) < dh) <==> (i < (dh - 1) / clef_spacing(dh)),
{
}

impl MusicalStaff {
    /// Rows of the staff lines drawn on `grid`, top to bottom.
    pub fn staff_rows(&self, grid: &BrailleGrid) -> (ys: Vec<usize>)
        requires
            grid@.wf(),
        ensures
            ys.len() == clef_staff_len(grid@.dot_height() as int),
            forall|k: int| 0 <= k < ys.len() ==> #[trigger] ys[k] == clef_staff_y(grid@.dot_height() as int, k),
            forall|k: int| 0 <= k < ys.len() ==> #[trigger] ys[k] < grid@.dot_height(),
    {
        let (_, dh) = draw::dot_dims(grid);
        let ghost dhi = dh as int;
        let line_count = if dh < 5 { dh } else { 5 };
        let spacing = dh / (line_count + 1);
        let mut ys: Vec<usize> = Vec::new();
        let mut i: usize = 0;
        while i < line_count
            invariant
                dhi == dh,
                dh >= 4,
                line_count == staff_line_count(dhi),
                spacing as int == clef_spacing(dhi),
                i <= line_count,
                ys.len() == (if spacing == 0 { i as int } else if i < (dhi - 1) / spacing as int { i as int } else { (dhi - 1)
                    / spacing as int }),
                forall|k: int| 0 <= k < ys.len() ==> #[trigger] ys[k] == clef_staff_y(dhi, k),
                forall|k: int| 0 <= k < ys.len() ==> #[trigger] ys[k] < dh,
            decreases line_count - i,
        {
            proof {
                if spacing >= 1 {
                    lemma_clef_rows(dhi, i as int);
                }
                assert(spacing * (line_count + 1) <= dh) by (nonlinear_arith)
                    requires
                        spacing as int == dh as int / (line_count as int + 1),
                        line_count >= 1,
                ;
                assert(spacing * (i + 1) <= dh) by (nonlinear_arith)
                    requires
                        i + 1 <= line_count,
                        spacing * (line_count + 1) <= dh,
                        spacing >= 0,
                ;
            }
            let y = spacing * (i + 1);
            if y < dh {
                ys.push(y);
            }
            i = i + 1;
        }
        proof {
            if spacing >= 1 {
                lemma_clef_rows(dhi, line_count as int);
            }
        }
        ys
    }

    /// One frame of the musical staff: the staff lines, the clef, the first
    /// `notes_shown` notes one per column, and the cursor dot at column
    /// `cursor_x` on staff line `cursor_line`; a bar one cell wide has room
    /// for neither notes nor cursor.
    pub fn draw(&self, grid: &mut BrailleGrid, notes_shown: usize, cursor_x: usize, cursor_line: usize)
        requires
            old(grid)@.wf(),
        ensures
            final(grid)@.wf(),
            old(grid)@.gains_dots(
                (GridView { characters: old(grid)@.characters, ..final(grid)@ }),
                staff_dots(
                    old(grid)@.dot_width() as int,
                    old(grid)@.dot_height() as int,
                    cursor_x as int,
                    cursor_line as int,
                ),
            ),
            final(grid)@.characters.len() == old(grid)@.characters.len(),
            forall|x: int, y: int|
                old(grid)@.in_cells(x, y) ==> #[trigger] final(grid)@.characters[old(grid)@.cell_index(x, y)]
                    == staff_glyph(
                    old(grid)@.width as int,
                    old(grid)@.height as int,
                    notes_shown as int,
                    x,
                    y,
                    old(grid)@.characters[old(grid)@.cell_index(x, y)],
                ),
    {
        let ghost g0 = grid@;
        let (dw, dh) = draw::dot_dims(grid);
        let (cw, ch) = grid.dimensions();
        let ghost dhi = dh as int;
        let ys = self.staff_rows(grid);
        proof {
            lemma_gains_nothing(g0, |x: int, y: int| false);
        }
        let mut k: usize = 0;
        while k < ys.len()
            invariant
                g0.wf(),
                dw == g0.dot_width(),
                dh == g0.dot_height(),
                dhi == dh,
                ys.len() == clef_staff_len(dhi),
                forall|j: int| 0 <= j < ys.len() ==> #[trigger] ys[j] == clef_staff_y(dhi, j),
                k <= ys.len(),
                g0.gains_dots(
                    grid@,
                    |x: int, y: int| (exists|j: int| 0 <= j < k && y == #[trigger] clef_staff_y(dhi, j)) && 0 <= x <= dw - 1,
                ),
            decreases ys.len() - k,
        {
            let ghost before = |x: int, y: int| (exists|j: int| 0 <= j < k && y == #[trigger] clef_staff_y(dhi, j)) && 0 <= x <= dw - 1;
            let ghost after = |x: int, y: int| (exists|j: int| 0 <= j < k + 1 && y == #[trigger] clef_staff_y(dhi, j)) && 0 <= x <= dw - 1;
            let y = ys[k];
            let ghost g1 = grid@;
            draw::hline(grid, 0, dw - 1, y);
            proof {
                let seg = |px: int, py: int| py == y && (if 0 <= dw - 1 { 0 <= px <= dw - 1 } else { dw - 1 <= px <= 0 });
                assert forall|px: int, py: int| g0.in_dots(px, py) implies (after(px, py) <==> (before(px, py) || seg(px, py))) by {
                    if after(px, py) {
                        let j = choose|j: int| 0 <= j < k + 1 && py == #[trigger] clef_staff_y(dhi, j);
                        if j < k {
                            assert(before(px, py));
                        }
                    }
                    if before(px, py) {
                        let j = choose|j: int| 0 <= j < k && py == #[trigger] clef_staff_y(dhi, j);
                        assert(after(px, py));
                    }
                    if seg(px, py) {
                        assert(py == clef_staff_y(dhi, k as int));
                    }
                }
                lemma_gains_trans(g0, g1, grid@, before, seg, after);
            }
            k = k + 1;
        }
        let ghost lined = grid@;
        let ghost staff = |x: int, y: int| (exists|j: int| 0 <= j < clef_staff_len(dhi) && y == #[trigger] clef_staff_y(dhi, j)) && 0 <= x <= dw - 1;
        proof {
            assert forall|x: int, y: int| g0.in_dots(x, y) implies (#[trigger] lined.is_lit(x, y) <==> (g0.is_lit(x, y) || staff(
                x,
                y,
            ))) by {
                if staff(x, y) {
                    let j = choose|j: int| 0 <= j < clef_staff_len(dhi) && y == #[trigger] clef_staff_y(dhi, j);
                    assert(j < k);
                }
            }
        }
        let mid = ch / 2;
        draw::glyph(grid, 0, mid, '𝄞');
        let ghost clefed = grid@;
        proof {
            assert forall|x: int, y: int| g0.in_cells(x, y) implies #[trigger] clefed.characters[g0.cell_index(x, y)] == (if x == 0
                && y == mid {
                Some('𝄞')
            } else {
                g0.characters[g0.cell_index(x, y)]
            }) by {
                lemma_with_char_glyph(lined, 0, mid as int, '𝄞', x, y);
            }
        }
        let note_cols = cw - 1;
        if note_cols == 0 || ys.len() == 0 {
            proof {
                assert forall|x: int, y: int| g0.in_cells(x, y) implies #[trigger] grid@.characters[g0.cell_index(x, y)]
                    == staff_glyph(cw as int, ch as int, notes_shown as int, x, y, g0.characters[g0.cell_index(x, y)]) by {
                    assert(clefed.characters[g0.cell_index(x, y)] == (if x == 0 && y == mid {
                        Some('𝄞')
                    } else {
                        g0.characters[g0.cell_index(x, y)]
                    }));
                }
                let plain = GridView { characters: g0.characters, ..grid@ };
                assert(plain.patterns == lined.patterns);
                assert forall|x: int, y: int| g0.in_dots(x, y) implies (#[trigger] plain.is_lit(x, y) <==> (g0.is_lit(x, y)
                    || staff_dots(dw as int, dh as int, cursor_x as int, cursor_line as int)(x, y))) by {
                    assert(lined.is_lit(x, y) <==> (g0.is_lit(x, y) || staff(x, y)));
                }
            }
            return;
        }
        let shown = if notes_shown < note_cols { notes_shown } else { note_cols };
        let mut i: usize = 0;
        while i < shown
            invariant
                g0.wf(),
                grid@.wf(),
                cw == g0.width,
                ch == g0.height,
                dh == g0.dot_height(),
                dhi == dh,
                dh == 4 * ch,
                cw >= 2,
                mid == ch / 2,
                ys.len() == clef_staff_len(dhi),
                ys.len() > 0,
                forall|j: int| 0 <= j < ys.len() ==> #[trigger] ys[j] == clef_staff_y(dhi, j),
                shown == (if notes_shown < cw - 1 { notes_shown as int } else { cw - 1 }),
                i <= shown,
                grid@.width == g0.width,
                grid@.height == g0.height,
                grid@.patterns == lined.patterns,
                grid@.colors == g0.colors,
                forall|x: int, y: int|
                    g0.in_cells(x, y) ==> #[trigger] grid@.characters[g0.cell_index(x, y)] == (if x == 0 && y == mid {
                        Some('𝄞')
                    } else if 1 <= x <= i && y == note_row(x - 1, dhi, ch as int) {
                        Some(note_glyph(x - 1))
                    } else {
                        g0.characters[g0.cell_index(x, y)]
                    }),
            decreases shown - i,
        {
            let cx = i + 1;
            let li = i % ys.len();
            let dot_y = ys[li];
            let r = dot_y / 4;
            let cy = if r < ch - 1 { r } else { ch - 1 };
            let g = match i % 5 {
                0 => '♪',
                1 => '♫',
                2 => '♩',
                3 => '♪',
                _ => '♫',
            };
            assert(g == note_glyph(i as int));
            assert(cy == note_row(i as int, dhi, ch as int));
            let ghost before = grid@;
            draw::glyph(grid, cx, cy, g);
            proof {
                assert forall|x: int, y: int| g0.in_cells(x, y) implies #[trigger] grid@.characters[g0.cell_index(x, y)] == (if x
                    == 0 && y == mid {
                    Some('𝄞')
                } else if 1 <= x <= i + 1 && y == note_row(x - 1, dhi, ch as int) {
                    Some(note_glyph(x - 1))
                } else {
                    g0.characters[g0.cell_index(x, y)]
                }) by {
                    lemma_with_char_glyph(before, cx as int, cy as int, g, x, y);
                }
            }
            i = i + 1;
        }
        let ghost noted = grid@;
        let cl = if cursor_line < ys.len() - 1 { cursor_line } else { ys.len() - 1 };
        let cy = ys[cl];
        let cxd = if cursor_x < dw - 1 { cursor_x } else { dw - 1 };
        draw::dot(grid, cxd, cy);
        proof {
            assert forall|x: int, y: int| g0.in_cells(x, y) implies #[trigger] grid@.characters[g0.cell_index(x, y)]
                == staff_glyph(cw as int, ch as int, notes_shown as int, x, y, g0.characters[g0.cell_index(x, y)]) by {
                assert(noted.characters[g0.cell_index(x, y)] == (if x == 0 && y == mid {
                    Some('𝄞')
                } else if 1 <= x <= i && y == note_row(x - 1, dhi, ch as int) {
                    Some(note_glyph(x - 1))
                } else {
                    g0.characters[g0.cell_index(x, y)]
                }));
            }
            let plain = GridView { characters: g0.characters, ..grid@ };
            let plain_noted = GridView { characters: g0.characters, ..noted };
            assert(plain_noted.patterns == lined.patterns);
            assert(plain == plain_noted.with_dot(cxd as int, cy as int));
            assert forall|x: int, y: int| g0.in_dots(x, y) implies (#[trigger] plain_noted.is_lit(x, y) <==> (g0.is_lit(x, y)
                || staff(x, y))) by {
                assert(lined.is_lit(x, y) <==> (g0.is_lit(x, y) || staff(x, y)));
            }
            lemma_gains_dot(
                g0,
                plain_noted,
                cxd as int,
                cy as int,
                staff,
                staff_dots(dw as int, dh as int, cursor_x as int, cursor_line as int),
            );
        }
    }
}

} // verus!
