//! Progress bars drawn on a braille grid.
//!
//! Everything a bar needs arrives through its per-frame inputs, and every bar
//! is a stateless implementor of [`ProgressStyle`]. This module holds what of
//! that is exact: the style metadata, the palette, the drawing helpers and the
//! integer algorithms that the styles plot.

pub mod draw;
pub mod easing;
pub mod styles;

pub use easing::Easing;

use vstd::prelude::*;
use crate::grid::{blank_char, lemma_with_color_at, BrailleGrid, Color, GridView};

verus! {

/// A two-stop accent palette plus a track (background) color.
#[derive(Debug, Clone, Copy)]
pub struct Palette {
    /// Color at the left / start of the fill.
    pub start: Color,
    /// Color at the right / leading edge of the fill.
    pub end: Color,
    /// Color of the unfilled track.
    pub track: Color,
}

impl Default for Palette {
    /// Cyan to violet over a slate track.
    fn default() -> (p: Self)
        ensures
            p.start == (Color { r: 0, g: 200, b: 255 }),
            p.end == (Color { r: 120, g: 80, b: 255 }),
            p.track == (Color { r: 40, g: 40, b: 50 }),
    {
        Self {
            start: Color::rgb(0, 200, 255),
            end: Color::rgb(120, 80, 255),
            track: Color::rgb(40, 40, 50),
        }
    }
}

/// What a loading-bar style is called and how it presents itself. One
/// stateless type per visual style.
pub trait ProgressStyle {
    /// The style's identifier.
    spec fn style_name(&self) -> Seq<char>;

    /// The theme the style belongs to.
    spec fn style_theme(&self) -> Seq<char>;

    /// The style's one-line description.
    spec fn style_description(&self) -> Seq<char>;

    /// Stable, kebab-case identifier (unique within a theme).
    fn name(&self) -> (r: &str)
        ensures
            r@ == self.style_name(),
    ;

    /// Theme this style belongs to (e.g. `"music"`).
    fn theme(&self) -> (r: &str)
        ensures
            r@ == self.style_theme(),
    ;

    /// One-line human description for galleries and pickers.
    fn describe(&self) -> (r: &str)
        ensures
            r@ == self.style_description(),
    ;
}

/// A style drawn with its theme's signature gradient over every cell it
/// lit. It presents itself exactly as the inner style does.
pub struct Tinted<S>(pub S);

impl<S: ProgressStyle> ProgressStyle for Tinted<S> {
    open spec fn style_name(&self) -> Seq<char> {
        self.0.style_name()
    }

    open spec fn style_theme(&self) -> Seq<char> {
        self.0.style_theme()
    }

    open spec fn style_description(&self) -> Seq<char> {
        self.0.style_description()
    }

    fn name(&self) -> (r: &str) {
        self.0.name()
    }

    fn theme(&self) -> (r: &str) {
        self.0.theme()
    }

    fn describe(&self) -> (r: &str) {
        self.0.describe()
    }
}

/// Cell `(x, y)` shows ink: what it displays is neither the blank braille
/// character nor a space.
pub open spec fn shows_ink(g: GridView, x: int, y: int) -> bool {
    g.char_at(x, y) != blank_char() && g.char_at(x, y) != ' '
}

/// The coloring step of a tinted style: every cell that shows ink takes the
/// color given for its column; cells that show nothing keep theirs. Dots and
/// glyphs are untouched.
pub fn tint_inked_cells(grid: &mut BrailleGrid, column_colors: &Vec<Color>)
    requires
        old(grid)@.wf(),
        column_colors.len() >= old(grid)@.width,
    ensures
        final(grid)@.wf(),
        final(grid)@.width == old(grid)@.width,
        final(grid)@.height == old(grid)@.height,
        final(grid)@.patterns == old(grid)@.patterns,
        final(grid)@.characters == old(grid)@.characters,
        forall|x: int, y: int|
            old(grid)@.in_cells(x, y) ==> #[trigger] final(grid)@.color_at(x, y) == (if shows_ink(old(grid)@, x, y) {
                Some(column_colors@[x])
            } else {
                old(grid)@.color_at(x, y)
            }),
{
    let ghost g0 = grid@;
    grid.enable_color_support();
    let (w, h) = grid.dimensions();
    let mut y: usize = 0;
    while y < h
        invariant
            g0.wf(),
            grid@.wf(),
            w == g0.width,
            h == g0.height,
            column_colors.len() >= w,
            y <= h,
            grid@.width == g0.width,
            grid@.height == g0.height,
            grid@.patterns == g0.patterns,
            grid@.characters == g0.characters,
            forall|px: int, py: int|
                g0.in_cells(px, py) ==> #[trigger] grid@.color_at(px, py) == (if py < y && shows_ink(g0, px, py) {
                    Some(column_colors@[px])
                } else {
                    g0.color_at(px, py)
                }),
        decreases h - y,
    {
        let mut x: usize = 0;
        while x < w
            invariant
                g0.wf(),
                grid@.wf(),
                w == g0.width,
                h == g0.height,
                column_colors.len() >= w,
                y < h,
                x <= w,
                grid@.width == g0.width,
                grid@.height == g0.height,
                grid@.patterns == g0.patterns,
                grid@.characters == g0.characters,
                forall|px: int, py: int|
                    g0.in_cells(px, py) ==> #[trigger] grid@.color_at(px, py) == (if (py < y || (py == y && px
                        < x)) && shows_ink(g0, px, py) {
                        Some(column_colors@[px])
                    } else {
                        g0.color_at(px, py)
                    }),
            decreases w - x,
        {
            let ch = grid.get_char(x, y);
            assert(ch == g0.char_at(x as int, y as int));
            if ch != '\u{2800}' && ch != ' ' {
                let ghost before = grid@;
                let _ = grid.set_cell_color(x, y, column_colors[x]);
                proof {
                    assert forall|px: int, py: int| g0.in_cells(px, py) implies #[trigger] grid@.color_at(px, py) == (if (py
                        < y || (py == y && px < x + 1)) && shows_ink(g0, px, py) {
                        Some(column_colors@[px])
                    } else {
                        g0.color_at(px, py)
                    }) by {
                        lemma_with_color_at(before, x as int, y as int, column_colors@[x as int], px, py);
                        assert(before.color_at(px, py) == (if (py < y || (py == y && px < x)) && shows_ink(g0, px, py) {
                            Some(column_colors@[px])
                        } else {
                            g0.color_at(px, py)
                        }));
                    }
                }
            }
            x = x + 1;
        }
        y = y + 1;
    }
}

} // verus!
