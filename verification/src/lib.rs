//! Braille-dot terminal canvas and the progress-bar styles drawn on it.
//!
//! A [`BrailleGrid`] is a `width x height` lattice of terminal cells; each
//! cell holds eight braille dots (2 wide, 4 tall), an optional glyph that
//! overrides the dots, and an optional color. The `progress` module holds the
//! drawing helpers, the style catalogue and the integer algorithms that the
//! styles plot.

pub mod grid;
pub mod progress;

pub use grid::{BrailleGrid, Color, DotmaxError};
