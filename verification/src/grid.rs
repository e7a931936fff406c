//! The braille cell canvas.

use vstd::prelude::*;

verus! {

/// RGB color.
#[derive(Debug, Clone, Copy, PartialEq, Eq, Structural)]
pub struct Color {
    pub r: u8,
    pub g: u8,
    pub b: u8,
}

impl Color {
    /// Builds a color from its three channels.
    pub fn rgb(r: u8, g: u8, b: u8) -> (c: Self)
        ensures
            c == (Color { r, g, b }),
    {
        Color { r, g, b }
    }
}

/// Errors reported by the grid.
#[derive(Debug, Clone, Copy, PartialEq, Eq, Structural)]
pub enum DotmaxError {
    /// A coordinate lay outside the lattice whose size is given.
    OutOfBounds { x: usize, y: usize, width: usize, height: usize },
}

/// Position of the braille dot `(col, row)` of a cell in the Unicode braille
/// bit numbering: the left column holds bits 0, 1, 2 and 6 from top to
/// bottom, the right column bits 3, 4, 5 and 7.
pub open spec fn dot_index(col: int, row: int) -> u8 {
    if col == 0 {
        if row == 0 { 0 } else if row == 1 { 1 } else if row == 2 { 2 } else { 6 }
    } else {
        if row == 0 { 3 } else if row == 1 { 4 } else if row == 2 { 5 } else { 7 }
    }
}

/// The braille numbering, in closed form: the upper three rows are dots 1 to
/// 3 down the left column and 4 to 6 down the right, the bottom row dots 7
/// (left) and 8 (right); dot `n` is bit `n - 1`. So the eight dots of a cell
/// take the eight bits of its byte, one each.
pub proof fn lemma_braille_numbering(col: int, row: int, col2: int, row2: int)
    requires
        0 <= col < 2,
        0 <= row < 4,
        0 <= col2 < 2,
        0 <= row2 < 4,
    ensures
        dot_index(col, row) == (if row < 3 { 3 * col + row } else { 6 + col }),
        dot_index(col, row) == dot_index(col2, row2) ==> col == col2 && row == row2,
{
}

/// The bit of a cell's pattern byte that stands for dot `(col, row)`.
pub open spec fn dot_bit(col: int, row: int) -> u8 {
    1u8 << dot_index(col, row)
}

/// The braille character whose dots are the bits of `pattern`.
pub open spec fn braille_char(pattern: u8) -> char {
    (0x2800int + pattern as int) as char
}

/// The blank braille character, shown for cells outside the grid.
pub open spec fn blank_char() -> char {
    '\u{2800}'
}

/// Abstract contents of a [`BrailleGrid`]: the lattice size in cells and,
/// row by row, each cell's dot pattern, glyph override and color.
pub ghost struct GridView {
    pub width: nat,
    pub height: nat,
    pub patterns: Seq<u8>,
    pub characters: Seq<Option<char>>,
    pub colors: Seq<Option<Color>>,
}

impl GridView {
    /// The sizes agree and fit the machine: the color buffer of
    /// `width * height` four-byte entries stays below `isize::MAX` bytes.
    pub open spec fn wf(self) -> bool {
        &&& self.width >= 1
        &&& self.height >= 1
        &&& 4 * (self.width * self.height) <= isize::MAX
        &&& self.patterns.len() == self.width * self.height
        &&& self.characters.len() == self.width * self.height
        &&& self.colors.len() == self.width * self.height
    }

    /// Width of the dot lattice.
    pub open spec fn dot_width(self) -> nat {
        2 * self.width
    }

    /// Height of the dot lattice.
    pub open spec fn dot_height(self) -> nat {
        4 * self.height
    }

    /// `(x, y)` is a dot of the lattice.
    pub open spec fn in_dots(self, x: int, y: int) -> bool {
        0 <= x < self.dot_width() && 0 <= y < self.dot_height()
    }

    /// `(x, y)` is a cell of the grid.
    pub open spec fn in_cells(self, x: int, y: int) -> bool {
        0 <= x < self.width && 0 <= y < self.height
    }

    /// Row-major index of cell `(x, y)`.
    pub open spec fn cell_index(self, x: int, y: int) -> int {
        y * self.width + x
    }

    /// Row-major index of the cell holding dot `(x, y)`.
    pub open spec fn dot_cell(self, x: int, y: int) -> int {
        self.cell_index(x / 2, y / 4)
    }

    /// Dot `(x, y)` is raised.
    pub open spec fn is_lit(self, x: int, y: int) -> bool {
        self.patterns[self.dot_cell(x, y)] & dot_bit(x % 2, y % 4) != 0
    }

    /// The grid with dot `(x, y)` raised; unchanged when the dot lies outside.
    pub open spec fn with_dot(self, x: int, y: int) -> GridView {
        if self.in_dots(x, y) {
            let i = self.dot_cell(x, y);
            GridView {
                patterns: self.patterns.update(i, self.patterns[i] | dot_bit(x % 2, y % 4)),
                ..self
            }
        } else {
            self
        }
    }

    /// The grid with the glyph of cell `(x, y)` set to `c`.
    pub open spec fn with_char(self, x: int, y: int, c: char) -> GridView {
        GridView { characters: self.characters.update(self.cell_index(x, y), Some(c)), ..self }
    }

    /// The grid with the color of cell `(x, y)` set to `color`.
    pub open spec fn with_color(self, x: int, y: int, color: Color) -> GridView {
        GridView { colors: self.colors.update(self.cell_index(x, y), Some(color)), ..self }
    }

    /// What cell `(x, y)` shows: its glyph override, else the braille
    /// character of its dots; blank outside the grid.
    pub open spec fn char_at(self, x: int, y: int) -> char {
        if self.in_cells(x, y) {
            match self.characters[self.cell_index(x, y)] {
                Some(c) => c,
                None => braille_char(self.patterns[self.cell_index(x, y)]),
            }
        } else {
            blank_char()
        }
    }

    /// The color of cell `(x, y)`; none outside the grid.
    pub open spec fn color_at(self, x: int, y: int) -> Option<Color> {
        if self.in_cells(x, y) {
            self.colors[self.cell_index(x, y)]
        } else {
            None
        }
    }

    /// `new` is this grid with more dots raised: exactly the dots of the
    /// lattice that were raised here or that `shape` holds of. Size, glyphs
    /// and colors are unchanged.
    pub open spec fn gains_dots(self, new: GridView, shape: spec_fn(int, int) -> bool) -> bool {
        &&& new.wf()
        &&& new.width == self.width
        &&& new.height == self.height
        &&& new.characters == self.characters
        &&& new.colors == self.colors
        &&& forall|x: int, y: int|
            self.in_dots(x, y) ==> (#[trigger] new.is_lit(x, y) <==> (self.is_lit(x, y) || shape(x, y)))
    }

    /// `new` is this grid with the colors of the cells that `area` holds of
    /// set to `color`; nothing else changes.
    pub open spec fn gains_color(self, new: GridView, area: spec_fn(int, int) -> bool, color: Color) -> bool {
        &&& new.wf()
        &&& new.width == self.width
        &&& new.height == self.height
        &&& new.patterns == self.patterns
        &&& new.characters == self.characters
        &&& forall|x: int, y: int|
            self.in_cells(x, y) ==> #[trigger] new.color_at(x, y) == (if area(x, y) {
                Some(color)
            } else {
                self.color_at(x, y)
            })
    }

    /// A freshly made grid of the given size: no dots, glyphs or colors.
    pub open spec fn blank(self, width: nat, height: nat) -> bool {
        &&& self.width == width
        &&& self.height == height
        &&& self.patterns == Seq::new(width * height, |i: int| 0u8)
        &&& self.characters == Seq::new(width * height, |i: int| None::<char>)
        &&& self.colors == Seq::new(width * height, |i: int| None::<Color>)
    }
}

/// Row-major indices of a `width x height` lattice stay inside it.
pub proof fn lemma_cell_index_bounds(x: int, y: int, width: int, height: int) by (nonlinear_arith)
    requires
        0 <= x < width,
        0 <= y < height,
    ensures
        0 <= y * width + x < width * height,
        y * width <= width * height - width,
{
}

/// Row-major indices are unique.
pub proof fn lemma_cell_index_unique(x1: int, y1: int, x2: int, y2: int, width: int) by (nonlinear_arith)
    requires
        0 <= x1 < width,
        0 <= x2 < width,
        0 <= y1,
        0 <= y2,
        y1 * width + x1 == y2 * width + x2,
    ensures
        x1 == x2,
        y1 == y2,
{
}

/// A grid at least one cell tall has no more columns than cells.
proof fn lemma_width_le_cells(width: int, height: int) by (nonlinear_arith)
    requires
        width >= 0,
        height >= 1,
    ensures
        width <= width * height,
        height <= width * height || width == 0,
{
}

proof fn lemma_bit_or(a: u8, i: u8, j: u8) by (bit_vector)
    requires
        i < 8,
        j < 8,
    ensures
        ((a | (1u8 << i)) & (1u8 << j) != 0) <==> ((a & (1u8 << j) != 0) || i == j),
{
}

/// The dot bits in exec form.
proof fn lemma_dot_bit_values()
    ensures
        dot_bit(0, 0) == 0x01,
        dot_bit(0, 1) == 0x02,
        dot_bit(0, 2) == 0x04,
        dot_bit(0, 3) == 0x40,
        dot_bit(1, 0) == 0x08,
        dot_bit(1, 1) == 0x10,
        dot_bit(1, 2) == 0x20,
        dot_bit(1, 3) == 0x80,
{
    assert(1u8 << 0u8 == 0x01u8) by (bit_vector);
    assert(1u8 << 1u8 == 0x02u8) by (bit_vector);
    assert(1u8 << 2u8 == 0x04u8) by (bit_vector);
    assert(1u8 << 6u8 == 0x40u8) by (bit_vector);
    assert(1u8 << 3u8 == 0x08u8) by (bit_vector);
    assert(1u8 << 4u8 == 0x10u8) by (bit_vector);
    assert(1u8 << 5u8 == 0x20u8) by (bit_vector);
    assert(1u8 << 7u8 == 0x80u8) by (bit_vector);
}

/// Raising one dot raises exactly that dot: every other dot of the lattice
/// keeps its state, and nothing but the dot patterns changes.
pub proof fn lemma_with_dot_lit(g: GridView, x: int, y: int, px: int, py: int)
    requires
        g.wf(),
        g.in_dots(px, py),
    ensures
        g.with_dot(x, y).is_lit(px, py) <==> (g.is_lit(px, py) || (px == x && py == y)),
        g.with_dot(x, y).wf(),
        g.with_dot(x, y).width == g.width,
        g.with_dot(x, y).height == g.height,
        g.with_dot(x, y).characters == g.characters,
        g.with_dot(x, y).colors == g.colors,
{
    if g.in_dots(x, y) {
        let w = g.width as int;
        let i = g.dot_cell(x, y);
        let j = g.dot_cell(px, py);
        lemma_cell_index_bounds(x / 2, y / 4, w, g.height as int);
        lemma_cell_index_bounds(px / 2, py / 4, w, g.height as int);
        let a = g.patterns[j];
        let bi = dot_index(x % 2, y % 4);
        let bj = dot_index(px % 2, py % 4);
        if i == j {
            lemma_cell_index_unique(x / 2, y / 4, px / 2, py / 4, w);
            lemma_bit_or(a, bi, bj);
            if bi == bj {
                assert(x % 2 == px % 2 && y % 4 == py % 4);
                assert(x == px && y == py);
            }
        } else {
            assert(g.with_dot(x, y).patterns[j] == a);
        }
    }
}

/// The pattern byte is the braille encoding: reading a cell without a glyph
/// gives `U+2800` plus its pattern, and the dot `(col, row)` of that cell is
/// raised exactly when bit `dot_index(col, row)` of the byte is set.
pub proof fn lemma_dot_in_char(g: GridView, x: int, y: int)
    requires
        g.wf(),
        g.in_dots(x, y),
        g.characters[g.dot_cell(x, y)] is None,
    ensures
        g.char_at(x / 2, y / 4) == braille_char(g.patterns[g.dot_cell(x, y)]),
        g.is_lit(x, y) <==> (g.patterns[g.dot_cell(x, y)] >> dot_index(x % 2, y % 4)) & 1 == 1,
{
    let p = g.patterns[g.dot_cell(x, y)];
    let k = dot_index(x % 2, y % 4);
    assert((p & (1u8 << k) != 0) <==> ((p >> k) & 1 == 1)) by (bit_vector)
        requires
            k < 8,
    ;
}

/// A grid gains no dots from an empty shape.
pub proof fn lemma_gains_nothing(g: GridView, shape: spec_fn(int, int) -> bool)
    requires
        g.wf(),
        forall|x: int, y: int| g.in_dots(x, y) ==> !shape(x, y),
    ensures
        g.gains_dots(g, shape),
{
}

/// Raising one more dot extends the shape that a grid has gained by it.
pub proof fn lemma_gains_dot(
    g0: GridView,
    g: GridView,
    x: int,
    y: int,
    shape: spec_fn(int, int) -> bool,
    next: spec_fn(int, int) -> bool,
)
    requires
        g0.gains_dots(g, shape),
        forall|px: int, py: int|
            g0.in_dots(px, py) ==> (next(px, py) <==> (shape(px, py) || (px == x && py == y))),
    ensures
        g0.gains_dots(g.with_dot(x, y), next),
{
    assert forall|px: int, py: int| g0.in_dots(px, py) implies (#[trigger] g.with_dot(x, y).is_lit(px, py)
        <==> (g0.is_lit(px, py) || next(px, py))) by {
        lemma_with_dot_lit(g, x, y, px, py);
    }
    lemma_with_dot_lit(g, x, y, 0, 0);
}

/// Gaining dots is transitive: shapes gained in turn add up.
pub proof fn lemma_gains_trans(
    g0: GridView,
    g1: GridView,
    g2: GridView,
    s1: spec_fn(int, int) -> bool,
    s2: spec_fn(int, int) -> bool,
    s: spec_fn(int, int) -> bool,
)
    requires
        g0.gains_dots(g1, s1),
        g1.gains_dots(g2, s2),
        forall|px: int, py: int| g0.in_dots(px, py) ==> (s(px, py) <==> (s1(px, py) || s2(px, py))),
    ensures
        g0.gains_dots(g2, s),
{
    assert forall|px: int, py: int| g0.in_dots(px, py) implies (#[trigger] g2.is_lit(px, py)
        <==> (g0.is_lit(px, py) || s(px, py))) by {
        assert(g1.in_dots(px, py));
        assert(g2.is_lit(px, py) <==> (g1.is_lit(px, py) || s2(px, py)));
        assert(g1.is_lit(px, py) <==> (g0.is_lit(px, py) || s1(px, py)));
    }
}

/// Setting one cell's color changes the color of that cell alone.
pub proof fn lemma_with_color_at(g: GridView, x: int, y: int, color: Color, px: int, py: int)
    requires
        g.wf(),
        g.in_cells(x, y),
        g.in_cells(px, py),
    ensures
        g.with_color(x, y, color).color_at(px, py) == (if px == x && py == y {
            Some(color)
        } else {
            g.color_at(px, py)
        }),
        g.with_color(x, y, color).wf(),
{
    lemma_cell_index_bounds(x, y, g.width as int, g.height as int);
    lemma_cell_index_bounds(px, py, g.width as int, g.height as int);
    if g.cell_index(x, y) == g.cell_index(px, py) {
        lemma_cell_index_unique(x, y, px, py, g.width as int);
    }
}

/// Setting one cell's glyph changes what that cell alone shows.
pub proof fn lemma_with_char_at(g: GridView, x: int, y: int, c: char, px: int, py: int)
    requires
        g.wf(),
        g.in_cells(x, y),
    ensures
        g.with_char(x, y, c).char_at(px, py) == (if px == x && py == y {
            c
        } else {
            g.char_at(px, py)
        }),
        g.with_char(x, y, c).wf(),
{
    lemma_cell_index_bounds(x, y, g.width as int, g.height as int);
    if g.in_cells(px, py) {
        lemma_cell_index_bounds(px, py, g.width as int, g.height as int);
        if g.cell_index(x, y) == g.cell_index(px, py) {
            lemma_cell_index_unique(x, y, px, py, g.width as int);
        }
    }
}

/// Setting one cell's glyph sets that cell's override alone.
pub proof fn lemma_with_char_glyph(g: GridView, x: int, y: int, c: char, px: int, py: int)
    requires
        g.wf(),
        g.in_cells(x, y),
        g.in_cells(px, py),
    ensures
        g.with_char(x, y, c).characters[g.cell_index(px, py)] == (if px == x && py == y {
            Some(c)
        } else {
            g.characters[g.cell_index(px, py)]
        }),
        g.with_char(x, y, c).wf(),
{
    lemma_cell_index_bounds(x, y, g.width as int, g.height as int);
    lemma_cell_index_bounds(px, py, g.width as int, g.height as int);
    if g.cell_index(x, y) == g.cell_index(px, py) {
        lemma_cell_index_unique(x, y, px, py, g.width as int);
    }
}

/// A width-by-height braille canvas: every cell is 2x4 braille dots, an
/// optional glyph override, and an optional color.
pub struct BrailleGrid {
    width: usize,
    height: usize,
    patterns: Vec<u8>,
    characters: Vec<Option<char>>,
    colors: Vec<Option<Color>>,
}

impl View for BrailleGrid {
    type V = GridView;

    closed spec fn view(&self) -> GridView {
        GridView {
            width: self.width as nat,
            height: self.height as nat,
            patterns: self.patterns@,
            characters: self.characters@,
            colors: self.colors@,
        }
    }
}

/// Wraps `char::from_u32` of std. Its documentation: the result is the char
/// with that code when the code is a Unicode scalar value (at most 0x10FFFF
/// and outside the surrogates 0xD800..=0xDFFF), and `None` otherwise.
#[verifier::external_body]
fn char_from_u32(i: u32) -> (r: Option<char>)
    ensures
        (i <= 0x10FFFF && !(0xD800 <= i <= 0xDFFF)) ==> r == Some(i as char),
        !(i <= 0x10FFFF && !(0xD800 <= i <= 0xDFFF)) ==> r is None,
{
    char::from_u32(i)
}

impl BrailleGrid {
    /// Makes a blank grid of `max(width, 1) x max(height, 1)` cells. Never
    /// fails; the size must leave the color buffer addressable.
    pub fn new(width: usize, height: usize) -> (r: Result<Self, DotmaxError>)
        requires
            4 * ((if width == 0 { 1int } else { width as int }) * (if height == 0 { 1int } else { height as int })) <= isize::MAX,
        ensures
            r matches Ok(g) && g@.wf() && g@.blank(
                (if width == 0 { 1nat } else { width as nat }),
                (if height == 0 { 1nat } else { height as nat }),
            ),
    {
        let width = if width == 0 { 1 } else { width };
        let height = if height == 0 { 1 } else { height };
        proof {
            lemma_width_le_cells(width as int, height as int);
        }
        let n = width * height;
        let mut patterns: Vec<u8> = Vec::new();
        let mut characters: Vec<Option<char>> = Vec::new();
        let mut colors: Vec<Option<Color>> = Vec::new();
        let mut i: usize = 0;
        while i < n
            invariant
                i <= n,
                patterns@ == Seq::new(i as nat, |k: int| 0u8),
                characters@ == Seq::new(i as nat, |k: int| None::<char>),
                colors@ == Seq::new(i as nat, |k: int| None::<Color>),
            decreases n - i,
        {
            patterns.push(0);
            characters.push(None);
            colors.push(None);
            i = i + 1;
            assert(patterns@ =~= Seq::new(i as nat, |k: int| 0u8));
            assert(characters@ =~= Seq::new(i as nat, |k: int| None::<char>));
            assert(colors@ =~= Seq::new(i as nat, |k: int| None::<Color>));
        }
        Ok(BrailleGrid { width, height, patterns, characters, colors })
    }

    /// The size in cells, `(width, height)`.
    pub fn dimensions(&self) -> (r: (usize, usize))
        requires
            self@.wf(),
        ensures
            r.0 == self@.width,
            r.1 == self@.height,
    {
        (self.width, self.height)
    }

    /// Raises dot `(dot_x, dot_y)` of the `2*width x 4*height` dot lattice.
    /// Outside the lattice it changes nothing and reports the lattice size.
    pub fn set_dot(&mut self, dot_x: usize, dot_y: usize) -> (r: Result<(), DotmaxError>)
        requires
            old(self)@.wf(),
        ensures
            final(self)@.wf(),
            write_step(old(self)@, GridWrite::Dot(dot_x as int, dot_y as int), final(self)@),
            old(self)@.in_dots(dot_x as int, dot_y as int) ==> r is Ok && final(self)@ == old(self)@.with_dot(dot_x as int, dot_y as int),
            !old(self)@.in_dots(dot_x as int, dot_y as int) ==> r == Err::<(), DotmaxError>(DotmaxError::OutOfBounds {
                x: dot_x,
                y: dot_y,
                width: (2 * old(self)@.width) as usize,
                height: (4 * old(self)@.height) as usize,
            }) && final(self)@ == old(self)@,
    {
        proof {
            lemma_width_le_cells(self.width as int, self.height as int);
            lemma_width_le_cells(self.height as int, self.width as int);
        }
        if dot_x >= self.width * 2 || dot_y >= self.height * 4 {
            return Err(DotmaxError::OutOfBounds {
                x: dot_x,
                y: dot_y,
                width: self.width * 2,
                height: self.height * 4,
            });
        }
        proof {
            lemma_cell_index_bounds((dot_x / 2) as int, (dot_y / 4) as int, self.width as int, self.height as int);
            lemma_dot_bit_values();
        }
        let index = (dot_y / 4) * self.width + dot_x / 2;
        let bit: u8 = match (dot_x % 2, dot_y % 4) {
            (0, 0) => 0x01,
            (0, 1) => 0x02,
            (0, 2) => 0x04,
            (0, 3) => 0x40,
            (1, 0) => 0x08,
            (1, 1) => 0x10,
            (1, 2) => 0x20,
            _ => 0x80,
        };
        let cur = self.patterns[index];
        self.patterns.set(index, cur | bit);
        assert(self@ =~= old(self)@.with_dot(dot_x as int, dot_y as int));
        Ok(())
    }

    /// Sets the glyph of cell `(x, y)`, which overrides its dots when shown.
    pub fn set_char(&mut self, x: usize, y: usize, character: char) -> (r: Result<(), DotmaxError>)
        requires
            old(self)@.wf(),
        ensures
            final(self)@.wf(),
            write_step(old(self)@, GridWrite::Glyph(x as int, y as int, character), final(self)@),
            old(self)@.in_cells(x as int, y as int) ==> r is Ok && final(self)@ == old(self)@.with_char(x as int, y as int, character),
            !old(self)@.in_cells(x as int, y as int) ==> r == Err::<(), DotmaxError>(DotmaxError::OutOfBounds {
                x,
                y,
                width: old(self)@.width as usize,
                height: old(self)@.height as usize,
            }) && final(self)@ == old(self)@,
    {
        self.check_cell(x, y)?;
        proof {
            lemma_cell_index_bounds(x as int, y as int, self.width as int, self.height as int);
        }
        let i = y * self.width + x;
        self.characters.set(i, Some(character));
        assert(self@ =~= old(self)@.with_char(x as int, y as int, character));
        Ok(())
    }

    /// Sets the color of cell `(x, y)`.
    pub fn set_cell_color(&mut self, x: usize, y: usize, color: Color) -> (r: Result<(), DotmaxError>)
        requires
            old(self)@.wf(),
        ensures
            final(self)@.wf(),
            write_step(old(self)@, GridWrite::Tint(x as int, y as int, color), final(self)@),
            old(self)@.in_cells(x as int, y as int) ==> r is Ok && final(self)@ == old(self)@.with_color(x as int, y as int, color),
            !old(self)@.in_cells(x as int, y as int) ==> r == Err::<(), DotmaxError>(DotmaxError::OutOfBounds {
                x,
                y,
                width: old(self)@.width as usize,
                height: old(self)@.height as usize,
            }) && final(self)@ == old(self)@,
    {
        self.check_cell(x, y)?;
        proof {
            lemma_cell_index_bounds(x as int, y as int, self.width as int, self.height as int);
        }
        let i = y * self.width + x;
        self.colors.set(i, Some(color));
        assert(self@ =~= old(self)@.with_color(x as int, y as int, color));
        Ok(())
    }

    /// Colors are always stored; there is nothing to switch on.
    pub fn enable_color_support(&mut self)
        requires
            old(self)@.wf(),
        ensures
            final(self)@ == old(self)@,
    {
    }

    /// The character cell `(x, y)` shows: its glyph if one was set, else the
    /// braille character of its dots; blank braille outside the grid.
    pub fn get_char(&self, x: usize, y: usize) -> (c: char)
        requires
            self@.wf(),
        ensures
            c == self@.char_at(x as int, y as int),
    {
        if x >= self.width || y >= self.height {
            return '\u{2800}';
        }
        proof {
            lemma_cell_index_bounds(x as int, y as int, self.width as int, self.height as int);
        }
        let index = y * self.width + x;
        if let Some(ch) = self.characters[index] {
            return ch;
        }
        let code: u32 = 0x2800u32 + (self.patterns[index] as u32);
        match char_from_u32(code) {
            Some(ch) => ch,
            None => '\u{2800}',
        }
    }

    /// The color of cell `(x, y)`; `None` outside the grid or when unset.
    pub fn get_color(&self, x: usize, y: usize) -> (r: Option<Color>)
        requires
            self@.wf(),
        ensures
            r == self@.color_at(x as int, y as int),
    {
        if x >= self.width || y >= self.height {
            return None;
        }
        proof {
            lemma_cell_index_bounds(x as int, y as int, self.width as int, self.height as int);
        }
        self.colors[y * self.width + x]
    }

    /// The text of the grid, row by row: character `x` of row `y` is what
    /// cell `(x, y)` shows, its glyph or the braille character of its dots.
    pub fn rows(&self) -> (rows: Vec<Vec<char>>)
        requires
            self@.wf(),
        ensures
            rows.len() == self@.height,
            forall|y: int| 0 <= y < rows.len() ==> (#[trigger] rows[y]).len() == self@.width,
            forall|x: int, y: int|
                0 <= y < rows.len() && 0 <= x < self@.width ==> #[trigger] rows[y][x] == self@.char_at(x, y),
    {
        let (w, h) = self.dimensions();
        let mut rows: Vec<Vec<char>> = Vec::new();
        let mut y: usize = 0;
        while y < h
            invariant
                self@.wf(),
                w == self@.width,
                h == self@.height,
                y <= h,
                rows.len() == y,
                forall|j: int| 0 <= j < rows.len() ==> (#[trigger] rows[j]).len() == w,
                forall|i: int, j: int| 0 <= j < rows.len() && 0 <= i < w ==> #[trigger] rows[j][i] == self@.char_at(i, j),
            decreases h - y,
        {
            let mut row: Vec<char> = Vec::new();
            let mut x: usize = 0;
            while x < w
                invariant
                    self@.wf(),
                    w == self@.width,
                    x <= w,
                    row.len() == x,
                    forall|i: int| 0 <= i < row.len() ==> #[trigger] row[i] == self@.char_at(i, y as int),
                decreases w - x,
            {
                row.push(self.get_char(x, y));
                x = x + 1;
            }
            rows.push(row);
            y = y + 1;
        }
        rows
    }

    fn check_cell(&self, x: usize, y: usize) -> (r: Result<(), DotmaxError>)
        requires
            self@.wf(),
        ensures
            self@.in_cells(x as int, y as int) ==> r is Ok,
            !self@.in_cells(x as int, y as int) ==> r == Err::<(), DotmaxError>(DotmaxError::OutOfBounds {
                x,
                y,
                width: self@.width as usize,
                height: self@.height as usize,
            }),
    {
        if x >= self.width || y >= self.height {
            return Err(DotmaxError::OutOfBounds { x, y, width: self.width, height: self.height });
        }
        Ok(())
    }
}

/// One write to a grid: raising a dot (`set_dot`, `draw::dot`), setting a
/// cell's glyph (`set_char`) or color (`set_cell_color`), raising the dots
/// of a shape (every dot-drawing helper) or coloring the cells of an area
/// (`draw::tint_row`).
pub ghost enum GridWrite {
    Dot(int, int),
    Glyph(int, int, char),
    Tint(int, int, Color),
    Dots(spec_fn(int, int) -> bool),
    Tints(spec_fn(int, int) -> bool, Color),
}

/// Grid `b` is what the write `op` leaves of grid `a`, as the contracts of
/// the calls that perform it state: writes outside the grid change nothing.
pub open spec fn write_step(a: GridView, op: GridWrite, b: GridView) -> bool {
    match op {
        GridWrite::Dot(x, y) => b == a.with_dot(x, y),
        GridWrite::Glyph(x, y, c) => b == (if a.in_cells(x, y) { a.with_char(x, y, c) } else { a }),
        GridWrite::Tint(x, y, color) => b == (if a.in_cells(x, y) { a.with_color(x, y, color) } else { a }),
        GridWrite::Dots(shape) => a.gains_dots(b, shape),
        GridWrite::Tints(area, color) => a.gains_color(b, area, color),
    }
}

/// `gs` is the history of a grid under the writes `ops`: `gs[i + 1]` is what
/// write `i` leaves of `gs[i]`.
pub open spec fn write_run(gs: Seq<GridView>, ops: Seq<GridWrite>) -> bool {
    &&& gs.len() == ops.len() + 1
    &&& forall|i: int| 0 <= i < ops.len() ==> write_step(gs[i], #[trigger] ops[i], gs[i + 1])
}

/// Write `op` sets the glyph of cell `(x, y)`.
pub open spec fn writes_glyph(op: GridWrite, x: int, y: int) -> bool {
    op matches GridWrite::Glyph(a, b, _) && a == x && b == y
}

/// The color cell `(x, y)` holds after the writes `ops`, starting from
/// `prior`: the color of the last write that colors it, else `prior`.
pub open spec fn color_after(ops: Seq<GridWrite>, x: int, y: int, prior: Option<Color>) -> Option<Color>
    decreases ops.len(),
{
    if ops.len() == 0 {
        prior
    } else {
        let next = match ops[0] {
            GridWrite::Tint(a, b, color) => if a == x && b == y { Some(color) } else { prior },
            GridWrite::Tints(area, color) => if area(x, y) { Some(color) } else { prior },
            _ => prior,
        };
        color_after(ops.drop_first(), x, y, next)
    }
}

proof fn lemma_step_keeps_size(a: GridView, op: GridWrite, b: GridView)
    requires
        a.wf(),
        write_step(a, op, b),
    ensures
        b.wf(),
        b.width == a.width,
        b.height == a.height,
{
    match op {
        GridWrite::Dot(x, y) => {
            lemma_with_dot_lit(a, x, y, 0, 0);
        },
        GridWrite::Glyph(x, y, c) => {
            if a.in_cells(x, y) {
                lemma_with_char_glyph(a, x, y, c, x, y);
            }
        },
        GridWrite::Tint(x, y, color) => {
            if a.in_cells(x, y) {
                lemma_with_color_at(a, x, y, color, x, y);
            }
        },
        _ => {},
    }
}

/// A run of writes that starts on a grid starts it again one write later.
proof fn lemma_run_tail(gs: Seq<GridView>, ops: Seq<GridWrite>)
    requires
        write_run(gs, ops),
        ops.len() >= 1,
    ensures
        write_run(gs.drop_first(), ops.drop_first()),
        write_step(gs[0], ops[0], gs[1]),
{
    assert(write_step(gs[0], ops[0], gs[1]));
    assert forall|i: int| 0 <= i < ops.len() - 1 implies write_step(
        gs.drop_first()[i],
        #[trigger] ops.drop_first()[i],
        gs.drop_first()[i + 1],
    ) by {
        assert(write_step(gs[i + 1], ops[i + 1], gs[i + 2]));
    }
}

/// No write ever changes a grid's size: every grid of a history has the
/// width and height it started with, and stays well formed.
pub proof fn lemma_writes_keep_size(gs: Seq<GridView>, ops: Seq<GridWrite>)
    requires
        write_run(gs, ops),
        gs[0].wf(),
    ensures
        forall|i: int|
            0 <= i < gs.len() ==> (#[trigger] gs[i]).wf() && gs[i].width == gs[0].width && gs[i].height == gs[0].height,
    decreases ops.len(),
{
    if ops.len() > 0 {
        lemma_run_tail(gs, ops);
        lemma_step_keeps_size(gs[0], ops[0], gs[1]);
        lemma_writes_keep_size(gs.drop_first(), ops.drop_first());
        assert forall|i: int| 0 <= i < gs.len() implies (#[trigger] gs[i]).wf() && gs[i].width == gs[0].width
            && gs[i].height == gs[0].height by {
            if i > 0 {
                assert(gs[i] == gs.drop_first()[i - 1]);
            }
        }
    }
}

/// Raising a dot twice is raising it once.
pub proof fn lemma_dot_idempotent(g: GridView, x: int, y: int)
    requires
        g.wf(),
    ensures
        g.with_dot(x, y).with_dot(x, y) == g.with_dot(x, y),
{
    if g.in_dots(x, y) {
        let i = g.dot_cell(x, y);
        lemma_cell_index_bounds(x / 2, y / 4, g.width as int, g.height as int);
        let p = g.patterns[i];
        let k = dot_index(x % 2, y % 4);
        assert((p | (1u8 << k)) | (1u8 << k) == p | (1u8 << k)) by (bit_vector);
        assert(g.with_dot(x, y).with_dot(x, y).patterns =~= g.with_dot(x, y).patterns);
    }
}

/// Raising two dots gives the same grid in either order.
pub proof fn lemma_dots_commute(g: GridView, x1: int, y1: int, x2: int, y2: int)
    requires
        g.wf(),
    ensures
        g.with_dot(x1, y1).with_dot(x2, y2) == g.with_dot(x2, y2).with_dot(x1, y1),
{
    if g.in_dots(x1, y1) && g.in_dots(x2, y2) {
        let i = g.dot_cell(x1, y1);
        let j = g.dot_cell(x2, y2);
        lemma_cell_index_bounds(x1 / 2, y1 / 4, g.width as int, g.height as int);
        lemma_cell_index_bounds(x2 / 2, y2 / 4, g.width as int, g.height as int);
        let b1 = dot_bit(x1 % 2, y1 % 4);
        let b2 = dot_bit(x2 % 2, y2 % 4);
        if i == j {
            let p = g.patterns[i];
            assert((p | b1) | b2 == (p | b2) | b1) by (bit_vector);
        }
        assert(g.with_dot(x1, y1).with_dot(x2, y2).patterns =~= g.with_dot(x2, y2).with_dot(x1, y1).patterns);
    }
}

/// A glyph keeps showing: once cell `(x, y)` holds glyph `c`, it shows `c`
/// after any writes that set no other glyph on it, whatever dots and colors
/// they add.
pub proof fn lemma_glyph_persists(gs: Seq<GridView>, ops: Seq<GridWrite>, x: int, y: int, c: char)
    requires
        write_run(gs, ops),
        gs[0].wf(),
        gs[0].in_cells(x, y),
        gs[0].characters[gs[0].cell_index(x, y)] == Some(c),
        forall|i: int| 0 <= i < ops.len() ==> !writes_glyph(#[trigger] ops[i], x, y),
    ensures
        gs.last().characters[gs[0].cell_index(x, y)] == Some(c),
        gs.last().char_at(x, y) == c,
    decreases ops.len(),
{
    if ops.len() > 0 {
        lemma_run_tail(gs, ops);
        let (a, b) = (gs[0], gs[1]);
        lemma_step_keeps_size(a, ops[0], b);
        assert(!writes_glyph(ops[0], x, y));
        match ops[0] {
            GridWrite::Glyph(u, v, d) => {
                if a.in_cells(u, v) {
                    lemma_with_char_glyph(a, u, v, d, x, y);
                }
            },
            _ => {},
        }
        assert(b.characters[a.cell_index(x, y)] == Some(c));
        assert forall|i: int| 0 <= i < ops.len() - 1 implies !writes_glyph(#[trigger] ops.drop_first()[i], x, y) by {
            assert(!writes_glyph(ops[i + 1], x, y));
        }
        lemma_glyph_persists(gs.drop_first(), ops.drop_first(), x, y, c);
        assert(gs.drop_first().last() == gs.last());
    }
}

/// Colors are last-write-wins: after any writes, cell `(x, y)` of the grid
/// holds the color of the last write that colored it, or the color it
/// started with when none did (none on a fresh grid). Outside the grid
/// there is never a color.
pub proof fn lemma_color_last_write(gs: Seq<GridView>, ops: Seq<GridWrite>, x: int, y: int)
    requires
        write_run(gs, ops),
        gs[0].wf(),
    ensures
        gs[0].in_cells(x, y) ==> gs.last().color_at(x, y) == color_after(ops, x, y, gs[0].color_at(x, y)),
        !gs[0].in_cells(x, y) ==> gs.last().color_at(x, y) is None,
    decreases ops.len(),
{
    lemma_writes_keep_size(gs, ops);
    assert(gs.last() == gs[gs.len() - 1]);
    if ops.len() > 0 {
        lemma_run_tail(gs, ops);
        let (a, b) = (gs[0], gs[1]);
        lemma_step_keeps_size(a, ops[0], b);
        if a.in_cells(x, y) {
            match ops[0] {
                GridWrite::Tint(u, v, color) => {
                    if a.in_cells(u, v) {
                        lemma_with_color_at(a, u, v, color, x, y);
                    }
                },
                GridWrite::Dot(u, v) => {
                    lemma_with_dot_lit(a, u, v, 0, 0);
                },
                GridWrite::Glyph(u, v, d) => {
                    if a.in_cells(u, v) {
                        lemma_with_char_glyph(a, u, v, d, x, y);
                    }
                },
                _ => {},
            }
        }
        lemma_color_last_write(gs.drop_first(), ops.drop_first(), x, y);
        assert(gs.drop_first().last() == gs.last());
    }
}

} // verus!
