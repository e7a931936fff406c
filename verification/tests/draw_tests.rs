use dotmax::progress::draw;
use dotmax::progress::tint_inked_cells;
use dotmax::{BrailleGrid, Color};

fn lit(grid: &BrailleGrid, x: usize, y: usize) -> bool {
    let c = grid.get_char(x / 2, y / 4) as u32 - 0x2800;
    let bit = match (x % 2, y % 4) {
        (0, 0) => 0x01,
        (0, 1) => 0x02,
        (0, 2) => 0x04,
        (0, 3) => 0x40,
        (1, 0) => 0x08,
        (1, 1) => 0x10,
        (1, 2) => 0x20,
        _ => 0x80,
    };
    c & bit != 0
}

fn lit_set(grid: &BrailleGrid) -> Vec<(usize, usize)> {
    let (w, h) = draw::dot_dims(grid);
    let mut v = Vec::new();
    for y in 0..h {
        for x in 0..w {
            if lit(grid, x, y) {
                v.push((x, y));
            }
        }
    }
    v
}

#[test]
fn dot_dims_doubles_and_quadruples() {
    let grid = BrailleGrid::new(5, 3).unwrap();
    assert_eq!(draw::dot_dims(&grid), (10, 12));
}

#[test]
fn dot_ignores_out_of_bounds() {
    let mut grid = BrailleGrid::new(1, 1).unwrap();
    draw::dot(&mut grid, 2, 0);
    draw::dot(&mut grid, 0, 4);
    draw::dot_i(&mut grid, -1, 0);
    draw::dot_i(&mut grid, 0, -3);
    assert!(lit_set(&grid).is_empty());
    draw::dot_i(&mut grid, 1, 3);
    assert_eq!(lit_set(&grid), vec![(1, 3)]);
}

#[test]
fn hline_covers_both_orders() {
    let mut grid = BrailleGrid::new(4, 1).unwrap();
    draw::hline(&mut grid, 5, 2, 1);
    assert_eq!(lit_set(&grid), vec![(2, 1), (3, 1), (4, 1), (5, 1)]);
    let mut grid = BrailleGrid::new(4, 1).unwrap();
    draw::hline(&mut grid, 6, 20, 0);
    assert_eq!(lit_set(&grid), vec![(6, 0), (7, 0)]);
}

#[test]
fn vline_covers_both_orders() {
    let mut grid = BrailleGrid::new(1, 2).unwrap();
    draw::vline(&mut grid, 1, 6, 3);
    assert_eq!(lit_set(&grid), vec![(1, 3), (1, 4), (1, 5), (1, 6)]);
}

#[test]
fn fill_rect_fills_half_open_rectangle() {
    let mut grid = BrailleGrid::new(3, 2).unwrap();
    draw::fill_rect(&mut grid, 1, 2, 3, 2);
    assert_eq!(lit_set(&grid), vec![(1, 2), (2, 2), (3, 2), (1, 3), (2, 3), (3, 3)]);
    let mut grid = BrailleGrid::new(3, 2).unwrap();
    draw::fill_rect(&mut grid, 1, 2, 0, 5);
    assert!(lit_set(&grid).is_empty());
}

#[test]
fn rect_outline_draws_border_only() {
    let mut grid = BrailleGrid::new(3, 2).unwrap();
    draw::rect_outline(&mut grid, 0, 0, 3, 3);
    assert_eq!(
        lit_set(&grid),
        vec![(0, 0), (1, 0), (2, 0), (0, 1), (2, 1), (0, 2), (1, 2), (2, 2)]
    );
    let mut grid = BrailleGrid::new(3, 2).unwrap();
    draw::rect_outline(&mut grid, 1, 1, 0, 3);
    assert!(lit_set(&grid).is_empty());
}

#[test]
fn tint_row_colors_clipped_span() {
    let mut grid = BrailleGrid::new(4, 2).unwrap();
    let c = Color::rgb(1, 2, 3);
    draw::tint_row(&mut grid, 1, 2, 10, c);
    assert_eq!(grid.get_color(1, 1), None);
    assert_eq!(grid.get_color(2, 1), Some(c));
    assert_eq!(grid.get_color(3, 1), Some(c));
    assert_eq!(grid.get_color(2, 0), None);
    draw::tint_row(&mut grid, 5, 0, 3, c);
    assert_eq!(grid.get_color(0, 0), None);
}

#[test]
fn glyph_block_and_shade() {
    let mut grid = BrailleGrid::new(3, 1).unwrap();
    draw::glyph(&mut grid, 0, 0, 'x');
    draw::vblock(&mut grid, 1, 0, 3);
    draw::shade(&mut grid, 2, 0, 99);
    draw::glyph(&mut grid, 7, 0, 'y');
    assert_eq!(grid.get_char(0, 0), 'x');
    assert_eq!(grid.get_char(1, 0), '▃');
    assert_eq!(grid.get_char(2, 0), '█');
    draw::vblock(&mut grid, 1, 0, 100);
    assert_eq!(grid.get_char(1, 0), '█');
    draw::shade(&mut grid, 1, 0, 2);
    assert_eq!(grid.get_char(1, 0), '▒');
}

#[test]
fn block_glyph_tables() {
    assert_eq!(draw::h_block_glyph(0), ' ');
    assert_eq!(draw::h_block_glyph(4), '▌');
    assert_eq!(draw::h_block_glyph(8), '█');
    assert_eq!(draw::v_block_glyph(1), '▁');
    assert_eq!(draw::shade_glyph(1), '░');
}

#[test]
fn hbar_eighths_full_cells_and_edge() {
    let mut g = BrailleGrid::new(5, 2).unwrap();
    draw::hbar_eighths(&mut g, 1, 19);
    let row: String = (0..5).map(|x| g.get_char(x, 1)).collect();
    assert_eq!(row, "██▍⠀⠀");
    let top: String = (0..5).map(|x| g.get_char(x, 0)).collect();
    assert_eq!(top, "⠀⠀⠀⠀⠀");
}

#[test]
fn hbar_eighths_clipped_and_off_grid_rows() {
    let mut g = BrailleGrid::new(3, 1).unwrap();
    draw::hbar_eighths(&mut g, 0, 100);
    let row: String = (0..3).map(|x| g.get_char(x, 0)).collect();
    assert_eq!(row, "███");
    let mut h = BrailleGrid::new(3, 1).unwrap();
    draw::hbar_eighths(&mut h, 4, 16);
    assert_eq!(h.get_char(0, 0), '\u{2800}');
}

#[test]
fn tint_colors_only_inked_cells() {
    let mut g = BrailleGrid::new(4, 2).unwrap();
    g.set_dot(0, 0).unwrap();
    g.set_char(2, 1, '█').unwrap();
    g.set_char(3, 1, ' ').unwrap();
    let colors = vec![
        Color::rgb(1, 2, 3),
        Color::rgb(4, 5, 6),
        Color::rgb(7, 8, 9),
        Color::rgb(10, 11, 12),
    ];
    tint_inked_cells(&mut g, &colors);
    assert_eq!(g.get_color(0, 0), Some(Color::rgb(1, 2, 3)));
    assert_eq!(g.get_color(2, 1), Some(Color::rgb(7, 8, 9)));
    assert_eq!(g.get_color(1, 0), None);
    assert_eq!(g.get_color(3, 1), None);
    assert_eq!(g.get_color(0, 1), None);
}

#[test]
fn empty_rectangles_draw_nothing_wherever_they_sit() {
    let mut g = BrailleGrid::new(2, 1).unwrap();
    draw::rect_outline(&mut g, usize::MAX, 0, 5, 0);
    draw::rect_outline(&mut g, 0, usize::MAX, 0, 9);
    draw::fill_rect(&mut g, usize::MAX, 0, 5, 0);
    assert_eq!(g.get_char(0, 0), '\u{2800}');
    assert_eq!(g.get_char(1, 0), '\u{2800}');
}
