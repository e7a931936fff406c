use dotmax::{BrailleGrid, Color, DotmaxError};

#[test]
fn new_grid_has_requested_size() {
    let grid = BrailleGrid::new(4, 3).unwrap();
    assert_eq!(grid.dimensions(), (4, 3));
}

#[test]
fn new_grid_clamps_zero_sizes_to_one() {
    let grid = BrailleGrid::new(0, 0).unwrap();
    assert_eq!(grid.dimensions(), (1, 1));
    let grid = BrailleGrid::new(0, 5).unwrap();
    assert_eq!(grid.dimensions(), (1, 5));
}

#[test]
fn new_grid_is_blank() {
    let grid = BrailleGrid::new(3, 2).unwrap();
    for y in 0..2 {
        for x in 0..3 {
            assert_eq!(grid.get_char(x, y), '\u{2800}');
            assert_eq!(grid.get_color(x, y), None);
        }
    }
}

#[test]
fn each_dot_sets_its_braille_bit() {
    let expected: [(usize, usize, u32); 8] = [
        (0, 0, 0x01),
        (0, 1, 0x02),
        (0, 2, 0x04),
        (0, 3, 0x40),
        (1, 0, 0x08),
        (1, 1, 0x10),
        (1, 2, 0x20),
        (1, 3, 0x80),
    ];
    for (dx, dy, bit) in expected {
        let mut grid = BrailleGrid::new(2, 2).unwrap();
        grid.set_dot(2 + dx, 4 + dy).unwrap();
        assert_eq!(grid.get_char(1, 1) as u32, 0x2800 + bit);
        assert_eq!(grid.get_char(0, 0), '\u{2800}');
        assert_eq!(grid.get_char(0, 1), '\u{2800}');
        assert_eq!(grid.get_char(1, 0), '\u{2800}');
    }
}

#[test]
fn all_dots_of_a_cell_give_full_braille() {
    let mut grid = BrailleGrid::new(1, 1).unwrap();
    for y in 0..4 {
        for x in 0..2 {
            grid.set_dot(x, y).unwrap();
        }
    }
    assert_eq!(grid.get_char(0, 0), '\u{28FF}');
}

#[test]
fn setting_a_dot_twice_changes_nothing_more() {
    let mut grid = BrailleGrid::new(1, 1).unwrap();
    grid.set_dot(1, 2).unwrap();
    let once = grid.get_char(0, 0);
    grid.set_dot(1, 2).unwrap();
    assert_eq!(grid.get_char(0, 0), once);
    assert_eq!(once, '\u{2820}');
}

#[test]
fn set_dot_out_of_bounds_reports_dot_lattice() {
    let mut grid = BrailleGrid::new(3, 2).unwrap();
    let err = grid.set_dot(6, 0).unwrap_err();
    assert_eq!(err, DotmaxError::OutOfBounds { x: 6, y: 0, width: 6, height: 8 });
    let err = grid.set_dot(0, 8).unwrap_err();
    assert_eq!(err, DotmaxError::OutOfBounds { x: 0, y: 8, width: 6, height: 8 });
    for y in 0..2 {
        for x in 0..3 {
            assert_eq!(grid.get_char(x, y), '\u{2800}');
        }
    }
}

#[test]
fn set_char_overrides_dots() {
    let mut grid = BrailleGrid::new(2, 1).unwrap();
    grid.set_dot(0, 0).unwrap();
    grid.set_char(0, 0, '█').unwrap();
    assert_eq!(grid.get_char(0, 0), '█');
    grid.set_dot(1, 1).unwrap();
    assert_eq!(grid.get_char(0, 0), '█');
    assert_eq!(grid.get_char(1, 0), '\u{2800}');
}

#[test]
fn set_char_out_of_bounds_reports_cell_size() {
    let mut grid = BrailleGrid::new(3, 2).unwrap();
    let err = grid.set_char(3, 1, 'x').unwrap_err();
    assert_eq!(err, DotmaxError::OutOfBounds { x: 3, y: 1, width: 3, height: 2 });
}

#[test]
fn cell_color_round_trips() {
    let mut grid = BrailleGrid::new(2, 2).unwrap();
    let c = Color::rgb(10, 20, 30);
    assert_eq!(c, Color { r: 10, g: 20, b: 30 });
    grid.enable_color_support();
    grid.set_cell_color(1, 0, c).unwrap();
    assert_eq!(grid.get_color(1, 0), Some(c));
    assert_eq!(grid.get_color(0, 0), None);
    assert_eq!(grid.get_color(5, 5), None);
    let err = grid.set_cell_color(2, 0, c).unwrap_err();
    assert_eq!(err, DotmaxError::OutOfBounds { x: 2, y: 0, width: 2, height: 2 });
}

#[test]
fn get_char_outside_is_blank() {
    let mut grid = BrailleGrid::new(1, 1).unwrap();
    grid.set_char(0, 0, 'a').unwrap();
    assert_eq!(grid.get_char(1, 0), '\u{2800}');
    assert_eq!(grid.get_char(0, 1), '\u{2800}');
}

#[test]
fn dots_commute_in_either_order() {
    let mut a = BrailleGrid::new(3, 2).unwrap();
    let mut b = BrailleGrid::new(3, 2).unwrap();
    a.set_dot(1, 2).unwrap();
    a.set_dot(0, 3).unwrap();
    a.set_dot(5, 7).unwrap();
    b.set_dot(5, 7).unwrap();
    b.set_dot(0, 3).unwrap();
    b.set_dot(1, 2).unwrap();
    b.set_dot(1, 2).unwrap();
    for y in 0..2 {
        for x in 0..3 {
            assert_eq!(a.get_char(x, y), b.get_char(x, y));
        }
    }
    assert_eq!(a.get_char(0, 0), '\u{2860}');
}

#[test]
fn size_never_changes_under_writes() {
    let mut g = BrailleGrid::new(0, 4).unwrap();
    let _ = g.set_dot(9, 9);
    let _ = g.set_char(3, 3, 'x');
    let _ = g.set_cell_color(0, 3, Color::rgb(1, 2, 3));
    g.enable_color_support();
    dotmax::progress::draw::fill_rect(&mut g, 0, 0, 40, 40);
    assert_eq!(g.dimensions(), (1, 4));
}

#[test]
fn glyph_keeps_hiding_later_dots_and_colors() {
    let mut g = BrailleGrid::new(2, 1).unwrap();
    g.set_char(1, 0, '#').unwrap();
    g.set_dot(2, 0).unwrap();
    g.set_dot(3, 3).unwrap();
    g.set_cell_color(1, 0, Color::rgb(9, 9, 9)).unwrap();
    dotmax::progress::draw::hline(&mut g, 0, 3, 1);
    assert_eq!(g.get_char(1, 0), '#');
    assert_eq!(g.get_char(0, 0), '\u{2812}');
}

#[test]
fn last_color_written_wins() {
    let mut g = BrailleGrid::new(3, 2).unwrap();
    assert_eq!(g.get_color(1, 1), None);
    g.set_cell_color(1, 1, Color::rgb(1, 0, 0)).unwrap();
    dotmax::progress::draw::tint_row(&mut g, 1, 0, 2, Color::rgb(0, 2, 0));
    g.set_cell_color(2, 1, Color::rgb(0, 0, 3)).unwrap();
    let _ = g.set_cell_color(7, 1, Color::rgb(7, 7, 7));
    assert_eq!(g.get_color(1, 1), Some(Color::rgb(0, 2, 0)));
    assert_eq!(g.get_color(2, 1), Some(Color::rgb(0, 0, 3)));
    assert_eq!(g.get_color(0, 0), None);
    assert_eq!(g.get_color(7, 1), None);
}

#[test]
fn rows_read_every_cell() {
    let mut g = BrailleGrid::new(3, 2).unwrap();
    g.set_dot(0, 0).unwrap();
    g.set_char(2, 1, '█').unwrap();
    let rows = g.rows();
    assert_eq!(rows, vec![vec!['\u{2801}', '\u{2800}', '\u{2800}'], vec!['\u{2800}', '\u{2800}', '█']]);
}
