use dotmax::progress::draw;
use dotmax::progress::styles::penrose::{bresenham, draw_poly};
use dotmax::progress::styles::platonic::{draw_edge, draw_edges_partial, StellatedDodecahedron};
use dotmax::BrailleGrid;

fn lit_set(grid: &BrailleGrid) -> Vec<(usize, usize)> {
    let (w, h) = draw::dot_dims(grid);
    let mut v = Vec::new();
    for y in 0..h {
        for x in 0..w {
            let c = grid.get_char(x / 2, y / 4) as u32 - 0x2800;
            let bit = match (x % 2, y % 4) {
                (0, 0) => 0x01,
                (0, 1) => 0x02,
                (0, 2) => 0x04,
                (0, 3) => 0x40,
                (1, 0) => 0x08,
                (1, 1) => 0x10,
                (1, 2) => 0x20,
                _ => 0x80,
            };
            if c & bit != 0 {
                v.push((x, y));
            }
        }
    }
    v
}

fn sorted(mut v: Vec<(usize, usize)>) -> Vec<(usize, usize)> {
    v.sort_by_key(|&(x, y)| (y, x));
    v
}

#[test]
fn bresenham_shallow_line() {
    let mut grid = BrailleGrid::new(4, 2).unwrap();
    bresenham(&mut grid, 0, 0, 3, 1);
    assert_eq!(lit_set(&grid), sorted(vec![(0, 0), (1, 0), (2, 1), (3, 1)]));
}

#[test]
fn bresenham_reversed_steep_line() {
    let mut grid = BrailleGrid::new(4, 2).unwrap();
    bresenham(&mut grid, 5, 2, 1, 5);
    assert_eq!(lit_set(&grid), sorted(vec![(5, 2), (4, 3), (3, 4), (2, 4), (1, 5)]));
}

#[test]
fn bresenham_clips_outside_dots() {
    let mut grid = BrailleGrid::new(1, 1).unwrap();
    bresenham(&mut grid, -2, 0, 1, 0);
    assert_eq!(lit_set(&grid), vec![(0, 0), (1, 0)]);
}

#[test]
fn bresenham_single_point() {
    let mut grid = BrailleGrid::new(1, 1).unwrap();
    bresenham(&mut grid, 1, 2, 1, 2);
    assert_eq!(lit_set(&grid), vec![(1, 2)]);
}

#[test]
fn draw_poly_closes_the_polygon() {
    let mut grid = BrailleGrid::new(2, 1).unwrap();
    draw_poly(&mut grid, &[(0, 0), (3, 0), (3, 3)]);
    assert_eq!(
        lit_set(&grid),
        sorted(vec![(0, 0), (1, 0), (2, 0), (3, 0), (3, 1), (3, 2), (3, 3), (1, 1), (2, 2)])
    );
    let mut grid = BrailleGrid::new(2, 1).unwrap();
    draw_poly(&mut grid, &[(1, 1)]);
    assert!(lit_set(&grid).is_empty());
}

#[test]
fn draw_edge_variant_breaks_ties_differently() {
    let mut grid = BrailleGrid::new(4, 2).unwrap();
    draw_edge(&mut grid, 5, 2, 1, 5);
    assert_eq!(lit_set(&grid), sorted(vec![(5, 2), (4, 3), (3, 3), (2, 4), (1, 5)]));
}

#[test]
fn draw_edge_is_capped_at_400_dots() {
    let mut grid = BrailleGrid::new(300, 1).unwrap();
    draw_edge(&mut grid, 0, 0, 500, 0);
    let dots = lit_set(&grid);
    assert_eq!(dots.len(), 400);
    assert_eq!(dots[399], (399, 0));
}

#[test]
fn draw_edges_partial_draws_prefix_and_skips_bad_indices() {
    let pts = [(0, 0), (3, 0), (0, 3)];
    let edges = [(0, 1), (5, 0), (0, 2), (1, 2)];
    let mut grid = BrailleGrid::new(2, 1).unwrap();
    draw_edges_partial(&mut grid, &pts, &edges, 3);
    assert_eq!(
        lit_set(&grid),
        sorted(vec![(0, 0), (1, 0), (2, 0), (3, 0), (0, 1), (0, 2), (0, 3)])
    );
}

#[test]
fn bresenham_has_one_dot_per_step_of_the_longer_axis() {
    let mut grid = BrailleGrid::new(8, 4).unwrap();
    bresenham(&mut grid, 1, 14, 6, 2);
    assert_eq!(lit_set(&grid).len(), 13);
    let mut grid = BrailleGrid::new(8, 4).unwrap();
    bresenham(&mut grid, 15, 0, 0, 9);
    assert_eq!(lit_set(&grid).len(), 16);
}

#[test]
fn partial_edges_ignore_points_no_shown_edge_uses() {
    let mut grid = BrailleGrid::new(4, 2).unwrap();
    let pts = vec![(0, 0), (3, 3), (i32::MIN, i32::MAX)];
    draw_edges_partial(&mut grid, &pts, &[(0, 1), (1, 2)], 1);
    assert_eq!(lit_set(&grid), sorted(vec![(0, 0), (1, 1), (2, 2), (3, 3)]));
}

#[test]
fn stellated_spokes_show_the_first_ones_in_order() {
    let tips = vec![(0, 0), (7, 0)];
    let hub = vec![(0, 3), (7, 3), (3, 1)];
    let spokes = vec![(0, 0), (1, 1), (5, 0), (1, 2), (0, 2)];
    let mut grid = BrailleGrid::new(4, 1).unwrap();
    StellatedDodecahedron.draw_spokes(&mut grid, &tips, &hub, &spokes, 4);
    let mut want = vec![(0, 0), (0, 1), (0, 2), (0, 3), (7, 0), (7, 1), (7, 2), (7, 3)];
    let mut e = BrailleGrid::new(4, 1).unwrap();
    draw_edge(&mut e, 7, 0, 3, 1);
    want.extend(lit_set(&e));
    want.sort();
    want.dedup();
    assert_eq!(lit_set(&grid), sorted(want));
}
