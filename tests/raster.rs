use rust_renderer::draw;
use rust_renderer::draw::{
    display_block, filled_flat_bottom_triangle, filled_flat_top_triangle, filled_triangle, pixel, triangle,
    Canvas, Color, Pixel, Point, Triangle, PIXEL_SIZE,
};

fn p(x: i32, y: i32) -> Point {
    Point::new(x, y)
}

fn points(c: &Canvas) -> Vec<(i32, i32)> {
    c.pixels().iter().map(|px| (px.point.x, px.point.y)).collect()
}

fn drawn_line(a: (i32, i32), b: (i32, i32)) -> Vec<(i32, i32)> {
    let mut c = Canvas::new();
    draw::line(p(a.0, a.1), p(b.0, b.1), Color::RGB(1, 2, 3), &mut c);
    points(&c)
}

fn drawn_fill(a: (i32, i32), b: (i32, i32), q: (i32, i32)) -> Vec<(i32, i32)> {
    let mut c = Canvas::new();
    filled_triangle(Triangle::new(p(a.0, a.1), p(b.0, b.1), p(q.0, q.1)), Color::RGB(9, 9, 9), &mut c);
    points(&c)
}

#[test]
fn line_single_point() {
    assert_eq!(drawn_line((3, 3), (3, 3)), vec![(3, 3)]);
}

#[test]
fn line_right_diagonal_shallow() {
    assert_eq!(drawn_line((2, 1), (7, 3)), vec![(2, 1), (3, 1), (4, 2), (5, 2), (6, 3), (7, 3)]);
}

#[test]
fn line_left_diagonal_shallow() {
    assert_eq!(drawn_line((7, 3), (2, 1)), vec![(7, 3), (6, 3), (5, 2), (4, 2), (3, 1), (2, 1)]);
}

#[test]
fn line_steep_down() {
    assert_eq!(drawn_line((1, 1), (3, 8)), vec![(1, 1), (1, 2), (2, 3), (2, 4), (2, 5), (2, 6), (3, 7), (3, 8)]);
}

#[test]
fn line_steep_up() {
    assert_eq!(drawn_line((3, 8), (1, 1)), vec![(3, 8), (3, 7), (2, 6), (2, 5), (2, 4), (2, 3), (1, 2), (1, 1)]);
}

#[test]
fn line_exact_diagonal() {
    assert_eq!(drawn_line((0, 0), (4, -4)), vec![(0, 0), (1, -1), (2, -2), (3, -3), (4, -4)]);
}

#[test]
fn line_vertical_runs_upward() {
    assert_eq!(drawn_line((0, 5), (0, 2)), vec![(0, 2), (0, 3), (0, 4), (0, 5)]);
}

#[test]
fn line_crossing_origin() {
    assert_eq!(drawn_line((-3, 2), (2, -1)), vec![(-3, 2), (-2, 1), (-1, 1), (0, 0), (1, 0), (2, -1)]);
}

#[test]
fn line_rounds_exact_half_up() {
    assert_eq!(drawn_line((7, 6), (-13, -18)), vec![(7, 6), (6, 5), (5, 4), (5, 3), (4, 2), (3, 1), (2, 0), (1, -1), (0, -2), (0, -3), (-1, -4), (-2, -5), (-3, -6), (-4, -7), (-5, -8), (-5, -9), (-6, -10), (-7, -11), (-8, -12), (-9, -13), (-10, -14), (-10, -15), (-11, -16), (-12, -17), (-13, -18)]);
}

#[test]
fn fill_flat_bottom() {
    assert_eq!(drawn_fill((2, 0), (0, 4), (5, 4)), vec![(2, 0), (1, 1), (2, 1), (1, 2), (2, 2), (3, 2), (0, 3), (1, 3), (2, 3), (3, 3), (4, 3), (0, 4), (1, 4), (2, 4), (3, 4), (4, 4), (5, 4)]);
}

#[test]
fn fill_flat_top() {
    assert_eq!(drawn_fill((0, 0), (6, 0), (3, 3)), vec![(3, 3), (2, 2), (3, 2), (4, 2), (1, 1), (2, 1), (3, 1), (4, 1), (5, 1), (0, 0), (1, 0), (2, 0), (3, 0), (4, 0), (5, 0), (6, 0)]);
}

#[test]
fn fill_split_at_middle_vertex() {
    assert_eq!(drawn_fill((0, 0), (4, 2), (1, 5)), vec![(0, 0), (0, 1), (1, 1), (2, 1), (0, 2), (1, 2), (2, 2), (3, 2), (4, 2), (1, 5), (0, 4), (1, 4), (2, 4), (0, 3), (1, 3), (2, 3), (3, 3), (0, 2), (1, 2), (2, 2), (3, 2), (4, 2)]);
}

#[test]
fn fill_all_on_one_scanline_draws_first_vertex() {
    assert_eq!(drawn_fill((1, 1), (4, 1), (7, 1)), vec![(1, 1)]);
}

#[test]
fn fill_split_with_rounded_split_point() {
    assert_eq!(drawn_fill((5, 0), (0, 3), (8, 6)), vec![(5, 0), (3, 1), (4, 1), (5, 1), (1, 2), (2, 2), (3, 2), (4, 2), (5, 2), (0, 3), (1, 3), (2, 3), (3, 3), (4, 3), (5, 3), (6, 3), (8, 6), (5, 5), (6, 5), (7, 5), (2, 4), (3, 4), (4, 4), (5, 4), (6, 4), (0, 3), (1, 3), (2, 3), (3, 3), (4, 3), (5, 3), (6, 3)]);
}

#[test]
fn fill_negative_coordinates() {
    assert_eq!(drawn_fill((3, 0), (-2, 4), (0, 2)), vec![(3, 0), (1, 1), (2, 1), (0, 2), (1, 2), (-2, 4), (-1, 3), (0, 3), (0, 2), (1, 2)]);
}

#[test]
fn fill_keeps_exact_vertex_on_long_edges() {
    assert_eq!(drawn_fill((-10, 15), (-9, -5), (-6, -19)), vec![(-6, -19), (-6, -18), (-6, -17), (-6, -16), (-6, -15), (-7, -14), (-6, -14), (-7, -13), (-6, -13), (-7, -12), (-6, -12), (-7, -11), (-6, -11), (-7, -10), (-6, -10), (-8, -9), (-7, -9), (-6, -9), (-8, -8), (-7, -8), (-6, -8), (-8, -7), (-7, -7), (-6, -7), (-8, -6), (-7, -6), (-6, -6), (-9, -5), (-8, -5), (-7, -5), (-10, 15), (-9, 14), (-9, 13), (-9, 12), (-9, 11), (-9, 10), (-9, 9), (-9, 8), (-8, 8), (-9, 7), (-8, 7), (-9, 6), (-8, 6), (-9, 5), (-8, 5), (-9, 4), (-8, 4), (-9, 3), (-8, 3), (-9, 2), (-8, 2), (-9, 1), (-8, 1), (-7, 1), (-9, 0), (-8, 0), (-7, 0), (-9, -1), (-8, -1), (-7, -1), (-9, -2), (-8, -2), (-7, -2), (-9, -3), (-8, -3), (-7, -3), (-9, -4), (-8, -4), (-7, -4), (-9, -5), (-8, -5), (-7, -5)]);
}

#[test]
fn line_horizontal_six_pixels_all_in_color() {
    let mut c = Canvas::new();
    let color = Color::RGB(10, 20, 30);
    draw::line(p(0, 0), p(5, 0), color, &mut c);
    let expected: Vec<Pixel> = (0..6).map(|x| Pixel { point: p(x, 0), color }).collect();
    assert_eq!(c.pixels().to_vec(), expected);
}

#[test]
fn line_single_pixel_for_equal_ends() {
    for &(x, y) in &[(0, 0), (-7, 12), (i32::MAX, i32::MIN)] {
        assert_eq!(drawn_line((x, y), (x, y)), vec![(x, y)]);
    }
}

#[test]
fn line_extreme_coordinates_keep_both_ends() {
    let pts = drawn_line((i32::MIN, 0), (i32::MIN + 3, 1));
    assert_eq!(pts, vec![(i32::MIN, 0), (i32::MIN + 1, 0), (i32::MIN + 2, 1), (i32::MIN + 3, 1)]);
}

#[test]
fn pixel_appends_one_write() {
    let mut c = Canvas::new();
    pixel(p(4, 5), Color::RGB(1, 1, 1), &mut c);
    pixel(p(4, 5), Color::RGB(2, 2, 2), &mut c);
    assert_eq!(
        c.pixels().to_vec(),
        vec![
            Pixel { point: p(4, 5), color: Color::RGB(1, 1, 1) },
            Pixel { point: p(4, 5), color: Color::RGB(2, 2, 2) }
        ]
    );
    c.clear();
    assert!(c.pixels().is_empty());
}

#[test]
fn outline_draws_three_edges_in_order() {
    let mut c = Canvas::new();
    triangle(Triangle::new(p(0, 0), p(2, 0), p(0, 2)), Color::RGB(255, 0, 0), &mut c);
    assert_eq!(points(&c), vec![(0, 0), (1, 0), (2, 0), (2, 0), (1, 1), (0, 2), (0, 0), (0, 1), (0, 2)]);
}

#[test]
fn flat_bottom_fill_directly() {
    let mut c = Canvas::new();
    filled_flat_bottom_triangle(Triangle::new(p(2, 0), p(0, 2), p(4, 2)), Color::RGB(1, 1, 1), &mut c);
    assert_eq!(points(&c), vec![(2, 0), (1, 1), (2, 1), (3, 1), (0, 2), (1, 2), (2, 2), (3, 2), (4, 2)]);
}

#[test]
fn flat_top_fill_directly() {
    let mut c = Canvas::new();
    filled_flat_top_triangle(Triangle::new(p(2, 2), p(0, 0), p(4, 0)), Color::RGB(1, 1, 1), &mut c);
    assert_eq!(points(&c), vec![(2, 2), (1, 1), (2, 1), (3, 1), (0, 0), (1, 0), (2, 0), (3, 0), (4, 0)]);
}

#[test]
fn flat_fill_stays_between_extreme_scanlines_with_one_span_each() {
    let pts = drawn_fill((3, 10), (-4, 2), (9, 10));
    for y in 2..=10 {
        let mut xs: Vec<i32> = pts.iter().filter(|q| q.1 == y).map(|q| q.0).collect();
        assert!(!xs.is_empty());
        xs.sort();
        for w in xs.windows(2) {
            assert_eq!(w[1], w[0] + 1);
        }
    }
    assert!(pts.iter().all(|q| q.1 >= 2 && q.1 <= 10));
}

#[test]
fn fill_uses_given_color() {
    let mut c = Canvas::new();
    let color = Color::RGB(200, 100, 50);
    filled_triangle(Triangle::new(p(0, 0), p(3, 3), p(0, 3)), color, &mut c);
    assert!(!c.pixels().is_empty());
    assert!(c.pixels().iter().all(|px| px.color == color));
}

#[test]
fn display_block_of_one_pixel() {
    let b = display_block(p(7, -3));
    assert_eq!(b.len(), (PIXEL_SIZE * PIXEL_SIZE) as usize);
    assert_eq!(b[0], p(7 * PIXEL_SIZE, -3 * PIXEL_SIZE));
}
