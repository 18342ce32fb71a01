use rasterizer::framebuffer::Framebuffer;
use rasterizer::polygon::{draw_polygon, fill_polygon, Point, PolygonError};

fn polygon(vertices: &[(isize, isize)]) -> Vec<Point> {
    vertices.iter().map(|v| Point { x: v.0, y: v.1 }).collect()
}

/// The pixels of the buffer that hold `color`, in row order.
fn pixels_of(fb: &Framebuffer, color: u32) -> Vec<(isize, isize)> {
    let mut pixels = Vec::new();
    for y in 0..fb.height as isize {
        for x in 0..fb.width as isize {
            if fb.get_point(x, y) == Some(color) {
                pixels.push((x, y));
            }
        }
    }
    pixels
}

#[test]
fn fill_of_a_rectangle_covers_its_rows_from_the_lowest_to_below_the_highest() {
    let mut fb = Framebuffer::new(32, 32);
    let square = polygon(&[(10, 10), (20, 10), (20, 20), (10, 20)]);
    assert_eq!(fill_polygon(&mut fb, &square, 0x00FF00), Ok(()));
    let mut expected = Vec::new();
    for y in 10..20 {
        // A span ends on its right crossing, so column 20 is filled too.
        for x in 10..=20 {
            expected.push((x, y));
        }
    }
    assert_eq!(pixels_of(&fb, 0x00FF00), expected);
    assert_eq!(fb.get_point(15, 20), Some(0));
    assert_eq!(fb.get_point(15, 9), Some(0));
    assert_eq!(fb.get_point(9, 15), Some(0));
    assert_eq!(fb.get_point(21, 15), Some(0));
}

#[test]
fn polygons_with_fewer_than_three_vertices_are_refused() {
    let mut fb = Framebuffer::new(8, 8);
    fb.set_current_color(0x123456);
    fb.point(3, 3);
    let before = fb.buffer().clone();
    for vertices in [polygon(&[]), polygon(&[(1, 1)]), polygon(&[(1, 1), (6, 6)])] {
        assert_eq!(draw_polygon(&mut fb, &vertices, 0xFF0000), Err(PolygonError::TooFewVertices));
        assert_eq!(fb.buffer(), &before);
        assert_eq!(fill_polygon(&mut fb, &vertices, 0xFF0000), Err(PolygonError::TooFewVertices));
        assert_eq!(fb.buffer(), &before);
    }
    // The current color is as it was, too.
    fb.point(0, 0);
    assert_eq!(fb.get_point(0, 0), Some(0x123456));
}

#[test]
fn outline_of_a_triangle_is_its_three_edges() {
    let mut fb = Framebuffer::new(8, 8);
    let triangle = polygon(&[(1, 1), (6, 1), (1, 6)]);
    assert_eq!(draw_polygon(&mut fb, &triangle, 0xFFFFFF), Ok(()));
    let mut expected = Vec::new();
    for k in 1..=6 {
        expected.push((k, 1));
        expected.push((1, k));
        expected.push((7 - k, k));
    }
    expected.sort_by_key(|p: &(isize, isize)| (p.1, p.0));
    expected.dedup();
    assert_eq!(pixels_of(&fb, 0xFFFFFF), expected);
}

#[test]
fn outline_closes_from_the_last_vertex_to_the_first() {
    let mut fb = Framebuffer::new(8, 8);
    let square = polygon(&[(0, 0), (5, 0), (5, 5), (0, 5)]);
    assert_eq!(draw_polygon(&mut fb, &square, 0x0000FF), Ok(()));
    for k in 0..=5 {
        assert_eq!(fb.get_point(0, k), Some(0x0000FF));
    }
    assert_eq!(pixels_of(&fb, 0x0000FF).len(), 20);
}

#[test]
fn drawing_sets_the_current_color() {
    let mut fb = Framebuffer::new(8, 8);
    let triangle = polygon(&[(1, 1), (6, 1), (1, 6)]);
    assert_eq!(draw_polygon(&mut fb, &triangle, 0xABCDEF), Ok(()));
    fb.point(7, 7);
    assert_eq!(fb.get_point(7, 7), Some(0xABCDEF));
    assert_eq!(fill_polygon(&mut fb, &triangle, 0x010203), Ok(()));
    fb.point(7, 6);
    assert_eq!(fb.get_point(7, 6), Some(0x010203));
}

#[test]
fn later_polygons_draw_over_those_before() {
    let mut fb = Framebuffer::new(8, 8);
    let square = polygon(&[(0, 0), (4, 0), (4, 4), (0, 4)]);
    let other = polygon(&[(2, 2), (6, 2), (6, 6), (2, 6)]);
    assert_eq!(fill_polygon(&mut fb, &square, 0xFF0000), Ok(()));
    assert_eq!(fill_polygon(&mut fb, &other, 0x0000FF), Ok(()));
    assert_eq!(fb.get_point(1, 1), Some(0xFF0000));
    assert_eq!(fb.get_point(3, 3), Some(0x0000FF));
    assert_eq!(fb.get_point(5, 5), Some(0x0000FF));
    assert_eq!(fb.get_point(3, 1), Some(0xFF0000));
}

#[test]
fn intersections_are_truncated_towards_zero() {
    // The sloped edge runs from (10, 0) to (0, 3): at height 1 it lies at
    // 10 - 10/3, at height 2 at 10 - 20/3.
    let mut fb = Framebuffer::new(12, 4);
    let triangle = polygon(&[(10, 0), (0, 3), (10, 3)]);
    assert_eq!(fill_polygon(&mut fb, &triangle, 0x00FF00), Ok(()));
    let expected = vec![
        (10, 0),
        (7, 1), (8, 1), (9, 1), (10, 1),
        (4, 2), (5, 2), (6, 2), (7, 2), (8, 2), (9, 2), (10, 2),
    ];
    assert_eq!(pixels_of(&fb, 0x00FF00), expected);
}

#[test]
fn intersections_interpolate_along_a_rising_edge() {
    let mut fb = Framebuffer::new(12, 4);
    let triangle = polygon(&[(0, 0), (9, 3), (0, 3)]);
    assert_eq!(fill_polygon(&mut fb, &triangle, 0x00FF00), Ok(()));
    let expected = vec![
        (0, 0),
        (0, 1), (1, 1), (2, 1), (3, 1),
        (0, 2), (1, 2), (2, 2), (3, 2), (4, 2), (5, 2), (6, 2),
    ];
    assert_eq!(pixels_of(&fb, 0x00FF00), expected);
}

#[test]
fn crossings_are_paired_in_ascending_order() {
    // A shape like the letter U, upside down in the buffer. Its edges meet
    // the scanline at height 7 at 20, 10, 0 and 30, in this order.
    let mut fb = Framebuffer::new(32, 12);
    let shape = polygon(&[
        (20, 10), (20, 5), (10, 5), (10, 10), (0, 10), (0, 0), (30, 0), (30, 10),
    ]);
    assert_eq!(fill_polygon(&mut fb, &shape, 0xFFFF00), Ok(()));
    let row: Vec<isize> =
        pixels_of(&fb, 0xFFFF00).into_iter().filter(|p| p.1 == 7).map(|p| p.0).collect();
    let expected: Vec<isize> = (0..=10).chain(20..=30).collect();
    assert_eq!(row, expected);
    assert_eq!(fb.get_point(15, 7), Some(0));
    assert_eq!(fb.get_point(15, 2), Some(0xFFFF00));
    assert_eq!(fb.get_point(15, 10), Some(0));
}

#[test]
fn self_intersecting_polygon_follows_the_even_odd_rule() {
    let mut fb = Framebuffer::new(11, 11);
    let bow_tie = polygon(&[(0, 0), (10, 10), (10, 0), (0, 10)]);
    assert_eq!(fill_polygon(&mut fb, &bow_tie, 0xFF00FF), Ok(()));
    let filled = pixels_of(&fb, 0xFF00FF);
    let row = |y: isize| -> Vec<isize> {
        filled.iter().filter(|p| p.1 == y).map(|p| p.0).collect()
    };
    assert_eq!(row(0), vec![0, 10]);
    assert_eq!(row(3), vec![0, 1, 2, 3, 7, 8, 9, 10]);
    assert_eq!(row(5), (0..=10).collect::<Vec<isize>>());
    assert_eq!(row(9), vec![0, 1, 9, 10]);
    assert_eq!(row(10), vec![]);
}

#[test]
fn horizontal_edges_meet_no_scanline() {
    let mut fb = Framebuffer::new(8, 8);
    let flat = polygon(&[(1, 3), (6, 3), (4, 3)]);
    assert_eq!(fill_polygon(&mut fb, &flat, 0xFF0000), Ok(()));
    assert!(fb.buffer().iter().all(|pixel| *pixel == 0));
}

#[test]
fn fill_is_clipped_at_the_edges_of_the_buffer() {
    let mut fb = Framebuffer::new(4, 4);
    let square = polygon(&[(-3, -3), (6, -3), (6, 2), (-3, 2)]);
    assert_eq!(fill_polygon(&mut fb, &square, 0x00FFFF), Ok(()));
    let mut expected = Vec::new();
    for y in 0..2 {
        for x in 0..4 {
            expected.push((x, y));
        }
    }
    assert_eq!(pixels_of(&fb, 0x00FFFF), expected);
}

#[test]
fn fill_between_far_vertices_stays_exact() {
    // Two edges almost as wide as the whole range of coordinates: their
    // differences do not fit the coordinate type. They leave the far left two
    // pixels apart and meet at the far right, so at height 1 they lie at 0
    // and at 1.
    let mut fb = Framebuffer::new(4, 4);
    let wide = polygon(&[(isize::MIN + 1, 0), (isize::MAX, 2), (isize::MIN + 3, 0)]);
    assert_eq!(fill_polygon(&mut fb, &wide, 0x0F0F0F), Ok(()));
    assert_eq!(pixels_of(&fb, 0x0F0F0F), vec![(0, 1), (1, 1)]);
}
