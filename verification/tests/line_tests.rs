use rasterizer::framebuffer::Framebuffer;
use rasterizer::line_impl::Line;

const INK: u32 = 0xFF0000;

/// The pixels of a `size` by `size` buffer that a line has set, in row order.
fn drawn(size: usize, x1: isize, y1: isize, x2: isize, y2: isize) -> Vec<(isize, isize)> {
    let mut fb = Framebuffer::new(size, size);
    fb.set_current_color(INK);
    fb.Line(x1, y1, x2, y2);
    let mut pixels = Vec::new();
    for y in 0..size as isize {
        for x in 0..size as isize {
            match fb.get_point(x, y) {
                Some(INK) => pixels.push((x, y)),
                Some(0) => {}
                other => panic!("pixel ({}, {}) holds {:?}", x, y, other),
            }
        }
    }
    pixels
}

fn in_row_order(mut pixels: Vec<(isize, isize)>) -> Vec<(isize, isize)> {
    pixels.sort_by_key(|p| (p.1, p.0));
    pixels
}

#[test]
fn horizontal_line_covers_its_row_between_the_ends() {
    let expected: Vec<(isize, isize)> = (0..=5).map(|x| (x, 0)).collect();
    assert_eq!(drawn(8, 0, 0, 5, 0), expected);
    assert_eq!(drawn(8, 5, 0, 0, 0), expected);
}

#[test]
fn vertical_line_covers_its_column_between_the_ends() {
    let expected: Vec<(isize, isize)> = (0..=5).map(|y| (0, y)).collect();
    assert_eq!(drawn(8, 0, 0, 0, 5), expected);
    assert_eq!(drawn(8, 0, 5, 0, 0), expected);
}

#[test]
fn single_point_line_sets_one_pixel() {
    assert_eq!(drawn(8, 3, 4, 3, 4), vec![(3, 4)]);
}

#[test]
fn diagonal_line_steps_along_both_axes() {
    let expected: Vec<(isize, isize)> = (0..=6).map(|k| (k, k)).collect();
    assert_eq!(drawn(8, 0, 0, 6, 6), expected);
    assert_eq!(drawn(8, 6, 6, 0, 0), expected);
    let expected: Vec<(isize, isize)> = (0..=6).map(|k| (6 - k, k)).collect();
    assert_eq!(drawn(8, 6, 0, 0, 6), expected);
}

#[test]
fn shallow_line_has_one_pixel_per_column() {
    let expected =
        vec![(1, 1), (2, 1), (3, 2), (4, 2), (5, 3), (6, 3), (7, 4), (8, 4)];
    assert_eq!(drawn(10, 1, 1, 8, 4), expected);
}

#[test]
fn steep_line_has_one_pixel_per_row() {
    assert_eq!(drawn(4, 0, 0, 1, 3), vec![(0, 0), (0, 1), (1, 2), (1, 3)]);
}

#[test]
fn line_in_a_falling_octant() {
    let expected = in_row_order(vec![
        (2, 7), (2, 6), (3, 5), (3, 4), (3, 3), (4, 2), (4, 1), (4, 0),
    ]);
    // The last three pixels of the line, (4, -1), (5, -2) and (5, -3), lie
    // above the buffer.
    assert_eq!(drawn(8, 2, 7, 5, -3), expected);
}

#[test]
fn line_without_a_tie_is_the_same_from_both_ends() {
    let expected = vec![(0, 0), (1, 0), (2, 1), (3, 1)];
    assert_eq!(drawn(4, 0, 0, 3, 1), expected);
    assert_eq!(drawn(4, 3, 1, 0, 0), expected);
    assert_eq!(drawn(10, 1, 1, 8, 4), drawn(10, 8, 4, 1, 1));
    assert_eq!(drawn(8, 0, 5, 7, 0), drawn(8, 7, 0, 0, 5));
}

#[test]
fn tie_is_rounded_away_from_the_first_end() {
    assert_eq!(drawn(3, 0, 0, 2, 1), vec![(0, 0), (1, 1), (2, 1)]);
    assert_eq!(drawn(3, 2, 1, 0, 0), vec![(0, 0), (1, 0), (2, 1)]);
}

#[test]
fn line_is_clipped_at_the_edges_of_the_buffer() {
    let expected: Vec<(isize, isize)> = (0..4).map(|x| (x, 2)).collect();
    assert_eq!(drawn(4, -3, 2, 9, 2), expected);
    assert_eq!(drawn(4, -5, -5, -1, -1), vec![]);
    assert_eq!(drawn(4, 4, 0, 4, 3), vec![]);
    let expected: Vec<(isize, isize)> = (0..4).map(|k| (k, k)).collect();
    assert_eq!(drawn(4, -2, -2, 6, 6), expected);
}

#[test]
fn line_uses_the_current_color_and_keeps_other_pixels() {
    let mut fb = Framebuffer::new(4, 4);
    fb.set_current_color(0x00FF00);
    fb.point(0, 3);
    fb.point(1, 1);
    fb.set_current_color(0x0000FF);
    fb.Line(0, 1, 3, 1);
    for x in 0..4 {
        assert_eq!(fb.get_point(x, 1), Some(0x0000FF));
    }
    assert_eq!(fb.get_point(0, 3), Some(0x00FF00));
    assert_eq!(fb.buffer().iter().filter(|pixel| **pixel == 0).count(), 11);
    fb.point(3, 3);
    assert_eq!(fb.get_point(3, 3), Some(0x0000FF));
}

#[test]
fn line_between_far_ends_stays_exact() {
    // The differences of these coordinates do not fit the coordinate type.
    let mut fb = Framebuffer::new(3, 3);
    fb.Line(isize::MIN, 1, isize::MIN + 5, 1);
    assert!(fb.buffer().iter().all(|pixel| *pixel == 0));
    fb.Line(1, isize::MAX - 4, 1, isize::MAX);
    assert!(fb.buffer().iter().all(|pixel| *pixel == 0));
}
