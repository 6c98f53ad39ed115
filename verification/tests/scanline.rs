use rasterizer::canvas::{Canvas, Color};
use rasterizer::point::ScreenPoint;
use rasterizer::scanline::fill_triangle;

const RED: Color = Color { r: 255, g: 0, b: 0, a: 255 };
const BLUE: Color = Color { r: 0, g: 0, b: 255, a: 255 };
const CLEAR: Color = Color { r: 0, g: 0, b: 0, a: 0 };

fn sp(x: i32, y: i32) -> ScreenPoint {
    ScreenPoint { x, y }
}

fn count_of(c: &Canvas, color: Color) -> usize {
    let mut n = 0;
    for y in 0..c.height() {
        for x in 0..c.width() {
            if c.pixel(x, y) == Some(color) {
                n += 1;
            }
        }
    }
    n
}

#[test]
fn fill_right_triangle() {
    let mut c = Canvas::new(8, 8).unwrap();
    fill_triangle(sp(0, 0), sp(4, 0), sp(0, 4), &mut c, RED);
    for y in 0..8i32 {
        for x in 0..8i32 {
            let inside = y < 4 && x <= 4 - y;
            let expected = if inside { RED } else { CLEAR };
            assert_eq!(c.pixel(x as u32, y as u32), Some(expected), "at ({}, {})", x, y);
        }
    }
    assert_eq!(count_of(&c, RED), 14);
}

#[test]
fn fill_does_not_depend_on_the_order_of_corners() {
    let corners = [sp(1, 1), sp(6, 2), sp(3, 7)];
    let mut first = Canvas::new(8, 8).unwrap();
    fill_triangle(corners[0], corners[1], corners[2], &mut first, RED);
    let orders = [[0, 2, 1], [1, 0, 2], [1, 2, 0], [2, 0, 1], [2, 1, 0]];
    for o in orders {
        let mut other = Canvas::new(8, 8).unwrap();
        fill_triangle(corners[o[0]], corners[o[1]], corners[o[2]], &mut other, RED);
        for y in 0..8 {
            for x in 0..8 {
                assert_eq!(first.pixel(x, y), other.pixel(x, y));
            }
        }
    }
}

#[test]
fn fill_with_two_halves() {
    let mut c = Canvas::new(8, 8).unwrap();
    fill_triangle(sp(0, 0), sp(4, 2), sp(0, 4), &mut c, RED);
    let rows: [(u32, u32, u32); 4] = [(0, 0, 0), (1, 0, 2), (2, 0, 4), (3, 0, 2)];
    for (y, lo, hi) in rows {
        for x in 0..8 {
            let expected = if lo <= x && x <= hi { RED } else { CLEAR };
            assert_eq!(c.pixel(x, y), Some(expected), "at ({}, {})", x, y);
        }
    }
    assert_eq!(count_of(&c, RED), 1 + 3 + 5 + 3);
}

#[test]
fn level_triangle_draws_nothing() {
    let mut c = Canvas::new(8, 8).unwrap();
    fill_triangle(sp(0, 3), sp(5, 3), sp(2, 3), &mut c, RED);
    fill_triangle(sp(4, 4), sp(4, 4), sp(4, 4), &mut c, RED);
    assert_eq!(count_of(&c, CLEAR), 64);
}

#[test]
fn later_fill_covers_earlier_fill() {
    let mut c = Canvas::new(8, 8).unwrap();
    fill_triangle(sp(0, 0), sp(6, 0), sp(0, 6), &mut c, RED);
    fill_triangle(sp(0, 0), sp(3, 0), sp(0, 3), &mut c, BLUE);
    assert_eq!(c.pixel(1, 1), Some(BLUE));
    assert_eq!(c.pixel(4, 1), Some(RED));
    let mut d = Canvas::new(8, 8).unwrap();
    fill_triangle(sp(0, 0), sp(3, 0), sp(0, 3), &mut d, BLUE);
    fill_triangle(sp(0, 0), sp(6, 0), sp(0, 6), &mut d, RED);
    assert_eq!(d.pixel(1, 1), Some(RED));
    assert_eq!(count_of(&d, BLUE), 0);
}

#[test]
fn fill_is_clipped_to_the_canvas() {
    let mut c = Canvas::new(3, 3).unwrap();
    fill_triangle(sp(-5, -5), sp(20, -5), sp(-5, 20), &mut c, RED);
    assert_eq!(count_of(&c, RED), 9);
}

#[test]
fn slanted_line_of_corners_draws_its_edge() {
    let mut c = Canvas::new(4, 4).unwrap();
    fill_triangle(sp(0, 0), sp(1, 1), sp(2, 2), &mut c, RED);
    assert_eq!(c.pixel(0, 0), Some(RED));
    assert_eq!(c.pixel(1, 1), Some(RED));
    assert_eq!(c.pixel(2, 2), Some(CLEAR));
    assert_eq!(count_of(&c, RED), 2);
}
