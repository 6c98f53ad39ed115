use rasterizer::canvas::{Canvas, Color};
use rasterizer::point::ScreenPoint;

const WHITE: Color = Color { r: 255, g: 255, b: 255, a: 255 };

fn pt(x: i32, y: i32) -> ScreenPoint {
    ScreenPoint { x, y }
}

fn lit_pixels(c: &Canvas) -> Vec<(u32, u32)> {
    let mut out = Vec::new();
    for y in 0..c.height() {
        for x in 0..c.width() {
            if c.pixel(x, y) == Some(WHITE) {
                out.push((x, y));
            }
        }
    }
    out
}

fn drawn(p0: ScreenPoint, p1: ScreenPoint, w: u32, h: u32) -> Vec<(u32, u32)> {
    let mut c = Canvas::new(w, h).unwrap();
    rasterizer::line::line(p0, p1, &mut c, WHITE);
    lit_pixels(&c)
}

#[test]
fn shallow_line_pixels() {
    assert_eq!(drawn(pt(0, 0), pt(3, 1), 5, 5), vec![(0, 0), (1, 0), (2, 1), (3, 1)]);
}

#[test]
fn steep_line_pixels() {
    assert_eq!(drawn(pt(0, 0), pt(1, 3), 5, 5), vec![(0, 0), (0, 1), (1, 2), (1, 3)]);
}

#[test]
fn line_takes_the_pixel_nearer_the_start_at_a_tie() {
    assert_eq!(drawn(pt(0, 0), pt(2, 1), 5, 5), vec![(0, 0), (1, 0), (2, 1)]);
}

#[test]
fn falling_line_pixels() {
    assert_eq!(drawn(pt(0, 3), pt(3, 0), 5, 5), vec![(3, 0), (2, 1), (1, 2), (0, 3)]);
}

#[test]
fn single_point_line() {
    assert_eq!(drawn(pt(2, 2), pt(2, 2), 5, 5), vec![(2, 2)]);
}

#[test]
fn horizontal_and_vertical_lines() {
    assert_eq!(drawn(pt(1, 2), pt(4, 2), 6, 4), vec![(1, 2), (2, 2), (3, 2), (4, 2)]);
    assert_eq!(drawn(pt(2, 0), pt(2, 3), 6, 4), vec![(2, 0), (2, 1), (2, 2), (2, 3)]);
}

#[test]
fn line_is_the_same_from_either_end() {
    let ends = [
        (pt(0, 0), pt(7, 3)),
        (pt(1, 6), pt(5, 0)),
        (pt(7, 7), pt(0, 2)),
        (pt(3, 0), pt(4, 7)),
        (pt(-3, 2), pt(9, 5)),
        (pt(0, 0), pt(2, 1)),
    ];
    for (a, b) in ends {
        assert_eq!(drawn(a, b, 8, 8), drawn(b, a, 8, 8));
    }
}

#[test]
fn line_is_connected_and_skips_no_column() {
    let pixels = drawn(pt(0, 1), pt(7, 4), 8, 8);
    assert_eq!(pixels.len(), 8);
    let mut by_column = pixels.clone();
    by_column.sort();
    assert_eq!(by_column.first(), Some(&(0, 1)));
    assert_eq!(by_column.last(), Some(&(7, 4)));
    for i in 1..by_column.len() {
        let (x0, y0) = by_column[i - 1];
        let (x1, y1) = by_column[i];
        assert_eq!(x1, x0 + 1);
        assert!(y1 == y0 || y1 == y0 + 1);
    }
}

#[test]
fn line_outside_the_canvas_is_clipped() {
    assert_eq!(drawn(pt(-2, 1), pt(2, 1), 2, 3), vec![(0, 1), (1, 1)]);
    assert_eq!(drawn(pt(10, 10), pt(20, 14), 4, 4), vec![]);
}

#[test]
fn line_with_far_ends_keeps_its_slope() {
    let pixels = drawn(pt(-1000, -1000), pt(1000, 1000), 3, 3);
    assert_eq!(pixels, vec![(0, 0), (1, 1), (2, 2)]);
}
