use rasterizer::canvas::{put_pixel, Canvas, Color};

const RED: Color = Color { r: 255, g: 0, b: 0, a: 255 };
const CLEAR: Color = Color { r: 0, g: 0, b: 0, a: 0 };

#[test]
fn new_canvas_is_clear() {
    let c = Canvas::new(3, 2).unwrap();
    assert_eq!(c.width(), 3);
    assert_eq!(c.height(), 2);
    for y in 0..2 {
        for x in 0..3 {
            assert_eq!(c.pixel(x, y), Some(CLEAR));
        }
    }
}

#[test]
fn pixel_outside_is_none() {
    let c = Canvas::new(3, 2).unwrap();
    assert_eq!(c.pixel(3, 0), None);
    assert_eq!(c.pixel(0, 2), None);
    assert_eq!(c.pixel(u32::MAX, u32::MAX), None);
}

#[test]
fn canvas_too_large_is_refused() {
    assert!(Canvas::new(u32::MAX, u32::MAX).is_none());
}

#[test]
fn empty_canvas_is_allowed() {
    let c = Canvas::new(0, 5).unwrap();
    assert_eq!(c.width(), 0);
    assert_eq!(c.height(), 5);
    assert_eq!(c.pixel(0, 0), None);
}

#[test]
fn put_pixel_writes_one_pixel() {
    let mut c = Canvas::new(3, 2).unwrap();
    put_pixel(&mut c, 2, 1, RED);
    for y in 0..2 {
        for x in 0..3 {
            let expected = if (x, y) == (2, 1) { RED } else { CLEAR };
            assert_eq!(c.pixel(x, y), Some(expected));
        }
    }
}

#[test]
fn put_pixel_outside_is_discarded() {
    let mut c = Canvas::new(3, 2).unwrap();
    put_pixel(&mut c, -1, 0, RED);
    put_pixel(&mut c, 0, -1, RED);
    put_pixel(&mut c, 3, 0, RED);
    put_pixel(&mut c, 0, 2, RED);
    put_pixel(&mut c, i64::MIN, i64::MAX, RED);
    put_pixel(&mut c, 4294967296, 0, RED);
    for y in 0..2 {
        for x in 0..3 {
            assert_eq!(c.pixel(x, y), Some(CLEAR));
        }
    }
}

#[test]
fn flip_vertical_exchanges_rows() {
    let mut c = Canvas::new(2, 3).unwrap();
    put_pixel(&mut c, 0, 0, RED);
    let green = Color { r: 0, g: 255, b: 0, a: 255 };
    put_pixel(&mut c, 1, 1, green);
    c.flip_vertical();
    assert_eq!(c.width(), 2);
    assert_eq!(c.height(), 3);
    assert_eq!(c.pixel(0, 2), Some(RED));
    assert_eq!(c.pixel(0, 0), Some(CLEAR));
    assert_eq!(c.pixel(1, 1), Some(green));
    assert_eq!(c.pixel(1, 0), Some(CLEAR));
    assert_eq!(c.pixel(1, 2), Some(CLEAR));
}
