use rasterizer::canvas::{Canvas, Color};
use rasterizer::depth::{barycentric, triangle};
use rasterizer::point::{DepthPoint, ScreenPoint};

const RED: Color = Color { r: 255, g: 0, b: 0, a: 255 };
const BLUE: Color = Color { r: 0, g: 0, b: 255, a: 255 };
const CLEAR: Color = Color { r: 0, g: 0, b: 0, a: 0 };

fn dp(x: i32, y: i32, z: i32) -> DepthPoint {
    DepthPoint { x, y, z }
}

fn fresh(w: u32, h: u32) -> (Canvas, Vec<i32>) {
    (Canvas::new(w, h).unwrap(), vec![i32::MIN; (w * h) as usize])
}

#[test]
fn weights_at_the_corners() {
    let (a, b, c) = (dp(1, 1, 0), dp(5, 2, 0), dp(2, 6, 0));
    let at_a = barycentric(a, b, c, ScreenPoint { x: 1, y: 1 });
    let at_b = barycentric(a, b, c, ScreenPoint { x: 5, y: 2 });
    let at_c = barycentric(a, b, c, ScreenPoint { x: 2, y: 6 });
    assert_eq!((at_a.a, at_a.b, at_a.c, at_a.den), (19, 0, 0, 19));
    assert_eq!((at_b.a, at_b.b, at_b.c, at_b.den), (0, 19, 0, 19));
    assert_eq!((at_c.a, at_c.b, at_c.c, at_c.den), (0, 0, 19, 19));
}

#[test]
fn weights_inside_and_outside() {
    let (a, b, c) = (dp(0, 0, 0), dp(4, 0, 0), dp(0, 4, 0));
    let w = barycentric(a, b, c, ScreenPoint { x: 1, y: 2 });
    assert_eq!((w.a, w.b, w.c, w.den), (4, 4, 8, 16));
    let w = barycentric(a, b, c, ScreenPoint { x: 3, y: 3 });
    assert_eq!((w.a, w.b, w.c, w.den), (-8, 12, 12, 16));
    let w = barycentric(a, b, c, ScreenPoint { x: -1, y: 0 });
    assert_eq!((w.a, w.b, w.c, w.den), (20, -4, 0, 16));
}

#[test]
fn weights_do_not_depend_on_the_winding() {
    let (a, b, c) = (dp(0, 0, 0), dp(0, 4, 0), dp(4, 0, 0));
    let w = barycentric(a, b, c, ScreenPoint { x: 1, y: 2 });
    assert_eq!((w.a, w.b, w.c, w.den), (4, 8, 4, 16));
}

#[test]
fn weights_of_a_triangle_without_area() {
    let w = barycentric(dp(0, 0, 0), dp(2, 2, 0), dp(4, 4, 0), ScreenPoint { x: 1, y: 1 });
    assert_eq!((w.a, w.b, w.c, w.den), (-1, 1, 1, 1));
    let w = barycentric(dp(3, 3, 1), dp(3, 3, 2), dp(3, 3, 3), ScreenPoint { x: 3, y: 3 });
    assert_eq!((w.a, w.b, w.c, w.den), (-1, 1, 1, 1));
}

#[test]
fn triangle_covers_its_pixels() {
    let (mut image, mut z) = fresh(8, 8);
    triangle([dp(0, 0, 7), dp(4, 0, 7), dp(0, 4, 7)], &mut z, &mut image, RED);
    for y in 0..8u32 {
        for x in 0..8u32 {
            let inside = x + y <= 4;
            assert_eq!(image.pixel(x, y), Some(if inside { RED } else { CLEAR }));
            assert_eq!(z[(x + y * 8) as usize], if inside { 7 } else { i32::MIN });
        }
    }
}

#[test]
fn depth_is_the_weighted_mean_rounded_down() {
    let (mut image, mut z) = fresh(8, 8);
    triangle([dp(0, 0, 0), dp(4, 0, 16), dp(0, 4, 32)], &mut z, &mut image, RED);
    assert_eq!(z[1 + 8], 12);
    assert_eq!(z[1 + 2 * 8], 20);
    assert_eq!(z[0], 0);
    assert_eq!(z[4], 16);
    assert_eq!(z[4 * 8], 32);
    let (mut image, mut z) = fresh(8, 8);
    triangle([dp(0, 0, 0), dp(4, 0, 1), dp(0, 4, 0)], &mut z, &mut image, RED);
    assert_eq!(z[1], 0);
    assert_eq!(z[4], 1);
    let (mut image, mut z) = fresh(8, 8);
    triangle([dp(0, 0, 0), dp(4, 0, -1), dp(0, 4, 0)], &mut z, &mut image, RED);
    assert_eq!(z[1], -1);
    assert_eq!(z[0], 0);
}

#[test]
fn nearer_triangle_is_seen_in_either_order() {
    let near = [dp(0, 0, 10), dp(6, 0, 10), dp(0, 6, 10)];
    let far = [dp(0, 0, 5), dp(4, 0, 5), dp(0, 4, 5)];
    let (mut image, mut z) = fresh(8, 8);
    triangle(near, &mut z, &mut image, RED);
    triangle(far, &mut z, &mut image, BLUE);
    let (mut image2, mut z2) = fresh(8, 8);
    triangle(far, &mut z2, &mut image2, BLUE);
    triangle(near, &mut z2, &mut image2, RED);
    for y in 0..8u32 {
        for x in 0..8u32 {
            assert_eq!(image.pixel(x, y), image2.pixel(x, y));
            if x + y <= 4 {
                assert_eq!(image.pixel(x, y), Some(RED));
                assert_eq!(z[(x + y * 8) as usize], 10);
            }
        }
    }
    assert_eq!(z, z2);
}

#[test]
fn farther_part_shows_where_the_nearer_triangle_ends() {
    let near = [dp(0, 0, 10), dp(2, 0, 10), dp(0, 2, 10)];
    let far = [dp(0, 0, 5), dp(6, 0, 5), dp(0, 6, 5)];
    let (mut image, mut z) = fresh(8, 8);
    triangle(near, &mut z, &mut image, RED);
    triangle(far, &mut z, &mut image, BLUE);
    assert_eq!(image.pixel(1, 1), Some(RED));
    assert_eq!(image.pixel(3, 1), Some(BLUE));
    assert_eq!(image.pixel(7, 7), Some(CLEAR));
}

#[test]
fn equal_depth_keeps_the_first_triangle() {
    let t = [dp(0, 0, 3), dp(4, 0, 3), dp(0, 4, 3)];
    let (mut image, mut z) = fresh(8, 8);
    triangle(t, &mut z, &mut image, RED);
    triangle(t, &mut z, &mut image, BLUE);
    assert_eq!(image.pixel(1, 1), Some(RED));
}

#[test]
fn least_depth_is_never_drawn() {
    let (mut image, mut z) = fresh(4, 4);
    triangle(
        [dp(0, 0, i32::MIN), dp(3, 0, i32::MIN), dp(0, 3, i32::MIN)],
        &mut z,
        &mut image,
        RED,
    );
    assert_eq!(image.pixel(0, 0), Some(CLEAR));
}

#[test]
fn stored_depths_never_fall() {
    let (mut image, mut z) = fresh(8, 8);
    let ts = [
        [dp(0, 0, 3), dp(7, 0, 9), dp(0, 7, -4)],
        [dp(7, 7, 1), dp(0, 7, 1), dp(7, 0, 1)],
        [dp(2, 2, -100), dp(6, 3, 100), dp(3, 6, 0)],
        [dp(-5, -5, 50), dp(20, 0, -50), dp(0, 20, 2)],
    ];
    for t in ts {
        let before = z.clone();
        triangle(t, &mut z, &mut image, BLUE);
        for i in 0..z.len() {
            assert!(z[i] >= before[i]);
        }
    }
}

#[test]
fn triangle_without_area_draws_nothing() {
    let (mut image, mut z) = fresh(8, 8);
    triangle([dp(0, 0, 9), dp(3, 3, 9), dp(6, 6, 9)], &mut z, &mut image, RED);
    triangle([dp(2, 2, 9), dp(2, 2, 9), dp(2, 2, 9)], &mut z, &mut image, RED);
    triangle([dp(0, 5, 9), dp(7, 5, 9), dp(3, 5, 9)], &mut z, &mut image, RED);
    for y in 0..8u32 {
        for x in 0..8u32 {
            assert_eq!(image.pixel(x, y), Some(CLEAR));
            assert_eq!(z[(x + y * 8) as usize], i32::MIN);
        }
    }
}

#[test]
fn triangle_is_clipped_to_the_canvas() {
    let (mut image, mut z) = fresh(3, 2);
    triangle(
        [dp(-100, -100, 1), dp(1000, -100, 1), dp(-100, 1000, 1)],
        &mut z,
        &mut image,
        RED,
    );
    assert_eq!(z, vec![1; 6]);
    let (mut image, mut z) = fresh(3, 2);
    triangle([dp(10, 10, 1), dp(20, 10, 1), dp(10, 20, 1)], &mut z, &mut image, RED);
    assert_eq!(z, vec![i32::MIN; 6]);
    assert_eq!(image.pixel(2, 1), Some(CLEAR));
}

#[test]
fn triangle_with_far_corners() {
    let (mut image, mut z) = fresh(2, 2);
    triangle(
        [
            dp(i32::MIN, i32::MIN, i32::MAX),
            dp(i32::MAX, i32::MIN, i32::MAX),
            dp(i32::MAX, i32::MAX, i32::MAX),
        ],
        &mut z,
        &mut image,
        RED,
    );
    assert_eq!(z, vec![i32::MAX, i32::MAX, i32::MIN, i32::MAX]);
    assert_eq!(image.pixel(1, 1), Some(RED));
    assert_eq!(image.pixel(0, 1), Some(CLEAR));
}
