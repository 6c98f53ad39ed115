use rasterizer::canvas::Color;
use rasterizer::model::Vertex;
use rasterizer::point::DepthPoint;
use rasterizer::project::{shade, world2screen};

fn vx(x: i32, y: i32, z: i32) -> Vertex {
    Vertex { x, y, z }
}

fn grey(level: u8) -> Option<Color> {
    Some(Color { r: level, g: level, b: level, a: 255 })
}

const ONE: i32 = 1_000_000;

#[test]
fn edges_of_the_range_fall_on_the_edges_of_the_canvas() {
    assert_eq!(world2screen(vx(-ONE, -ONE, 0), 800, 600), DepthPoint { x: 0, y: 0, z: 0 });
    assert_eq!(world2screen(vx(ONE, ONE, 0), 800, 600), DepthPoint { x: 800, y: 600, z: 0 });
    assert_eq!(world2screen(vx(0, 0, 0), 800, 600), DepthPoint { x: 400, y: 300, z: 0 });
}

#[test]
fn depth_passes_through() {
    assert_eq!(world2screen(vx(0, 0, -734_665), 10, 10).z, -734_665);
    assert_eq!(world2screen(vx(0, 0, i32::MAX), 10, 10).z, i32::MAX);
}

#[test]
fn projection_rounds_to_the_nearest_pixel() {
    assert_eq!(world2screen(vx(500_000, 0, 0), 800, 800).x, 600);
    assert_eq!(world2screen(vx(1_250, 0, 0), 800, 800).x, 401);
    assert_eq!(world2screen(vx(1_249, 0, 0), 800, 800).x, 400);
    assert_eq!(world2screen(vx(-1_250, 0, 0), 800, 800).x, 400);
    assert_eq!(world2screen(vx(-1_251, 0, 0), 800, 800).x, 399);
    assert_eq!(world2screen(vx(0, 0, 0), 3, 3), DepthPoint { x: 2, y: 2, z: 0 });
    assert_eq!(world2screen(vx(-ONE, 0, 0), 1, 1).x, 0);
}

#[test]
fn projection_left_of_the_canvas() {
    assert_eq!(world2screen(vx(-2 * ONE, -3 * ONE, 0), 800, 800), DepthPoint { x: -400, y: -800, z: 0 });
    assert_eq!(world2screen(vx(-ONE - 1_250, 0, 0), 800, 800).x, 0);
    assert_eq!(world2screen(vx(-ONE - 1_251, 0, 0), 800, 800).x, -1);
}

#[test]
fn projection_is_held_to_what_a_pixel_position_can_be() {
    assert_eq!(world2screen(vx(i32::MAX, i32::MIN, 0), u32::MAX, u32::MAX).x, i32::MAX);
    assert_eq!(world2screen(vx(i32::MAX, i32::MIN, 0), u32::MAX, u32::MAX).y, i32::MIN);
    assert_eq!(world2screen(vx(5, 5, 5), 0, 0), DepthPoint { x: 0, y: 0, z: 5 });
}

#[test]
fn face_that_looks_at_the_viewer_is_white() {
    assert_eq!(shade(vx(-ONE, -ONE, 0), vx(ONE, -ONE, 0), vx(0, ONE, 0)), grey(255));
    assert_eq!(shade(vx(0, 0, 5), vx(1, 0, 5), vx(0, 1, 5)), grey(255));
}

#[test]
fn face_that_looks_away_has_no_shade() {
    assert_eq!(shade(vx(-ONE, -ONE, 0), vx(0, ONE, 0), vx(ONE, -ONE, 0)), None);
}

#[test]
fn face_seen_edge_on_has_no_shade() {
    assert_eq!(shade(vx(0, 0, 0), vx(ONE, 0, 0), vx(0, 0, ONE)), None);
    assert_eq!(shade(vx(0, 0, 0), vx(ONE, ONE, ONE), vx(2 * ONE, 2 * ONE, 2 * ONE)), None);
    assert_eq!(shade(vx(7, 7, 7), vx(7, 7, 7), vx(7, 7, 7)), None);
}

#[test]
fn tilted_faces_are_darker() {
    assert_eq!(shade(vx(0, 0, 0), vx(ONE, 0, 0), vx(0, ONE, ONE)), grey(180));
    assert_eq!(shade(vx(0, 0, 0), vx(3, 0, 0), vx(0, 4, 3)), grey(204));
    assert_eq!(shade(vx(0, 0, 0), vx(4, 0, 0), vx(0, 3, 4)), grey(153));
    assert_eq!(shade(vx(0, 0, 0), vx(1, 0, 0), vx(0, 1, 1000)), grey(0));
}

#[test]
fn shade_of_the_greatest_face() {
    let (lo, hi) = (i32::MIN, i32::MAX);
    assert_eq!(shade(vx(lo, lo, 0), vx(hi, lo, 0), vx(lo, hi, 0)), grey(255));
    assert_eq!(shade(vx(lo, lo, lo), vx(hi, lo, lo), vx(lo, hi, hi)), grey(180));
    assert_eq!(shade(vx(lo, lo, lo), vx(hi, lo, lo), vx(lo, hi, lo + 1)), grey(254));
    assert_eq!(shade(vx(lo, lo, 0), vx(lo, hi, 0), vx(hi, lo, 0)), None);
}
