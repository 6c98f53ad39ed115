use rasterizer::canvas::{Canvas, Color};
use rasterizer::model::Model;
use rasterizer::render::{random_colors, render, render_depth, render_flat, render_wire};

const WHITE: Color = Color { r: 255, g: 255, b: 255, a: 255 };
const RED: Color = Color { r: 255, g: 0, b: 0, a: 255 };
const BLUE: Color = Color { r: 0, g: 0, b: 255, a: 255 };
const CLEAR: Color = Color { r: 0, g: 0, b: 0, a: 0 };

const FRONT: &str = "v -1 -1 0\nv 1 -1 0\nv 0 1 0\nf 1 2 3\n";
const BACK: &str = "v -1 -1 0\nv 1 -1 0\nv 0 1 0\nf 1 3 2\n";

fn mesh(text: &str) -> Model {
    Model::load_obj(text).ok().unwrap()
}

fn pixels_of(c: &Canvas, color: Color) -> usize {
    let mut n = 0;
    for y in 0..c.height() {
        for x in 0..c.width() {
            if c.pixel(x, y) == Some(color) {
                n += 1;
            }
        }
    }
    n
}

#[test]
fn flat_shading_draws_the_face_that_looks_at_the_viewer() {
    let mut c = Canvas::new(800, 800).unwrap();
    render_flat(&mesh(FRONT), &mut c);
    assert_eq!(c.pixel(400, 400), Some(WHITE));
    assert_eq!(c.pixel(200, 400), Some(WHITE));
    assert_eq!(c.pixel(600, 400), Some(WHITE));
    assert_eq!(c.pixel(199, 400), Some(CLEAR));
    assert_eq!(c.pixel(601, 400), Some(CLEAR));
    assert_eq!(c.pixel(0, 0), Some(WHITE));
    assert_eq!(c.pixel(799, 0), Some(WHITE));
    assert_eq!(pixels_of(&c, WHITE) + pixels_of(&c, CLEAR), 640_000);
    assert_eq!(pixels_of(&c, WHITE), 321_598);
}

#[test]
fn flat_shading_culls_the_face_that_looks_away() {
    let mut c = Canvas::new(800, 800).unwrap();
    render_flat(&mesh(BACK), &mut c);
    assert_eq!(pixels_of(&c, CLEAR), 640_000);
}

#[test]
fn flat_shading_shows_the_later_face() {
    let text = "v -1 -1 0\nv 1 -1 0\nv -1 1 0\nv -1 -1 0\nv 1 -1 1\nv -1 1 1\nf 1 2 3\nf 4 5 6\n";
    let mut c = Canvas::new(8, 8).unwrap();
    render_flat(&mesh(text), &mut c);
    let second = c.pixel(1, 1).unwrap();
    assert_ne!(second, WHITE);
    assert_ne!(second, CLEAR);
    let swapped = "v -1 -1 0\nv 1 -1 0\nv -1 1 0\nv -1 -1 0\nv 1 -1 1\nv -1 1 1\nf 4 5 6\nf 1 2 3\n";
    let mut d = Canvas::new(8, 8).unwrap();
    render_flat(&mesh(swapped), &mut d);
    assert_eq!(d.pixel(1, 1), Some(WHITE));
}

#[test]
fn wire_frame_draws_three_sides() {
    let mut c = Canvas::new(8, 8).unwrap();
    render_wire(&mesh("v -1 -1 0\nv 0 -1 0\nv -1 0 0\nf 1 2 3\n"), &mut c, RED);
    for i in 0..=4u32 {
        assert_eq!(c.pixel(i, 0), Some(RED));
        assert_eq!(c.pixel(0, i), Some(RED));
        assert_eq!(c.pixel(4 - i, i), Some(RED));
    }
    assert_eq!(c.pixel(1, 1), Some(CLEAR));
    assert_eq!(pixels_of(&c, RED), 12);
}

#[test]
fn wire_frame_of_an_empty_mesh_is_empty() {
    let mut c = Canvas::new(4, 4).unwrap();
    render_wire(&mesh(""), &mut c, RED);
    assert_eq!(pixels_of(&c, CLEAR), 16);
}

#[test]
fn depth_render_shows_the_nearer_face_in_either_order() {
    let near_first = "v -1 -1 0.5\nv 1 -1 0.5\nv -1 1 0.5\nv -1 -1 0\nv 1 -1 0\nv -1 1 0\nf 1 2 3\nf 4 5 6\n";
    let far_first = "v -1 -1 0.5\nv 1 -1 0.5\nv -1 1 0.5\nv -1 -1 0\nv 1 -1 0\nv -1 1 0\nf 4 5 6\nf 1 2 3\n";
    let mut a = Canvas::new(8, 8).unwrap();
    let mut za = vec![i32::MIN; 64];
    render_depth(&mesh(near_first), &vec![RED, BLUE], &mut za, &mut a);
    let mut b = Canvas::new(8, 8).unwrap();
    let mut zb = vec![i32::MIN; 64];
    render_depth(&mesh(far_first), &vec![BLUE, RED], &mut zb, &mut b);
    assert_eq!(za, zb);
    for y in 0..8 {
        for x in 0..8 {
            assert_eq!(a.pixel(x, y), b.pixel(x, y));
        }
    }
    assert_eq!(a.pixel(1, 1), Some(RED));
    assert_eq!(za[1 + 8], 500_000);
    assert_eq!(a.pixel(7, 7), Some(CLEAR));
    assert_eq!(za[63], i32::MIN);
    assert_eq!(pixels_of(&a, BLUE), 0);
}

#[test]
fn random_colors_are_opaque() {
    let mut rng = rand::thread_rng();
    let colors = random_colors(200, &mut rng);
    assert_eq!(colors.len(), 200);
    for c in &colors {
        assert_eq!(c.a, 255);
        assert!(c.r < 255 && c.g < 255 && c.b < 255);
    }
    assert!(colors.iter().any(|c| *c != colors[0]));
    assert_eq!(random_colors(0, &mut rng).len(), 0);
}

#[test]
fn picture_is_turned_upside_down() {
    let mut rng = rand::thread_rng();
    let c = render(&mesh(FRONT), 16, 16, &mut rng).unwrap();
    assert_eq!(c.width(), 16);
    assert_eq!(c.height(), 16);
    let base = c.pixel(8, 15).unwrap();
    assert_eq!(base.a, 255);
    assert_eq!(c.pixel(0, 15), Some(base));
    assert_eq!(c.pixel(15, 15), Some(base));
    assert_eq!(c.pixel(8, 8), Some(base));
    assert_eq!(c.pixel(0, 0), Some(CLEAR));
    assert_eq!(c.pixel(15, 0), Some(CLEAR));
    assert_eq!(c.pixel(0, 8), Some(CLEAR));
}

#[test]
fn picture_that_is_too_large_is_refused() {
    let mut rng = rand::thread_rng();
    assert!(render(&mesh(FRONT), u32::MAX, u32::MAX, &mut rng).is_none());
}

#[test]
fn picture_of_an_empty_mesh_is_clear() {
    let mut rng = rand::thread_rng();
    let c = render(&mesh("# nothing\n"), 5, 4, &mut rng).unwrap();
    assert_eq!(pixels_of(&c, CLEAR), 20);
}
