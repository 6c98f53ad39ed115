//! Drawing a whole mesh: as a wire frame, in flat shades of grey, or in one
//! colour for each face with the nearer face in front.

use crate::canvas::{lemma_paint_more, Canvas, Color, Grid};
use crate::depth::{depth_at, shows, triangle, Scene};
use crate::line::{line, line_pixels};
use crate::model::{Mesh, Model, Vertex};
use crate::point::{DepthPoint, ScreenPoint};
use crate::project::{project, shade, shading, world2screen};
use crate::scanline::{fill_triangle, triangle_pixels};
use rand::rngs::ThreadRng;
use rand::Rng;
use vstd::prelude::*;

verus! {

/// `rand::rngs::ThreadRng`, the source of random numbers. Opaque to the
/// verifier.
#[verifier::external_type_specification]
#[verifier::external_body]
pub struct ExThreadRng(ThreadRng);

/// Calls `Rng::gen_range` on the range from zero up to `bound`, `bound` left
/// out. It panics on an empty range, and otherwise returns a number of the
/// range; which one is left open. The generator also gives up if the
/// operating system can hand it no fresh seed, which no condition on
/// `bound` can rule out.
#[verifier::external_body]
fn random_below(rng: &mut ThreadRng, bound: u8) -> (r: u8)
    requires
        bound > 0,
    ensures
        r < bound,
{
    rng.gen_range(0..bound)
}

/// The position of `p` on the screen, without its depth.
pub open spec fn on_screen(p: DepthPoint) -> ScreenPoint {
    ScreenPoint { x: p.x, y: p.y }
}

/// Where corner `j` of face `f` falls on a canvas of the given size.
pub open spec fn projected(mesh: Mesh, f: int, j: int, width: int, height: int) -> DepthPoint {
    project(mesh.corner(f, j), width, height)
}

/// The three sides of the triangle `a`, `b`, `c`.
pub open spec fn outline(a: ScreenPoint, b: ScreenPoint, c: ScreenPoint) -> Set<(int, int)> {
    line_pixels(a, b).union(line_pixels(b, c)).union(line_pixels(c, a))
}

/// The sides of the first `count` faces of `mesh` on a canvas of the given
/// size.
pub open spec fn wire_pixels(mesh: Mesh, width: int, height: int, count: nat) -> Set<(int, int)>
    decreases count,
{
    if count == 0 {
        Set::empty()
    } else {
        let f = count - 1;
        wire_pixels(mesh, width, height, (count - 1) as nat).union(
            outline(
                on_screen(projected(mesh, f, 0, width, height)),
                on_screen(projected(mesh, f, 1, width, height)),
                on_screen(projected(mesh, f, 2, width, height)),
            ),
        )
    }
}

/// The colour of pixel `(x, y)` after the first `count` faces of `mesh` have
/// been filled in their shades over the colour `base`: that of the last of
/// them that is lit and reaches the pixel.
pub open spec fn flat_pixel(
    mesh: Mesh,
    width: int,
    height: int,
    count: nat,
    x: int,
    y: int,
    base: Color,
) -> Color
    decreases count,
{
    if count == 0 {
        base
    } else {
        let f = count - 1;
        let below = flat_pixel(mesh, width, height, (count - 1) as nat, x, y, base);
        match shading(mesh.corner(f, 0), mesh.corner(f, 1), mesh.corner(f, 2)) {
            Some(color) => if triangle_pixels(
                on_screen(projected(mesh, f, 0, width, height)),
                on_screen(projected(mesh, f, 1, width, height)),
                on_screen(projected(mesh, f, 2, width, height)),
            ).contains((x, y)) {
                color
            } else {
                below
            },
            None => below,
        }
    }
}

/// The colour and the depth of pixel `(x, y)` after the first `count` faces
/// of `mesh` have been drawn with depth testing, face `f` in `colors[f]`,
/// over the colour and depth `base`.
pub open spec fn depth_pixel(
    mesh: Mesh,
    colors: Seq<Color>,
    width: int,
    height: int,
    count: nat,
    x: int,
    y: int,
    base: (Color, int),
) -> (Color, int)
    decreases count,
{
    if count == 0 {
        base
    } else {
        let f = count - 1;
        let below = depth_pixel(mesh, colors, width, height, (count - 1) as nat, x, y, base);
        let a = projected(mesh, f, 0, width, height);
        let b = projected(mesh, f, 1, width, height);
        let c = projected(mesh, f, 2, width, height);
        if shows(a, b, c, x, y, below.1) {
            (colors[f], depth_at(a, b, c, x, y))
        } else {
            below
        }
    }
}

/// The three corners of face `f`.
fn corners_of(model: &Model, f: usize) -> (v: (Vertex, Vertex, Vertex))
    requires
        f < model@.faces.len(),
    ensures
        v.0 == model@.corner(f as int, 0),
        v.1 == model@.corner(f as int, 1),
        v.2 == model@.corner(f as int, 2),
{
    let face = model.face(f);
    (model.vert(face[0]), model.vert(face[1]), model.vert(face[2]))
}

/// Draws the sides of every face of `model` in `color`.
pub fn render_wire(model: &Model, image: &mut Canvas, color: Color)
    ensures
        final(image)@.is_painted(
            old(image)@,
            wire_pixels(
                model@,
                old(image)@.width as int,
                old(image)@.height as int,
                model@.faces.len(),
            ),
            color,
        ),
{
    let width: u32 = image.width();
    let height: u32 = image.height();
    let count: usize = model.nfaces();
    let mut f: usize = 0;
    while f < count
        invariant
            0 <= f <= count,
            count == model@.faces.len(),
            width == old(image)@.width,
            height == old(image)@.height,
            image@.is_painted(
                old(image)@,
                wire_pixels(model@, width as int, height as int, f as nat),
                color,
            ),
        decreases count - f,
    {
        let v = corners_of(model, f);
        let p0 = world2screen(v.0, width, height);
        let p1 = world2screen(v.1, width, height);
        let p2 = world2screen(v.2, width, height);
        let a = ScreenPoint { x: p0.x, y: p0.y };
        let b = ScreenPoint { x: p1.x, y: p1.y };
        let c = ScreenPoint { x: p2.x, y: p2.y };
        let ghost g0 = image@;
        line(a, b, image, color);
        let ghost g1 = image@;
        line(b, c, image, color);
        let ghost g2 = image@;
        line(c, a, image, color);
        proof {
            let done = wire_pixels(model@, width as int, height as int, f as nat);
            lemma_paint_more(g1, g0, old(image)@, done, line_pixels(a, b), color);
            lemma_paint_more(g2, g1, old(image)@, done.union(line_pixels(a, b)), line_pixels(b, c), color);
            lemma_paint_more(
                image@,
                g2,
                old(image)@,
                done.union(line_pixels(a, b)).union(line_pixels(b, c)),
                line_pixels(c, a),
                color,
            );
            assert(done.union(line_pixels(a, b)).union(line_pixels(b, c)).union(line_pixels(c, a))
                =~= wire_pixels(model@, width as int, height as int, (f + 1) as nat));
        }
        f += 1;
    }
}

/// Fills every face of `model` that is lit in its shade of grey, in the
/// order of the faces. Where faces overlap, the later one is seen.
pub fn render_flat(model: &Model, image: &mut Canvas)
    ensures
        final(image)@.same_size(old(image)@),
        forall|x: int, y: int| #[trigger]
            old(image)@.inside(x, y) ==> final(image)@.at(x, y) == flat_pixel(
                model@,
                old(image)@.width as int,
                old(image)@.height as int,
                model@.faces.len(),
                x,
                y,
                old(image)@.at(x, y),
            ),
{
    let width: u32 = image.width();
    let height: u32 = image.height();
    let count: usize = model.nfaces();
    let mut f: usize = 0;
    while f < count
        invariant
            0 <= f <= count,
            count == model@.faces.len(),
            width == old(image)@.width,
            height == old(image)@.height,
            image@.same_size(old(image)@),
            forall|x: int, y: int| #[trigger]
                old(image)@.inside(x, y) ==> image@.at(x, y) == flat_pixel(
                    model@,
                    width as int,
                    height as int,
                    f as nat,
                    x,
                    y,
                    old(image)@.at(x, y),
                ),
        decreases count - f,
    {
        let v = corners_of(model, f);
        let ghost before = image@;
        match shade(v.0, v.1, v.2) {
            Some(color) => {
                let p0 = world2screen(v.0, width, height);
                let p1 = world2screen(v.1, width, height);
                let p2 = world2screen(v.2, width, height);
                fill_triangle(
                    ScreenPoint { x: p0.x, y: p0.y },
                    ScreenPoint { x: p1.x, y: p1.y },
                    ScreenPoint { x: p2.x, y: p2.y },
                    image,
                    color,
                );
            },
            None => {},
        }
        proof {
            assert forall|x: int, y: int| #[trigger] old(image)@.inside(x, y) implies image@.at(x, y)
                == flat_pixel(
                model@,
                width as int,
                height as int,
                (f + 1) as nat,
                x,
                y,
                old(image)@.at(x, y),
            ) by {
                assert(image@.inside(x, y));
            }
        }
        f += 1;
    }
}

/// Draws every face of `model` with depth testing, face `f` in `colors[f]`.
/// `zbuffer` holds the depth of pixel `(x, y)` at `x + y * width`. No depth
/// in it falls.
pub fn render_depth(model: &Model, colors: &Vec<Color>, zbuffer: &mut Vec<i32>, image: &mut Canvas)
    requires
        colors.len() == model@.faces.len(),
        old(zbuffer).len() == old(image)@.width * old(image)@.height,
    ensures
        final(image)@.same_size(old(image)@),
        final(zbuffer).len() == old(zbuffer).len(),
        forall|i: int| 0 <= i < old(zbuffer).len() ==> final(zbuffer)[i] >= old(zbuffer)[i],
        forall|x: int, y: int| #[trigger]
            old(image)@.inside(x, y) ==> ({
                let before = Scene { grid: old(image)@, depths: old(zbuffer)@ };
                let after = Scene { grid: final(image)@, depths: final(zbuffer)@ };
                (after.grid.at(x, y), after.depth(x, y)) == depth_pixel(
                    model@,
                    colors@,
                    before.grid.width as int,
                    before.grid.height as int,
                    model@.faces.len(),
                    x,
                    y,
                    (before.grid.at(x, y), before.depth(x, y)),
                )
            }),
{
    let width: u32 = image.width();
    let height: u32 = image.height();
    let count: usize = model.nfaces();
    let ghost before = Scene { grid: old(image)@, depths: old(zbuffer)@ };
    let mut f: usize = 0;
    while f < count
        invariant
            0 <= f <= count,
            count == model@.faces.len(),
            count == colors.len(),
            before == (Scene { grid: old(image)@, depths: old(zbuffer)@ }),
            width == before.grid.width,
            height == before.grid.height,
            image@.same_size(before.grid),
            zbuffer.len() == before.depths.len(),
            zbuffer.len() == width * height,
            forall|i: int| 0 <= i < zbuffer.len() ==> zbuffer[i] >= before.depths[i],
            forall|x: int, y: int| #[trigger]
                before.grid.inside(x, y) ==> ({
                    let now = Scene { grid: image@, depths: zbuffer@ };
                    (now.grid.at(x, y), now.depth(x, y)) == depth_pixel(
                        model@,
                        colors@,
                        width as int,
                        height as int,
                        f as nat,
                        x,
                        y,
                        (before.grid.at(x, y), before.depth(x, y)),
                    )
                }),
        decreases count - f,
    {
        let v = corners_of(model, f);
        let pts = [
            world2screen(v.0, width, height),
            world2screen(v.1, width, height),
            world2screen(v.2, width, height),
        ];
        let ghost mid = Scene { grid: image@, depths: zbuffer@ };
        triangle(pts, zbuffer, image, colors[f]);
        proof {
            let now = Scene { grid: image@, depths: zbuffer@ };
            assert forall|x: int, y: int| #[trigger] before.grid.inside(x, y) implies (
                now.grid.at(x, y),
                now.depth(x, y),
            ) == depth_pixel(
                model@,
                colors@,
                width as int,
                height as int,
                (f + 1) as nat,
                x,
                y,
                (before.grid.at(x, y), before.depth(x, y)),
            ) by {
                assert(mid.grid.inside(x, y));
                assert(now.drawn_at(mid, pts[0], pts[1], pts[2], colors[f as int], x, y));
            }
        }
        f += 1;
    }
}

/// Whether `colors` are `count` colours that `random_colors` may return.
pub open spec fn is_palette(colors: Seq<Color>, count: nat) -> bool {
    &&& colors.len() == count
    &&& forall|i: int|
        0 <= i < count ==> (#[trigger] colors[i]).a == 255 && colors[i].r < 255 && colors[i].g < 255
            && colors[i].b < 255
}

/// `count` colours drawn at random, none of them see-through.
pub fn random_colors(count: usize, rng: &mut ThreadRng) -> (colors: Vec<Color>)
    ensures
        is_palette(colors@, count as nat),
{
    let mut colors: Vec<Color> = Vec::new();
    while colors.len() < count
        invariant
            colors.len() <= count,
            is_palette(colors@, colors.len() as nat),
        decreases count - colors.len(),
    {
        let r: u8 = random_below(rng, 255);
        let g: u8 = random_below(rng, 255);
        let b: u8 = random_below(rng, 255);
        colors.push(Color { r, g, b, a: 255 });
    }
    colors
}

/// The colour of a canvas on which nothing has been drawn.
pub open spec fn clear() -> Color {
    Color { r: 0, g: 0, b: 0, a: 0 }
}

/// Whether `grid` shows `mesh` drawn with depth testing in `colors` on a
/// clear canvas, the greatest height at the top row.
pub open spec fn is_picture(grid: Grid, mesh: Mesh, colors: Seq<Color>) -> bool {
    forall|x: int, y: int| #[trigger]
        grid.inside(x, y) ==> grid.at(x, y) == depth_pixel(
            mesh,
            colors,
            grid.width as int,
            grid.height as int,
            mesh.faces.len(),
            x,
            grid.height - 1 - y,
            (clear(), i32::MIN as int),
        ).0
}

/// A picture of `model`, `width` by `height` pixels: each face in a colour
/// drawn at random, nearer faces in front, on a clear ground. The result is
/// `None` if a picture of that size cannot be held in memory.
pub fn render(model: &Model, width: u32, height: u32, rng: &mut ThreadRng) -> (r: Option<Canvas>)
    ensures
        r.is_some() <==> 4 * width * height <= isize::MAX,
        r matches Some(c) ==> c@.width == width && c@.height == height && exists|
            colors: Seq<Color>,
        |
            is_palette(colors, model@.faces.len()) && #[trigger] is_picture(c@, model@, colors),
{
    let mut image = match Canvas::new(width, height) {
        None => {
            return None;
        },
        Some(c) => c,
    };
    assert(4 * width * height == 4 * (width * height)) by (nonlinear_arith);
    assert(0 <= width * height) by (nonlinear_arith);
    let size: usize = (width as usize) * (height as usize);
    let mut zbuffer: Vec<i32> = vec![i32::MIN; size];
    let colors = random_colors(model.nfaces(), rng);
    let ghost before = Scene { grid: image@, depths: zbuffer@ };
    render_depth(model, &colors, &mut zbuffer, &mut image);
    let ghost drawn = image@;
    image.flip_vertical();
    proof {
        assert forall|x: int, y: int| #[trigger] image@.inside(x, y) implies image@.at(x, y)
            == depth_pixel(
            model@,
            colors@,
            image@.width as int,
            image@.height as int,
            model@.faces.len(),
            x,
            image@.height - 1 - y,
            (clear(), i32::MIN as int),
        ).0 by {
            let up = image@.height - 1 - y;
            assert(before.grid.inside(x, up));
            crate::depth::lemma_depth_index(width as nat, height as nat, x, up);
        }
        assert(is_picture(image@, model@, colors@));
    }
    Some(image)
}

} // verus!
