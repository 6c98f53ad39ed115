//! The depth-tested triangle filler.
//!
//! Every pixel in a triangle's bounding box is located by its barycentric
//! weights. Where all three are non-negative the pixel lies in the triangle;
//! its depth is the weighted mean of the corners' depths, and it is drawn if
//! that is nearer than what the depth buffer holds for the pixel.
//!
//! Corners lie on whole pixels, so the weights are exact fractions. They are
//! kept as three numerators over one positive denominator.

use crate::canvas::{put_pixel, Canvas, Color, Grid};
use crate::point::{floor_div, lemma_div_within, lemma_mul_within, DepthPoint, ScreenPoint};
use vstd::prelude::*;

verus! {

/// Barycentric weights `a / den`, `b / den`, `c / den`, with `den > 0`.
pub struct Bary {
    pub a: int,
    pub b: int,
    pub c: int,
    pub den: int,
}

/// Barycentric weights as they are computed: three numerators over one
/// denominator.
#[derive(Clone, Copy, Debug)]
pub struct Weights {
    pub a: i128,
    pub b: i128,
    pub c: i128,
    pub den: i128,
}

impl View for Weights {
    type V = Bary;

    open spec fn view(&self) -> Bary {
        Bary { a: self.a as int, b: self.b as int, c: self.c as int, den: self.den as int }
    }
}

/// Twice the signed area of the triangle `a`, `b`, `c` on the screen. It is
/// zero exactly when the three corners lie on one line.
pub open spec fn twice_area(a: DepthPoint, b: DepthPoint, c: DepthPoint) -> int {
    (c.x - a.x) * (b.y - a.y) - (b.x - a.x) * (c.y - a.y)
}

/// The weights of the pixel `(px, py)` with respect to the corners `a`, `b`
/// and `c`. For a triangle without area they are `-1`, `1`, `1`, which no
/// pixel test accepts.
pub open spec fn bary(a: DepthPoint, b: DepthPoint, c: DepthPoint, px: int, py: int) -> Bary {
    let ux = (b.x - a.x) * (a.y - py) - (a.x - px) * (b.y - a.y);
    let uy = (a.x - px) * (c.y - a.y) - (c.x - a.x) * (a.y - py);
    let uz = twice_area(a, b, c);
    if uz == 0 {
        Bary { a: -1, b: 1, c: 1, den: 1 }
    } else if uz > 0 {
        Bary { a: uz - ux - uy, b: uy, c: ux, den: uz }
    } else {
        Bary { a: -(uz - ux - uy), b: -uy, c: -ux, den: -uz }
    }
}

/// Whether the pixel `(px, py)` lies in the triangle, its edges included.
pub open spec fn covered(a: DepthPoint, b: DepthPoint, c: DepthPoint, px: int, py: int) -> bool {
    let w = bary(a, b, c, px, py);
    w.a >= 0 && w.b >= 0 && w.c >= 0
}

/// The depth of the triangle at the pixel `(px, py)`: the mean of the
/// corners' depths by the pixel's weights, rounded down.
pub open spec fn depth_at(a: DepthPoint, b: DepthPoint, c: DepthPoint, px: int, py: int) -> int {
    let w = bary(a, b, c, px, py);
    (w.a * a.z + w.b * b.z + w.c * c.z) / w.den
}

/// Where the depth of pixel `(x, y)` is kept in a depth buffer for a canvas
/// of the given width.
pub open spec fn depth_index(width: nat, x: int, y: int) -> int {
    x + y * width
}

/// Whether the triangle shows at `(x, y)` over a stored depth of `stored`.
pub open spec fn shows(
    a: DepthPoint,
    b: DepthPoint,
    c: DepthPoint,
    x: int,
    y: int,
    stored: int,
) -> bool {
    covered(a, b, c, x, y) && depth_at(a, b, c, x, y) > stored
}

/// The state of a render: the canvas and the depth stored for each pixel.
pub struct Scene {
    pub grid: Grid,
    pub depths: Seq<i32>,
}

impl Scene {
    /// The depth stored for pixel `(x, y)`.
    pub open spec fn depth(self, x: int, y: int) -> int {
        self.depths[depth_index(self.grid.width, x, y)] as int
    }

    /// Whether there is one stored depth for each pixel.
    pub open spec fn wf(self) -> bool {
        self.depths.len() == self.grid.width * self.grid.height
    }

    /// Whether pixel `(x, y)` is the same here as in `before`.
    pub open spec fn kept_at(self, before: Scene, x: int, y: int) -> bool {
        self.depth(x, y) == before.depth(x, y) && self.grid.at(x, y) == before.grid.at(x, y)
    }

    /// Whether pixel `(x, y)` is here what drawing the triangle `a`, `b`, `c`
    /// in `color` makes of it in `before`: where the triangle shows, its
    /// colour and depth; elsewhere, what was there.
    pub open spec fn drawn_at(
        self,
        before: Scene,
        a: DepthPoint,
        b: DepthPoint,
        c: DepthPoint,
        color: Color,
        x: int,
        y: int,
    ) -> bool {
        if shows(a, b, c, x, y, before.depth(x, y)) {
            self.depth(x, y) == depth_at(a, b, c, x, y) && self.grid.at(x, y) == color
        } else {
            self.kept_at(before, x, y)
        }
    }

    /// Whether this scene is `before` with the triangle `a`, `b`, `c` drawn
    /// into it in `color`.
    pub open spec fn is_drawn(
        self,
        before: Scene,
        a: DepthPoint,
        b: DepthPoint,
        c: DepthPoint,
        color: Color,
    ) -> bool {
        &&& self.grid.same_size(before.grid)
        &&& self.depths.len() == before.depths.len()
        &&& forall|x: int, y: int| #[trigger]
            before.grid.inside(x, y) ==> self.drawn_at(before, a, b, c, color, x, y)
    }
}

/// The least of three numbers.
pub open spec fn min3(a: int, b: int, c: int) -> int {
    if a <= b && a <= c {
        a
    } else if b <= c {
        b
    } else {
        c
    }
}

/// The greatest of three numbers.
pub open spec fn max3(a: int, b: int, c: int) -> int {
    if a >= b && a >= c {
        a
    } else if b >= c {
        b
    } else {
        c
    }
}

/// The cross product of two vectors is at right angles to both.
proof fn lemma_cross_is_orthogonal(p: int, q: int, r: int, s: int, dx: int, dy: int)
    ensures
        (p * dy - dx * q) * r + (dx * s - r * dy) * p + (r * q - p * s) * dx == 0,
        (p * dy - dx * q) * s + (dx * s - r * dy) * q + (r * q - p * s) * dy == 0,
{
    assert((p * dy - dx * q) * r == (p * dy) * r - (dx * q) * r) by (nonlinear_arith);
    assert((dx * s - r * dy) * p == (dx * s) * p - (r * dy) * p) by (nonlinear_arith);
    assert((r * q - p * s) * dx == (r * q) * dx - (p * s) * dx) by (nonlinear_arith);
    assert((p * dy) * r == (r * dy) * p) by (nonlinear_arith);
    assert((dx * q) * r == (r * q) * dx) by (nonlinear_arith);
    assert((dx * s) * p == (p * s) * dx) by (nonlinear_arith);
    assert((p * dy - dx * q) * s == (p * dy) * s - (dx * q) * s) by (nonlinear_arith);
    assert((dx * s - r * dy) * q == (dx * s) * q - (r * dy) * q) by (nonlinear_arith);
    assert((r * q - p * s) * dy == (r * q) * dy - (p * s) * dy) by (nonlinear_arith);
    assert((p * dy) * s == (p * s) * dy) by (nonlinear_arith);
    assert((dx * q) * s == (dx * s) * q) by (nonlinear_arith);
    assert((r * dy) * q == (r * q) * dy) by (nonlinear_arith);
}

/// The weights of a triangle with area add up to one, and the corners
/// weighted by them give back the pixel.
pub proof fn lemma_bary_locates(a: DepthPoint, b: DepthPoint, c: DepthPoint, px: int, py: int)
    requires
        twice_area(a, b, c) != 0,
    ensures
        ({
            let w = bary(a, b, c, px, py);
            &&& w.den > 0
            &&& w.a + w.b + w.c == w.den
            &&& w.a * a.x + w.b * b.x + w.c * c.x == w.den * px
            &&& w.a * a.y + w.b * b.y + w.c * c.y == w.den * py
        }),
{
    let (ax, ay, bx, by, cx, cy) = (
        a.x as int,
        a.y as int,
        b.x as int,
        b.y as int,
        c.x as int,
        c.y as int,
    );
    let (p, q, r, s) = (bx - ax, by - ay, cx - ax, cy - ay);
    let (dx, dy) = (ax - px, ay - py);
    let ux = p * dy - dx * q;
    let uy = dx * s - r * dy;
    let uz = r * q - p * s;
    lemma_cross_is_orthogonal(p, q, r, s, dx, dy);
    assert((uz - ux - uy) * ax + uy * bx + ux * cx == uz * ax + (ux * r + uy * p)) by (nonlinear_arith)
        requires
            p == bx - ax,
            r == cx - ax,
    ;
    assert(uz * ax - uz * dx == uz * px) by (nonlinear_arith)
        requires
            dx == ax - px,
    ;
    assert((uz - ux - uy) * ay + uy * by + ux * cy == uz * ay + (ux * s + uy * q)) by (nonlinear_arith)
        requires
            q == by - ay,
            s == cy - ay,
    ;
    assert(uz * ay - uz * dy == uz * py) by (nonlinear_arith)
        requires
            dy == ay - py,
    ;
    if uz < 0 {
        let wa = uz - ux - uy;
        assert((-wa) * ax + (-uy) * bx + (-ux) * cx == (-uz) * px) by (nonlinear_arith)
            requires
                wa * ax + uy * bx + ux * cx == uz * px,
        ;
        assert((-wa) * ay + (-uy) * by + (-ux) * cy == (-uz) * py) by (nonlinear_arith)
            requires
                wa * ay + uy * by + ux * cy == uz * py,
        ;
    }
}

/// A weighted mean of three numbers, with weights that are not negative, lies
/// between the least and the greatest of them.
pub proof fn lemma_mean_within(wa: int, wb: int, wc: int, den: int, p: int, a: int, b: int, c: int)
    requires
        wa >= 0,
        wb >= 0,
        wc >= 0,
        den > 0,
        wa + wb + wc == den,
        wa * a + wb * b + wc * c == p,
    ensures
        min3(a, b, c) * den <= p <= max3(a, b, c) * den,
{
    let lo = min3(a, b, c);
    let hi = max3(a, b, c);
    assert(wa * lo <= wa * a <= wa * hi) by (nonlinear_arith)
        requires
            wa >= 0,
            lo <= a <= hi,
    ;
    assert(wb * lo <= wb * b <= wb * hi) by (nonlinear_arith)
        requires
            wb >= 0,
            lo <= b <= hi,
    ;
    assert(wc * lo <= wc * c <= wc * hi) by (nonlinear_arith)
        requires
            wc >= 0,
            lo <= c <= hi,
    ;
    assert(wa * lo + wb * lo + wc * lo == lo * den) by (nonlinear_arith)
        requires
            wa + wb + wc == den,
    ;
    assert(wa * hi + wb * hi + wc * hi == hi * den) by (nonlinear_arith)
        requires
            wa + wb + wc == den,
    ;
}

/// A pixel in a triangle lies in the triangle's bounding box.
pub proof fn lemma_covered_in_box(a: DepthPoint, b: DepthPoint, c: DepthPoint, px: int, py: int)
    requires
        covered(a, b, c, px, py),
    ensures
        min3(a.x as int, b.x as int, c.x as int) <= px <= max3(a.x as int, b.x as int, c.x as int),
        min3(a.y as int, b.y as int, c.y as int) <= py <= max3(a.y as int, b.y as int, c.y as int),
{
    let w = bary(a, b, c, px, py);
    lemma_bary_locates(a, b, c, px, py);
    lemma_mean_within(w.a, w.b, w.c, w.den, w.den * px, a.x as int, b.x as int, c.x as int);
    lemma_mean_within(w.a, w.b, w.c, w.den, w.den * py, a.y as int, b.y as int, c.y as int);
    let (lx, hx) = (
        min3(a.x as int, b.x as int, c.x as int),
        max3(a.x as int, b.x as int, c.x as int),
    );
    let (ly, hy) = (
        min3(a.y as int, b.y as int, c.y as int),
        max3(a.y as int, b.y as int, c.y as int),
    );
    assert(lx <= px <= hx) by (nonlinear_arith)
        requires
            lx * w.den <= w.den * px <= hx * w.den,
            w.den > 0,
    ;
    assert(ly <= py <= hy) by (nonlinear_arith)
        requires
            ly * w.den <= w.den * py <= hy * w.den,
            w.den > 0,
    ;
}

/// At a corner of a triangle with area, that corner has the whole weight and
/// the other two have none.
pub proof fn lemma_weights_at_corners(a: DepthPoint, b: DepthPoint, c: DepthPoint)
    requires
        twice_area(a, b, c) != 0,
    ensures
        ({
            let den = crate::point::abs(twice_area(a, b, c));
            &&& bary(a, b, c, a.x as int, a.y as int) == Bary { a: den, b: 0, c: 0, den }
            &&& bary(a, b, c, b.x as int, b.y as int) == Bary { a: 0, b: den, c: 0, den }
            &&& bary(a, b, c, c.x as int, c.y as int) == Bary { a: 0, b: 0, c: den, den }
        }),
{
    let (p, q, r, s) = (b.x - a.x, b.y - a.y, c.x - a.x, c.y - a.y);
    assert(p * 0 - 0 * q == 0 && 0 * s - r * 0 == 0) by (nonlinear_arith);
    assert(p * (-q) - (-p) * q == 0 && (-p) * s - r * (-q) == r * q - p * s) by (nonlinear_arith);
    assert(p * (-s) - (-r) * q == r * q - p * s && (-r) * s - r * (-s) == 0) by (nonlinear_arith);
}

/// A triangle whose corners lie on one line, or on one pixel, covers no
/// pixel.
pub proof fn lemma_flat_triangle_covers_nothing(
    a: DepthPoint,
    b: DepthPoint,
    c: DepthPoint,
    px: int,
    py: int,
)
    requires
        twice_area(a, b, c) == 0,
    ensures
        !covered(a, b, c, px, py),
{
}

/// Drawing a triangle whose corners lie on one line leaves every pixel and
/// every stored depth as it was.
pub proof fn lemma_flat_triangle_draws_nothing(
    after: Scene,
    before: Scene,
    a: DepthPoint,
    b: DepthPoint,
    c: DepthPoint,
    color: Color,
)
    requires
        twice_area(a, b, c) == 0,
        after.is_drawn(before, a, b, c, color),
    ensures
        forall|x: int, y: int| #[trigger] before.grid.inside(x, y) ==> after.kept_at(before, x, y),
{
    assert forall|x: int, y: int| #[trigger] before.grid.inside(x, y) implies after.kept_at(
        before,
        x,
        y,
    ) by {
        lemma_flat_triangle_covers_nothing(a, b, c, x, y);
        assert(after.drawn_at(before, a, b, c, color, x, y));
    }
}

/// Drawing a triangle lowers no stored depth.
pub proof fn lemma_depth_never_falls(
    after: Scene,
    before: Scene,
    a: DepthPoint,
    b: DepthPoint,
    c: DepthPoint,
    color: Color,
    x: int,
    y: int,
)
    requires
        after.is_drawn(before, a, b, c, color),
        before.grid.inside(x, y),
    ensures
        after.depth(x, y) >= before.depth(x, y),
{
    assert(after.drawn_at(before, a, b, c, color, x, y));
}

/// Where two triangles overlap and one is nearer, the nearer one is seen,
/// whichever of them is drawn first. `first` and `second` are what drawing
/// the nearer triangle `n0`, `n1`, `n2` and then the farther triangle `f0`,
/// `f1`, `f2` makes of `start`; `other_first` and `other_second`, what
/// drawing them the other way round makes of it.
pub proof fn lemma_nearer_triangle_wins(
    start: Scene,
    n0: DepthPoint,
    n1: DepthPoint,
    n2: DepthPoint,
    near_color: Color,
    f0: DepthPoint,
    f1: DepthPoint,
    f2: DepthPoint,
    far_color: Color,
    first: Scene,
    second: Scene,
    other_first: Scene,
    other_second: Scene,
    x: int,
    y: int,
)
    requires
        start.grid.inside(x, y),
        covered(n0, n1, n2, x, y),
        covered(f0, f1, f2, x, y),
        depth_at(n0, n1, n2, x, y) > depth_at(f0, f1, f2, x, y),
        depth_at(n0, n1, n2, x, y) > start.depth(x, y),
        first.is_drawn(start, n0, n1, n2, near_color),
        second.is_drawn(first, f0, f1, f2, far_color),
        other_first.is_drawn(start, f0, f1, f2, far_color),
        other_second.is_drawn(other_first, n0, n1, n2, near_color),
    ensures
        second.grid.at(x, y) == near_color,
        other_second.grid.at(x, y) == near_color,
        second.depth(x, y) == depth_at(n0, n1, n2, x, y),
        other_second.depth(x, y) == depth_at(n0, n1, n2, x, y),
{
    assert(first.drawn_at(start, n0, n1, n2, near_color, x, y));
    assert(first.grid.inside(x, y));
    assert(second.drawn_at(first, f0, f1, f2, far_color, x, y));
    assert(other_first.drawn_at(start, f0, f1, f2, far_color, x, y));
    assert(other_first.grid.inside(x, y));
    assert(other_second.drawn_at(other_first, n0, n1, n2, near_color, x, y));
}

/// Each pixel of a canvas has a place of its own in the depth buffer.
pub proof fn lemma_depth_index(width: nat, height: nat, x: int, y: int)
    requires
        0 <= x < width,
        0 <= y < height,
    ensures
        0 <= y * width <= depth_index(width, x, y) < width * height,
        forall|x2: int, y2: int|
            0 <= x2 < width && 0 <= y2 && #[trigger] depth_index(width, x2, y2) == depth_index(
                width,
                x,
                y,
            ) ==> x2 == x && y2 == y,
{
    assert(0 <= y * width && y * width + width <= width * height) by (nonlinear_arith)
        requires
            0 <= y,
            y + 1 <= height,
            width >= 0,
    ;
    assert forall|x2: int, y2: int|
        0 <= x2 < width && 0 <= y2 && #[trigger] depth_index(width, x2, y2) == depth_index(
            width,
            x,
            y,
        ) implies x2 == x && y2 == y by {
        if y2 < y {
            assert(y2 * width + width <= y * width) by (nonlinear_arith)
                requires
                    y2 + 1 <= y,
                    width >= 0,
            ;
        }
        if y < y2 {
            assert(y * width + width <= y2 * width) by (nonlinear_arith)
                requires
                    y + 1 <= y2,
                    width >= 0,
            ;
        }
    }
}

fn mul_small(x: i128, y: i128) -> (r: i128)
    requires
        -0x1_0000_0000 <= x <= 0x1_0000_0000,
        -0x1_0000_0000 <= y <= 0x1_0000_0000,
    ensures
        r == x * y,
        -0x1_0000_0000_0000_0000 <= r <= 0x1_0000_0000_0000_0000,
{
    proof {
        lemma_mul_within(x as int, y as int, 0x1_0000_0000, 0x1_0000_0000);
    }
    x * y
}

/// The barycentric weights of the pixel `p` with respect to the corners `a`,
/// `b` and `c`.
pub fn barycentric(a: DepthPoint, b: DepthPoint, c: DepthPoint, p: ScreenPoint) -> (w: Weights)
    ensures
        w@ == bary(a, b, c, p.x as int, p.y as int),
        -0x8_0000_0000_0000_0000 <= w.a <= 0x8_0000_0000_0000_0000,
        -0x8_0000_0000_0000_0000 <= w.b <= 0x8_0000_0000_0000_0000,
        -0x8_0000_0000_0000_0000 <= w.c <= 0x8_0000_0000_0000_0000,
        0 < w.den <= 0x8_0000_0000_0000_0000,
{
    let e1x: i128 = c.x as i128 - a.x as i128;
    let e2x: i128 = b.x as i128 - a.x as i128;
    let dx: i128 = a.x as i128 - p.x as i128;
    let e1y: i128 = c.y as i128 - a.y as i128;
    let e2y: i128 = b.y as i128 - a.y as i128;
    let dy: i128 = a.y as i128 - p.y as i128;
    let ux: i128 = mul_small(e2x, dy) - mul_small(dx, e2y);
    let uy: i128 = mul_small(dx, e1y) - mul_small(e1x, dy);
    let uz: i128 = mul_small(e1x, e2y) - mul_small(e2x, e1y);
    if uz == 0 {
        Weights { a: -1, b: 1, c: 1, den: 1 }
    } else if uz > 0 {
        Weights { a: uz - ux - uy, b: uy, c: ux, den: uz }
    } else {
        Weights { a: -(uz - ux - uy), b: -uy, c: -ux, den: -uz }
    }
}

fn mul_depth(w: i128, z: i32) -> (r: i128)
    requires
        0 <= w <= 0x8_0000_0000_0000_0000,
    ensures
        r == w * z,
        -0x4_0000_0000_0000_0000_0000_0000 <= r <= 0x4_0000_0000_0000_0000_0000_0000,
{
    proof {
        lemma_mul_within(w as int, z as int, 0x8_0000_0000_0000_0000, 0x8000_0000);
    }
    w * (z as i128)
}

/// The depth at a pixel with weights `w`, none of them negative, in a
/// triangle whose corners have the depths `za`, `zb` and `zc`.
fn interpolate(w: Weights, za: i32, zb: i32, zc: i32) -> (z: i32)
    requires
        0 <= w.a,
        0 <= w.b,
        0 <= w.c,
        w.a + w.b + w.c == w.den,
        0 < w.den <= 0x8_0000_0000_0000_0000,
    ensures
        z == (w.a * za + w.b * zb + w.c * zc) / (w.den as int),
{
    let n: i128 = mul_depth(w.a, za) + mul_depth(w.b, zb) + mul_depth(w.c, zc);
    let q: i128 = floor_div(n, w.den);
    proof {
        lemma_mean_within(
            w.a as int,
            w.b as int,
            w.c as int,
            w.den as int,
            n as int,
            za as int,
            zb as int,
            zc as int,
        );
        lemma_div_within(
            n as int,
            w.den as int,
            min3(za as int, zb as int, zc as int),
            max3(za as int, zb as int, zc as int),
        );
    }
    q as i32
}

/// Draws the triangle with the corners `pts` in `color`, at each pixel where
/// it is nearer than what `zbuffer` holds, and stores its depth there.
/// `zbuffer` holds the depth of pixel `(x, y)` at `x + y * width`.
pub fn triangle(pts: [DepthPoint; 3], zbuffer: &mut Vec<i32>, image: &mut Canvas, color: Color)
    requires
        old(zbuffer).len() == old(image)@.width * old(image)@.height,
    ensures
        (Scene { grid: final(image)@, depths: final(zbuffer)@ }).is_drawn(
            Scene { grid: old(image)@, depths: old(zbuffer)@ },
            pts[0],
            pts[1],
            pts[2],
            color,
        ),
        forall|i: int| 0 <= i < old(zbuffer).len() ==> final(zbuffer)[i] >= old(zbuffer)[i],
{
    let a = pts[0];
    let b = pts[1];
    let c = pts[2];
    let width: u32 = image.width();
    let height: u32 = image.height();
    let ghost before = Scene { grid: old(image)@, depths: old(zbuffer)@ };
    let lo_x: i32 = least(a.x, b.x, c.x);
    let hi_x: i32 = greatest(a.x, b.x, c.x);
    let lo_y: i32 = least(a.y, b.y, c.y);
    let hi_y: i32 = greatest(a.y, b.y, c.y);
    let min_x: i64 = if lo_x < 0 {
        0
    } else {
        lo_x as i64
    };
    let min_y: i64 = if lo_y < 0 {
        0
    } else {
        lo_y as i64
    };
    let max_x: i64 = if (hi_x as i64) < width as i64 - 1 {
        hi_x as i64
    } else {
        width as i64 - 1
    };
    let max_y: i64 = if (hi_y as i64) < height as i64 - 1 {
        hi_y as i64
    } else {
        height as i64 - 1
    };
    let mut x: i64 = min_x;
    while x <= max_x
        invariant
            a == pts[0],
            b == pts[1],
            c == pts[2],
            before == (Scene { grid: old(image)@, depths: old(zbuffer)@ }),
            before.wf(),
            width == before.grid.width,
            height == before.grid.height,
            0 <= min_x <= x,
            0 <= min_y,
            max_x < width,
            max_y < height,
            max_x <= hi_x,
            max_y <= hi_y,
            x <= max_x + 1 || x == min_x,
            image@.same_size(before.grid),
            zbuffer.len() == before.depths.len(),
            forall|i: int| 0 <= i < zbuffer.len() ==> zbuffer[i] >= before.depths[i],
            forall|px: int, py: int| #[trigger]
                before.grid.inside(px, py) ==> if min_x <= px < x && min_y <= py <= max_y {
                    (Scene { grid: image@, depths: zbuffer@ }).drawn_at(before, a, b, c, color, px, py)
                } else {
                    (Scene { grid: image@, depths: zbuffer@ }).kept_at(before, px, py)
                },
        decreases max_x + 1 - x,
    {
        let mut y: i64 = min_y;
        while y <= max_y
            invariant
                a == pts[0],
                b == pts[1],
                c == pts[2],
                before == (Scene { grid: old(image)@, depths: old(zbuffer)@ }),
                before.wf(),
                width == before.grid.width,
                height == before.grid.height,
                0 <= min_x <= x <= max_x < width,
                0 <= min_y <= y,
                max_y < height,
                max_x <= hi_x,
                max_y <= hi_y,
                y <= max_y + 1 || y == min_y,
                image@.same_size(before.grid),
                zbuffer.len() == before.depths.len(),
                forall|i: int| 0 <= i < zbuffer.len() ==> zbuffer[i] >= before.depths[i],
                forall|px: int, py: int| #[trigger]
                    before.grid.inside(px, py) ==> if (min_x <= px < x && min_y <= py <= max_y) || (
                    px == x && min_y <= py < y) {
                        (Scene { grid: image@, depths: zbuffer@ }).drawn_at(
                            before,
                            a,
                            b,
                            c,
                            color,
                            px,
                            py,
                        )
                    } else {
                        (Scene { grid: image@, depths: zbuffer@ }).kept_at(before, px, py)
                    },
            decreases max_y + 1 - y,
        {
            let ghost mid = Scene { grid: image@, depths: zbuffer@ };
            proof {
                lemma_depth_index(width as nat, height as nat, x as int, y as int);
                assert(before.grid.inside(x as int, y as int));
                assert(mid.kept_at(before, x as int, y as int));
            }
            let w = barycentric(a, b, c, ScreenPoint { x: x as i32, y: y as i32 });
            if !(w.a < 0 || w.b < 0 || w.c < 0) {
                proof {
                    lemma_bary_locates(a, b, c, x as int, y as int);
                }
                let z: i32 = interpolate(w, a.z, b.z, c.z);
                let index: usize = x as usize + y as usize * width as usize;
                if zbuffer[index] < z {
                    zbuffer.set(index, z);
                    put_pixel(image, x, y, color);
                }
            }
            proof {
                let now = Scene { grid: image@, depths: zbuffer@ };
                assert forall|px: int, py: int| #[trigger]
                    before.grid.inside(px, py) implies if (min_x <= px < x && min_y <= py <= max_y)
                    || (px == x && min_y <= py < y + 1) {
                    now.drawn_at(before, a, b, c, color, px, py)
                } else {
                    now.kept_at(before, px, py)
                } by {
                    if px == x && py == y {
                    } else {
                        lemma_depth_index(width as nat, height as nat, px, py);
                        assert(depth_index(width as nat, px, py) != depth_index(
                            width as nat,
                            x as int,
                            y as int,
                        ));
                        assert(now.kept_at(mid, px, py));
                    }
                }
            }
            y += 1;
        }
        x += 1;
    }
    proof {
        let now = Scene { grid: image@, depths: zbuffer@ };
        assert forall|px: int, py: int| #[trigger]
            before.grid.inside(px, py) implies now.drawn_at(before, a, b, c, color, px, py) by {
            if covered(a, b, c, px, py) {
                lemma_covered_in_box(a, b, c, px, py);
            }
        }
    }
}

fn least(a: i32, b: i32, c: i32) -> (m: i32)
    ensures
        m == min3(a as int, b as int, c as int),
{
    if a <= b && a <= c {
        a
    } else if b <= c {
        b
    } else {
        c
    }
}

fn greatest(a: i32, b: i32, c: i32) -> (m: i32)
    ensures
        m == max3(a as int, b as int, c as int),
{
    if a >= b && a >= c {
        a
    } else if b >= c {
        b
    } else {
        c
    }
}

} // verus!
