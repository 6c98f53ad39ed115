//! From the coordinates of a mesh to the screen, and the light on a face.
//!
//! A coordinate of -1 lies on the left or lower edge of the canvas, one of 1
//! on the right or upper edge. Depth is the third coordinate as it stands. A
//! face is lit from the viewer's side, along the third axis.

use crate::canvas::Color;
use crate::model::Vertex;
use crate::point::{floor_div, lemma_mul_within, DepthPoint};
use crate::text::UNIT;
use crate::wide::{half, Wide};
use vstd::prelude::*;

verus! {

/// `v`, or the nearest number that a pixel position can hold.
pub open spec fn clamped(v: int) -> int {
    if v < i32::MIN {
        i32::MIN as int
    } else if v > i32::MAX {
        i32::MAX as int
    } else {
        v
    }
}

/// The pixel at which the coordinate `c`, in millionths, falls on a canvas
/// that is `extent` pixels wide or high: `(c + 1) * extent / 2` in units,
/// rounded to the nearest whole number, halves upwards.
pub open spec fn to_pixel(c: int, extent: int) -> int {
    clamped(((c + 1_000_000) * extent + 1_000_000) / 2_000_000)
}

/// Where the vertex `v` falls on a canvas of the given size.
pub open spec fn project(v: Vertex, width: int, height: int) -> DepthPoint {
    DepthPoint {
        x: to_pixel(v.x as int, width) as i32,
        y: to_pixel(v.y as int, height) as i32,
        z: v.z,
    }
}

fn pixel_of(c: i32, extent: u32) -> (p: i32)
    ensures
        p == to_pixel(c as int, extent as int),
{
    let shifted: i128 = c as i128 + UNIT as i128;
    proof {
        lemma_mul_within(shifted as int, extent as int, 0x1_0000_0000, 0x1_0000_0000);
    }
    let q: i128 = floor_div(shifted * (extent as i128) + UNIT as i128, 2 * UNIT as i128);
    if q < i32::MIN as i128 {
        i32::MIN
    } else if q > i32::MAX as i128 {
        i32::MAX
    } else {
        q as i32
    }
}

/// Projects the vertex `v` onto a canvas of the given size.
pub fn world2screen(v: Vertex, width: u32, height: u32) -> (p: DepthPoint)
    ensures
        p == project(v, width as int, height as int),
{
    DepthPoint { x: pixel_of(v.x, width), y: pixel_of(v.y, height), z: v.z }
}

/// A vector that stands at right angles on the face `v0`, `v1`, `v2`: the
/// cross product of the edge from `v0` to `v2` with the edge from `v0` to
/// `v1`. It points away from the viewer if the corners run against the clock
/// on the screen.
pub open spec fn normal(v0: Vertex, v1: Vertex, v2: Vertex) -> (int, int, int) {
    let (ax, ay, az) = (v2.x - v0.x, v2.y - v0.y, v2.z - v0.z);
    let (bx, by, bz) = (v1.x - v0.x, v1.y - v0.y, v1.z - v0.z);
    (ay * bz - az * by, az * bx - ax * bz, ax * by - ay * bx)
}

/// Whether `level` is the brightness of a face with the normal `n`, lit
/// along `(0, 0, -1)`: 255 times the cosine of the angle between the two,
/// rounded down.
pub open spec fn is_brightness(level: int, n: (int, int, int)) -> bool {
    let toward = -n.2;
    let length_squared = n.0 * n.0 + n.1 * n.1 + n.2 * n.2;
    &&& 0 <= level <= 255
    &&& toward > 0
    &&& level * level * length_squared <= 65025 * (toward * toward)
    &&& 65025 * (toward * toward) < (level + 1) * (level + 1) * length_squared
}

/// The grey in which the face `v0`, `v1`, `v2` is drawn, or `None` if it
/// faces away from the light or stands edge-on to it.
pub open spec fn shading(v0: Vertex, v1: Vertex, v2: Vertex) -> Option<Color> {
    let n = normal(v0, v1, v2);
    if n.2 < 0 {
        let level = choose|level: int| is_brightness(level, n);
        Some(Color { r: level as u8, g: level as u8, b: level as u8, a: 255 })
    } else {
        None
    }
}

/// A face has one brightness only.
pub proof fn lemma_one_brightness(a: int, b: int, n: (int, int, int))
    requires
        is_brightness(a, n),
        is_brightness(b, n),
    ensures
        a == b,
{
    let s = n.0 * n.0 + n.1 * n.1 + n.2 * n.2;
    assert(s >= 0) by (nonlinear_arith)
        requires
            s == n.0 * n.0 + n.1 * n.1 + n.2 * n.2,
    ;
    if a < b {
        assert((a + 1) * (a + 1) * s <= b * b * s) by (nonlinear_arith)
            requires
                0 <= a + 1 <= b,
                0 <= s,
        ;
    }
    if b < a {
        assert((b + 1) * (b + 1) * s <= a * a * s) by (nonlinear_arith)
            requires
                0 <= b + 1 <= a,
                0 <= s,
        ;
    }
}

/// The size of `v`.
fn size_of(v: i128) -> (r: u128)
    requires
        -0x2_0000_0000_0000_0000 <= v <= 0x2_0000_0000_0000_0000,
    ensures
        r <= 0x2_0000_0000_0000_0000,
        r * r == v * v,
{
    proof {
        assert((-v) * (-v) == v * v) by (nonlinear_arith);
    }
    if v < 0 {
        (-v) as u128
    } else {
        v as u128
    }
}

fn cross_term(a: i128, b: i128, c: i128, d: i128) -> (r: i128)
    requires
        -0x1_0000_0000 <= a <= 0x1_0000_0000,
        -0x1_0000_0000 <= b <= 0x1_0000_0000,
        -0x1_0000_0000 <= c <= 0x1_0000_0000,
        -0x1_0000_0000 <= d <= 0x1_0000_0000,
    ensures
        r == a * b - c * d,
        -0x2_0000_0000_0000_0000 <= r <= 0x2_0000_0000_0000_0000,
{
    proof {
        lemma_mul_within(a as int, b as int, 0x1_0000_0000, 0x1_0000_0000);
        lemma_mul_within(c as int, d as int, 0x1_0000_0000, 0x1_0000_0000);
    }
    a * b - c * d
}

/// The grey in which the face `v0`, `v1`, `v2` is drawn: the brighter, the
/// more squarely the face looks at the viewer. A face that looks away, or
/// that the viewer sees edge-on, is not drawn and has none.
pub fn shade(v0: Vertex, v1: Vertex, v2: Vertex) -> (r: Option<Color>)
    ensures
        r == shading(v0, v1, v2),
        r.is_some() <==> normal(v0, v1, v2).2 < 0,
        r matches Some(c) ==> c.a == 255 && c.r == c.g && c.g == c.b && is_brightness(
            c.r as int,
            normal(v0, v1, v2),
        ),
{
    let ax: i128 = v2.x as i128 - v0.x as i128;
    let ay: i128 = v2.y as i128 - v0.y as i128;
    let az: i128 = v2.z as i128 - v0.z as i128;
    let bx: i128 = v1.x as i128 - v0.x as i128;
    let by: i128 = v1.y as i128 - v0.y as i128;
    let bz: i128 = v1.z as i128 - v0.z as i128;
    let nx: i128 = cross_term(ay, bz, az, by);
    let ny: i128 = cross_term(az, bx, ax, bz);
    let nz: i128 = cross_term(ax, by, ay, bx);
    if nz >= 0 {
        return None;
    }
    let ghost n = normal(v0, v1, v2);
    let toward_squared = Wide::square(size_of(nz));
    let length_squared = Wide::square(size_of(nx)).plus(Wide::square(size_of(ny))).plus(
        toward_squared,
    );
    let target = toward_squared.times(65025);
    proof {
        assert(nx * nx >= 0 && ny * ny >= 0 && nz * nz > 0) by (nonlinear_arith)
            requires
                nz < 0,
        ;
        assert((-nz) * (-nz) == nz * nz) by (nonlinear_arith);
        assert(0 * 0 * length_squared@ == 0) by (nonlinear_arith);
    }
    let mut level: u128 = 0;
    while level < 255
        invariant
            0 <= level <= 255,
            length_squared.wf(),
            target.lo < half(),
            level * level * length_squared@ <= target@,
        ensures
            0 <= level <= 255,
            level * level * length_squared@ <= target@,
            level == 255 || target@ < (level + 1) * (level + 1) * length_squared@,
        decreases 255 - level,
    {
        let next: u128 = level + 1;
        proof {
            lemma_mul_within(next as int, next as int, 255, 255);
        }
        if !length_squared.times(next * next).at_most(target) {
            break ;
        }
        level = next;
    }
    proof {
        if level == 255 {
            assert(toward_squared@ <= length_squared@);
            assert(length_squared@ > 0);
            assert((level + 1) * (level + 1) == 65536);
            assert(target@ < 65536 * length_squared@);
        }
        assert(is_brightness(level as int, n));
        let chosen = choose|l: int| is_brightness(l, n);
        lemma_one_brightness(level as int, chosen, n);
    }
    Some(Color { r: level as u8, g: level as u8, b: level as u8, a: 255 })
}

} // verus!
