//! The scanline triangle filler.
//!
//! The corners are ordered from bottom to top. Each row between the bottom
//! and the top corner, the top row left out, is filled between two edges: the
//! long edge from bottom to top, and whichever of the two short edges passes
//! that row. Nothing is tested for depth: what is filled last is seen.

use crate::canvas::{lemma_paint_one, put_pixel, Canvas, Color, Grid};
use crate::point::{lemma_div_within, lemma_mul_within, ScreenPoint};
use vstd::prelude::*;

verus! {

/// `n / d` for a positive `d`, rounded towards zero.
pub open spec fn div_trunc(n: int, d: int) -> int {
    if n >= 0 {
        n / d
    } else {
        -((-n) / d)
    }
}

/// The point `i / steps` of the way from `from` to `to`, the distance gone
/// rounded towards zero.
pub open spec fn lerp(from: int, to: int, i: int, steps: int) -> int {
    from + div_trunc((to - from) * i, steps)
}

/// The three corners ordered from bottom to top: the first is exchanged with
/// the second if it lies above it, then with the third, and then the second
/// with the third.
pub open spec fn by_height(t0: ScreenPoint, t1: ScreenPoint, t2: ScreenPoint) -> (
    ScreenPoint,
    ScreenPoint,
    ScreenPoint,
) {
    let (a, b) = if t0.y > t1.y {
        (t1, t0)
    } else {
        (t0, t1)
    };
    let (a, c) = if a.y > t2.y {
        (t2, a)
    } else {
        (a, t2)
    };
    let (b, c) = if b.y > c.y {
        (c, b)
    } else {
        (b, c)
    };
    (a, b, c)
}

/// The columns between which row `i` above the bottom corner is filled, both
/// included, for corners `b`, `m`, `t` ordered from bottom to top.
pub open spec fn row_span(b: ScreenPoint, m: ScreenPoint, t: ScreenPoint, i: int) -> (int, int) {
    let total = t.y - b.y;
    let lower = m.y - b.y;
    let long_edge = lerp(b.x as int, t.x as int, i, total);
    let short_edge = if i > lower || lower == 0 {
        lerp(m.x as int, t.x as int, i - lower, total - lower)
    } else {
        lerp(b.x as int, m.x as int, i, lower)
    };
    if long_edge > short_edge {
        (short_edge, long_edge)
    } else {
        (long_edge, short_edge)
    }
}

/// The pixels of the first `rows` rows of the triangle with corners `b`, `m`,
/// `t`, ordered from bottom to top.
pub open spec fn filled_rows(b: ScreenPoint, m: ScreenPoint, t: ScreenPoint, rows: int) -> Set<
    (int, int),
> {
    Set::new(
        |p: (int, int)|
            {
                let i = p.1 - b.y;
                0 <= i < rows && row_span(b, m, t, i).0 <= p.0 <= row_span(b, m, t, i).1
            },
    )
}

/// The pixels of row `i` of the triangle that lie left of column `end`.
pub open spec fn filled_part(
    b: ScreenPoint,
    m: ScreenPoint,
    t: ScreenPoint,
    i: int,
    end: int,
) -> Set<(int, int)> {
    Set::new(|p: (int, int)| p.1 - b.y == i && row_span(b, m, t, i).0 <= p.0 < end)
}

/// The pixels that filling the triangle `t0`, `t1`, `t2` paints: none if the
/// three corners are on one row.
pub open spec fn triangle_pixels(t0: ScreenPoint, t1: ScreenPoint, t2: ScreenPoint) -> Set<
    (int, int),
> {
    if t0.y == t1.y && t0.y == t2.y {
        Set::empty()
    } else {
        let (b, m, t) = by_height(t0, t1, t2);
        filled_rows(b, m, t, t.y - b.y)
    }
}

fn sort_by_height(t0: ScreenPoint, t1: ScreenPoint, t2: ScreenPoint) -> (r: (
    ScreenPoint,
    ScreenPoint,
    ScreenPoint,
))
    ensures
        r == by_height(t0, t1, t2),
        r.0.y <= r.1.y <= r.2.y,
{
    let mut a = t0;
    let mut b = t1;
    let mut c = t2;
    if a.y > b.y {
        let s = a;
        a = b;
        b = s;
    }
    if a.y > c.y {
        let s = a;
        a = c;
        c = s;
    }
    if b.y > c.y {
        let s = b;
        b = c;
        c = s;
    }
    (a, b, c)
}

fn interpolate(from: i32, to: i32, i: i64, steps: i64) -> (r: i64)
    requires
        0 <= i <= steps,
        0 < steps <= 0xffff_ffff,
    ensures
        r == lerp(from as int, to as int, i as int, steps as int),
        -0x8000_0000 <= r < 0x8000_0000,
{
    let d: i128 = to as i128 - from as i128;
    let m: i128 = if d < 0 {
        -d
    } else {
        d
    };
    proof {
        lemma_mul_within(m as int, i as int, 0xffff_ffff, 0xffff_ffff);
        assert(0 <= m * i <= m * steps) by (nonlinear_arith)
            requires
                0 <= m,
                0 <= i <= steps,
        ;
        assert(0 * steps == 0);
        lemma_div_within(m * i, steps as int, 0, m as int);
        assert((-m) * i == -(m * i)) by (nonlinear_arith);
    }
    let q: i128 = (m * (i as i128)) / (steps as i128);
    if d < 0 {
        (from as i128 - q) as i64
    } else {
        (from as i128 + q) as i64
    }
}

fn span_of_row(b: ScreenPoint, m: ScreenPoint, t: ScreenPoint, i: i64) -> (r: (i64, i64))
    requires
        b.y <= m.y <= t.y,
        0 <= i < t.y - b.y,
    ensures
        r.0 == row_span(b, m, t, i as int).0,
        r.1 == row_span(b, m, t, i as int).1,
        -0x8000_0000 <= r.0 <= r.1 < 0x8000_0000,
{
    let total: i64 = t.y as i64 - b.y as i64;
    let lower: i64 = m.y as i64 - b.y as i64;
    let long_edge: i64 = interpolate(b.x, t.x, i, total);
    let short_edge: i64 = if i > lower || lower == 0 {
        interpolate(m.x, t.x, i - lower, total - lower)
    } else {
        interpolate(b.x, m.x, i, lower)
    };
    if long_edge > short_edge {
        (short_edge, long_edge)
    } else {
        (long_edge, short_edge)
    }
}

/// Fills the triangle `t0`, `t1`, `t2` with `color`, row by row and without
/// any test of depth. A triangle whose corners are all on one row is not
/// drawn. Pixels outside the canvas are left out.
pub fn fill_triangle(
    t0: ScreenPoint,
    t1: ScreenPoint,
    t2: ScreenPoint,
    image: &mut Canvas,
    color: Color,
)
    ensures
        final(image)@.is_painted(old(image)@, triangle_pixels(t0, t1, t2), color),
{
    if t0.y == t1.y && t0.y == t2.y {
        return ;
    }
    let (b, m, t) = sort_by_height(t0, t1, t2);
    let total: i64 = t.y as i64 - b.y as i64;
    let mut i: i64 = 0;
    assert(filled_rows(b, m, t, 0) =~= Set::empty());
    while i < total
        invariant
            b.y <= m.y <= t.y,
            total == t.y - b.y,
            0 <= i <= total,
            image@.is_painted(old(image)@, filled_rows(b, m, t, i as int), color),
        decreases total - i,
    {
        let (lo, hi) = span_of_row(b, m, t, i);
        let row: i64 = b.y as i64 + i;
        let mut j: i64 = lo;
        assert(filled_rows(b, m, t, i as int).union(filled_part(b, m, t, i as int, lo as int))
            =~= filled_rows(b, m, t, i as int));
        while j <= hi
            invariant
                lo == row_span(b, m, t, i as int).0,
                hi == row_span(b, m, t, i as int).1,
                row == b.y + i,
                lo <= j <= hi + 1,
                hi < 0x8000_0000,
                image@.is_painted(
                    old(image)@,
                    filled_rows(b, m, t, i as int).union(filled_part(b, m, t, i as int, j as int)),
                    color,
                ),
            decreases hi + 1 - j,
        {
            let ghost mid = image@;
            put_pixel(image, j, row, color);
            proof {
                let done = filled_rows(b, m, t, i as int).union(
                    filled_part(b, m, t, i as int, j as int),
                );
                lemma_paint_one(image@, mid, old(image)@, done, color, j as int, row as int);
                assert(done.insert((j as int, row as int)) =~= filled_rows(b, m, t, i as int).union(
                    filled_part(b, m, t, i as int, j + 1),
                ));
            }
            j += 1;
        }
        assert(filled_rows(b, m, t, i as int).union(filled_part(b, m, t, i as int, hi + 1))
            =~= filled_rows(b, m, t, i + 1));
        i += 1;
    }
}

/// A triangle whose corners are all on one row is not drawn at all.
pub proof fn lemma_level_triangle_is_empty(t0: ScreenPoint, t1: ScreenPoint, t2: ScreenPoint)
    requires
        t0.y == t1.y,
        t0.y == t2.y,
    ensures
        triangle_pixels(t0, t1, t2) == Set::<(int, int)>::empty(),
{
}

/// Where two fills overlap, the colour of the later one is seen: of two
/// regions painted one after the other, the second has its colour wherever it
/// reaches.
pub proof fn lemma_last_fill_wins(
    start: Grid,
    first: Grid,
    second: Grid,
    earlier: Set<(int, int)>,
    earlier_color: Color,
    later: Set<(int, int)>,
    later_color: Color,
    x: int,
    y: int,
)
    requires
        first.is_painted(start, earlier, earlier_color),
        second.is_painted(first, later, later_color),
        start.inside(x, y),
        later.contains((x, y)),
    ensures
        second.at(x, y) == later_color,
{
    assert(second.inside(x, y));
}

/// Filling a triangle whose corners are all on one row leaves the canvas as
/// it was.
pub proof fn lemma_level_triangle_changes_nothing(
    after: Grid,
    before: Grid,
    t0: ScreenPoint,
    t1: ScreenPoint,
    t2: ScreenPoint,
    color: Color,
)
    requires
        t0.y == t1.y,
        t0.y == t2.y,
        after.is_painted(before, triangle_pixels(t0, t1, t2), color),
    ensures
        after.same_size(before),
        forall|x: int, y: int| #[trigger] before.inside(x, y) ==> after.at(x, y) == before.at(x, y),
{
    lemma_level_triangle_is_empty(t0, t1, t2);
    assert forall|x: int, y: int| #[trigger] before.inside(x, y) implies after.at(x, y)
        == before.at(x, y) by {
        assert(after.inside(x, y));
    }
}

/// Where two filled triangles overlap, the one that is filled later is seen,
/// whichever that is. `first` and `second` are what filling the triangle
/// `a0`, `a1`, `a2` and then the triangle `b0`, `b1`, `b2` makes of `start`;
/// `other_first` and `other_second`, what filling them the other way round
/// makes of it.
pub proof fn lemma_later_triangle_is_seen(
    start: Grid,
    a0: ScreenPoint,
    a1: ScreenPoint,
    a2: ScreenPoint,
    a_color: Color,
    b0: ScreenPoint,
    b1: ScreenPoint,
    b2: ScreenPoint,
    b_color: Color,
    first: Grid,
    second: Grid,
    other_first: Grid,
    other_second: Grid,
    x: int,
    y: int,
)
    requires
        start.inside(x, y),
        triangle_pixels(a0, a1, a2).contains((x, y)),
        triangle_pixels(b0, b1, b2).contains((x, y)),
        first.is_painted(start, triangle_pixels(a0, a1, a2), a_color),
        second.is_painted(first, triangle_pixels(b0, b1, b2), b_color),
        other_first.is_painted(start, triangle_pixels(b0, b1, b2), b_color),
        other_second.is_painted(other_first, triangle_pixels(a0, a1, a2), a_color),
    ensures
        second.at(x, y) == b_color,
        other_second.at(x, y) == a_color,
{
    lemma_last_fill_wins(
        start,
        first,
        second,
        triangle_pixels(a0, a1, a2),
        a_color,
        triangle_pixels(b0, b1, b2),
        b_color,
        x,
        y,
    );
    lemma_last_fill_wins(
        start,
        other_first,
        other_second,
        triangle_pixels(b0, b1, b2),
        b_color,
        triangle_pixels(a0, a1, a2),
        a_color,
        x,
        y,
    );
}

} // verus!
