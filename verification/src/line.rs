//! Straight lines, one pixel wide.
//!
//! A line is walked along the axis in which its end points lie further
//! apart, one pixel per step, from the end with the smaller coordinate on
//! that axis. On the other axis it follows the ideal line, rounded to the
//! nearest pixel; where the ideal line passes exactly between two pixels, the
//! one nearer to the start is taken.

use crate::canvas::{lemma_paint_one, put_pixel, Canvas, Color};
use crate::point::{abs, lemma_div_between, ScreenPoint};
use vstd::prelude::*;

verus! {

/// A line brought into the form in which it is walked: the two axes are
/// exchanged if the line is steep, and the ends are ordered so that
/// `x0 <= x1`.
pub struct Walk {
    /// Whether the axes were exchanged, so that `x0`, `x1` are really rows.
    pub steep: bool,
    pub x0: int,
    pub y0: int,
    pub x1: int,
    pub y1: int,
}

impl Walk {
    /// The walk along the line between `p0` and `p1`.
    pub open spec fn of(p0: ScreenPoint, p1: ScreenPoint) -> Walk {
        let steep = abs(p0.x - p1.x) < abs(p0.y - p1.y);
        let a: (int, int) = if steep {
            (p0.y as int, p0.x as int)
        } else {
            (p0.x as int, p0.y as int)
        };
        let b: (int, int) = if steep {
            (p1.y as int, p1.x as int)
        } else {
            (p1.x as int, p1.y as int)
        };
        if a.0 > b.0 {
            Walk { steep, x0: b.0, y0: b.1, x1: a.0, y1: a.1 }
        } else {
            Walk { steep, x0: a.0, y0: a.1, x1: b.0, y1: b.1 }
        }
    }

    /// How far the ends are apart on the axis that is walked.
    pub open spec fn run(self) -> int {
        self.x1 - self.x0
    }

    /// How far the ends are apart on the other axis.
    pub open spec fn rise(self) -> int {
        abs(self.y1 - self.y0)
    }

    /// How many pixels the walk has moved on the other axis when it arrives
    /// at step `k`: `k * rise / run`, rounded to the nearest whole number,
    /// and downwards from a half.
    pub open spec fn climbed(self, k: int) -> int {
        if self.run() == 0 {
            0
        } else {
            (2 * k * self.rise() + self.run() - 1) / (2 * self.run())
        }
    }

    /// The pixel drawn at step `k`, with the axes as they are on the screen.
    pub open spec fn point(self, k: int) -> (int, int) {
        let x = self.x0 + k;
        let y = if self.y1 > self.y0 {
            self.y0 + self.climbed(k)
        } else {
            self.y0 - self.climbed(k)
        };
        if self.steep {
            (y, x)
        } else {
            (x, y)
        }
    }

    /// The pixels drawn at the steps before step `n`.
    pub open spec fn prefix(self, n: int) -> Set<(int, int)> {
        Set::new(|p: (int, int)| exists|k: int| 0 <= k < n && #[trigger] self.point(k) == p)
    }
}

/// The pixels of the line between `p0` and `p1`, both ends included.
pub open spec fn line_pixels(p0: ScreenPoint, p1: ScreenPoint) -> Set<(int, int)> {
    Walk::of(p0, p1).prefix(Walk::of(p0, p1).run() + 1)
}

/// Whether two pixels touch at a side or at a corner.
pub open spec fn adjacent(a: (int, int), b: (int, int)) -> bool {
    a != b && abs(a.0 - b.0) <= 1 && abs(a.1 - b.1) <= 1
}

/// The position of the pixel `p` on the axis along which `w` is walked.
pub open spec fn along(w: Walk, p: (int, int)) -> int {
    if w.steep {
        p.1
    } else {
        p.0
    }
}

/// A line is the same set of pixels from whichever end it is drawn.
pub proof fn lemma_line_symmetric(p0: ScreenPoint, p1: ScreenPoint)
    ensures
        Walk::of(p0, p1) == Walk::of(p1, p0),
        line_pixels(p0, p1) == line_pixels(p1, p0),
{
}

/// A line never leans by more than a diagonal: it is walked along the axis
/// on which its ends lie further apart.
pub proof fn lemma_walk_is_shallow(p0: ScreenPoint, p1: ScreenPoint)
    ensures
        0 <= Walk::of(p0, p1).rise() <= Walk::of(p0, p1).run(),
{
}

/// From one step to the next a walk climbs by one pixel or not at all.
pub proof fn lemma_climb_one(w: Walk, k: int)
    requires
        0 <= w.rise() <= w.run(),
        0 <= k,
    ensures
        w.climbed(k) <= w.climbed(k + 1) <= w.climbed(k) + 1,
{
    if w.run() > 0 {
        let d = 2 * w.run();
        let a = 2 * k * w.rise() + w.run() - 1;
        let b = 2 * (k + 1) * w.rise() + w.run() - 1;
        let q = a / d;
        let r = a % d;
        assert(b == a + 2 * w.rise()) by (nonlinear_arith)
            requires
                a == 2 * k * w.rise() + w.run() - 1,
                b == 2 * (k + 1) * w.rise() + w.run() - 1,
        ;
        vstd::arithmetic::div_mod::lemma_fundamental_div_mod(a, d);
        vstd::arithmetic::div_mod::lemma_mod_bound(a, d);
        assert(q * d == d * q) by (nonlinear_arith);
        assert((q + 1) * d == q * d + d) by (nonlinear_arith);
        if r + 2 * w.rise() < d {
            lemma_div_between(b, d, q);
        } else {
            lemma_div_between(b, d, q + 1);
        }
    }
}

/// A walk starts on one end of its line and arrives on the other.
pub proof fn lemma_walk_ends(w: Walk)
    requires
        0 <= w.rise() <= w.run(),
    ensures
        w.climbed(0) == 0,
        w.climbed(w.run()) == w.rise(),
{
    if w.run() > 0 {
        let d = 2 * w.run();
        assert(2 * 0 * w.rise() == 0) by (nonlinear_arith);
        assert(0 * d == 0);
        lemma_div_between(w.run() - 1, d, 0);
        assert(w.rise() * d == 2 * w.run() * w.rise()) by (nonlinear_arith)
            requires
                d == 2 * w.run(),
        ;
        lemma_div_between(2 * w.run() * w.rise() + w.run() - 1, d, w.rise());
    }
}

/// A line is an unbroken path between its two ends. It starts on one end and
/// arrives on the other; each step moves by exactly one pixel along the axis
/// on which the ends lie further apart, so that no column (or, for a steep
/// line, no row) between the ends is skipped; and each pixel touches the next
/// at a side or a corner.
pub proof fn lemma_line_connected(p0: ScreenPoint, p1: ScreenPoint)
    ensures
        ({
            let w = Walk::of(p0, p1);
            let a = (p0.x as int, p0.y as int);
            let b = (p1.x as int, p1.y as int);
            &&& (w.point(0) == a && w.point(w.run()) == b) || (w.point(0) == b && w.point(w.run())
                == a)
            &&& line_pixels(p0, p1).contains(a)
            &&& line_pixels(p0, p1).contains(b)
            &&& forall|k: int|
                0 <= k <= w.run() ==> line_pixels(p0, p1).contains(#[trigger] w.point(k)) && along(
                    w,
                    w.point(k),
                ) == w.x0 + k
            &&& forall|k: int|
                0 <= k < w.run() ==> adjacent(#[trigger] w.point(k), w.point(k + 1))
        }),
{
    let w = Walk::of(p0, p1);
    lemma_walk_is_shallow(p0, p1);
    lemma_walk_ends(w);
    assert(0 <= 0 <= w.run());
    assert(w.prefix(w.run() + 1).contains(w.point(0)));
    assert(w.prefix(w.run() + 1).contains(w.point(w.run())));
    assert forall|k: int| 0 <= k < w.run() implies adjacent(#[trigger] w.point(k), w.point(k + 1)) by {
        lemma_climb_one(w, k);
    }
}

/// One more step adds one pixel.
proof fn lemma_prefix_step(w: Walk, n: int)
    requires
        n >= 0,
    ensures
        w.prefix(n + 1) == w.prefix(n).insert(w.point(n)),
{
    let grown = w.prefix(n).insert(w.point(n));
    assert forall|p: (int, int)| w.prefix(n + 1).contains(p) implies grown.contains(p) by {
        let k = choose|k: int| 0 <= k < n + 1 && #[trigger] w.point(k) == p;
        if k < n {
            assert(w.prefix(n).contains(p));
        }
    }
    assert forall|p: (int, int)| grown.contains(p) implies w.prefix(n + 1).contains(p) by {
        if p == w.point(n) {
            assert(0 <= n < n + 1 && w.point(n) == p);
        } else {
            let k = choose|k: int| 0 <= k < n && #[trigger] w.point(k) == p;
            assert(0 <= k < n + 1 && w.point(k) == p);
        }
    }
    assert(w.prefix(n + 1) =~= grown);
}

/// An error term within half a step of zero fixes how far the walk has
/// climbed.
proof fn lemma_climbed(w: Walk, k: int, n: int, err: int)
    requires
        w.run() > 0,
        err == 2 * (w.rise() * k) - 2 * (w.run() * n),
        -w.run() < err <= w.run(),
    ensures
        w.climbed(k) == n,
{
    let d = 2 * w.run();
    let x = 2 * k * w.rise() + w.run() - 1;
    assert(2 * k * w.rise() == 2 * (w.rise() * k)) by (nonlinear_arith);
    assert(n * d == 2 * (w.run() * n)) by (nonlinear_arith)
        requires
            d == 2 * w.run(),
    ;
    lemma_div_between(x, d, n);
}

fn magnitude(v: i64) -> (m: i64)
    requires
        v > i64::MIN,
    ensures
        m == abs(v as int),
{
    if v < 0 {
        -v
    } else {
        v
    }
}

/// Draws the line between `t0` and `t1` in `color`. Pixels of the line that
/// lie outside the canvas are left out.
pub fn line(t0: ScreenPoint, t1: ScreenPoint, image: &mut Canvas, color: Color)
    ensures
        final(image)@.is_painted(old(image)@, line_pixels(t0, t1), color),
{
    let mut x0: i64 = t0.x as i64;
    let mut x1: i64 = t1.x as i64;
    let mut y0: i64 = t0.y as i64;
    let mut y1: i64 = t1.y as i64;
    let mut steep = false;
    if magnitude(x0 - x1) < magnitude(y0 - y1) {
        let t: i64 = x0;
        x0 = y0;
        y0 = t;
        let t: i64 = x1;
        x1 = y1;
        y1 = t;
        steep = true;
    }
    if x0 > x1 {
        let t: i64 = x0;
        x0 = x1;
        x1 = t;
        let t: i64 = y0;
        y0 = y1;
        y1 = t;
    }
    let ghost w = Walk::of(t0, t1);
    assert(w == Walk { steep, x0: x0 as int, y0: y0 as int, x1: x1 as int, y1: y1 as int });
    let dx: i64 = x1 - x0;
    let dy: i64 = y1 - y0;
    let derror2: i64 = magnitude(dy) * 2;
    let mut error2: i64 = 0;
    let mut y: i64 = y0;
    let mut x: i64 = x0;
    let ghost mut n: int = 0;
    assert(w.rise() * 0 == 0 && w.run() * 0 == 0) by (nonlinear_arith);
    assert(w.prefix(0) =~= Set::empty());
    while x <= x1
        invariant
            w == (Walk { steep, x0: x0 as int, y0: y0 as int, x1: x1 as int, y1: y1 as int }),
            -0x8000_0000 <= x0 <= x1 < 0x8000_0000,
            -0x8000_0000 <= y0 < 0x8000_0000,
            -0x8000_0000 <= y1 < 0x8000_0000,
            w.rise() <= w.run(),
            dx == w.run(),
            derror2 == 2 * w.rise(),
            x0 <= x <= x1 + 1,
            0 <= n <= x - x0,
            y == if y1 > y0 {
                y0 + n
            } else {
                y0 - n
            },
            error2 == 2 * (w.rise() * (x - x0)) - 2 * (w.run() * n),
            -dx < error2 <= dx || (dx == 0 && error2 == 0),
            image@.is_painted(old(image)@, w.prefix(x - x0), color),
        decreases x1 + 1 - x,
    {
        let ghost k = x - x0;
        let ghost before = image@;
        proof {
            if dx > 0 {
                lemma_climbed(w, k, n, error2 as int);
            }
            assert(w.climbed(k) == n);
            lemma_prefix_step(w, k);
        }
        if steep {
            put_pixel(image, y, x, color);
        } else {
            put_pixel(image, x, y, color);
        }
        proof {
            let at = w.point(k);
            lemma_paint_one(image@, before, old(image)@, w.prefix(k), color, at.0, at.1);
        }
        error2 += derror2;
        if error2 > dx {
            y += if y1 > y0 {
                1
            } else {
                -1
            };
            error2 -= dx * 2;
            proof {
                assert(w.run() * (n + 1) == w.run() * n + w.run()) by (nonlinear_arith);
                n = n + 1;
            }
        }
        proof {
            assert(w.rise() * (k + 1) == w.rise() * k + w.rise()) by (nonlinear_arith);
        }
        x += 1;
    }
}

} // verus!
