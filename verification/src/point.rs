//! Points in pixel space.

use vstd::prelude::*;

verus! {

/// A position on the screen, in whole pixels. It may lie outside any canvas.
#[derive(Clone, Copy, Debug, PartialEq, Eq, Structural)]
pub struct ScreenPoint {
    pub x: i32,
    pub y: i32,
}

/// A position on the screen together with a depth. A greater depth is nearer
/// to the viewer.
#[derive(Clone, Copy, Debug, PartialEq, Eq, Structural)]
pub struct DepthPoint {
    pub x: i32,
    pub y: i32,
    pub z: i32,
}

/// The distance of `v` from zero.
pub open spec fn abs(v: int) -> int {
    if v < 0 {
        -v
    } else {
        v
    }
}

/// If `x` lies in the `q`-th stretch of length `d`, then `x / d` is `q`.
pub proof fn lemma_div_between(x: int, d: int, q: int)
    requires
        d > 0,
        q * d <= x < q * d + d,
    ensures
        x / d == q,
{
    vstd::arithmetic::div_mod::lemma_fundamental_div_mod_converse(x, d, q, x - q * d);
}

/// If `n` lies between `lo * d` and `hi * d`, then `n / d` lies between `lo`
/// and `hi`.
pub proof fn lemma_div_within(n: int, d: int, lo: int, hi: int)
    requires
        d > 0,
        lo * d <= n <= hi * d,
    ensures
        lo <= n / d <= hi,
{
    let q = n / d;
    vstd::arithmetic::div_mod::lemma_fundamental_div_mod(n, d);
    vstd::arithmetic::div_mod::lemma_mod_bound(n, d);
    if q < lo {
        assert(d * q + d <= lo * d) by (nonlinear_arith)
            requires
                q + 1 <= lo,
                d > 0,
        ;
    }
    if q > hi {
        assert(d * q >= hi * d + d) by (nonlinear_arith)
            requires
                q >= hi + 1,
                d > 0,
        ;
    }
}

/// A product is at most as far from zero as the product of its factors'
/// bounds.
pub proof fn lemma_mul_within(x: int, y: int, m: int, n: int)
    requires
        -m <= x <= m,
        -n <= y <= n,
    ensures
        -(m * n) <= x * y <= m * n,
{
    assert(-(m * n) <= x * y <= m * n) by (nonlinear_arith)
        requires
            -m <= x <= m,
            -n <= y <= n,
    ;
}

/// `n / d`, rounded down.
pub(crate) fn floor_div(n: i128, d: i128) -> (q: i128)
    requires
        0 < d <= 0x1_0000_0000_0000_0000_0000_0000_0000,
        -0x1_0000_0000_0000_0000_0000_0000_0000 <= n <= 0x1_0000_0000_0000_0000_0000_0000_0000,
    ensures
        q == n / d,
{
    if n >= 0 {
        n / d
    } else {
        let m: i128 = -n;
        let t: i128 = (m + d - 1) / d;
        proof {
            vstd::arithmetic::div_mod::lemma_fundamental_div_mod(m + d - 1, d as int);
            vstd::arithmetic::div_mod::lemma_mod_bound(m + d - 1, d as int);
            assert((-t) * d == -(d * t)) by (nonlinear_arith);
            lemma_div_between(n as int, d as int, -t);
        }
        -t
    }
}

} // verus!
