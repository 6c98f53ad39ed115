//! Whole numbers too wide for the machine's widest integers, as far as
//! shading needs them: they are squared, added, multiplied by a small factor
//! and compared.

use vstd::prelude::*;

verus! {

/// Two to the power of 64: what one unit of the upper half of a [`Wide`]
/// counts.
pub open spec fn half() -> int {
    0x1_0000_0000_0000_0000
}

/// The number `hi * 2^64 + lo`.
#[derive(Clone, Copy, Debug)]
pub struct Wide {
    pub hi: u128,
    pub lo: u128,
}

impl View for Wide {
    type V = int;

    open spec fn view(&self) -> int {
        self.hi * half() + self.lo
    }
}

impl Wide {
    /// Whether the lower half is less than `2^64`, and the upper half small
    /// enough to be added to or multiplied by a small factor.
    pub open spec fn wf(self) -> bool {
        self.lo < half() && self.hi < 0x1_0000_0000_0000_0000_0000_0000
    }

    /// The square of `v`.
    pub fn square(v: u128) -> (w: Wide)
        requires
            v <= 0x2_0000_0000_0000_0000,
        ensures
            w@ == v * v,
            w.wf(),
            w.hi <= 0x4_0000_0000_0000_0000,
    {
        let a: u128 = v / 0x1_0000_0000;
        let b: u128 = v % 0x1_0000_0000;
        proof {
            assert(a * a <= 0x2_0000_0000 * 0x2_0000_0000) by (nonlinear_arith)
                requires
                    a <= 0x2_0000_0000,
            ;
            assert(a * b <= 0x2_0000_0000 * 0x1_0000_0000) by (nonlinear_arith)
                requires
                    a <= 0x2_0000_0000,
                    b <= 0x1_0000_0000,
            ;
            assert(b * b <= 0x1_0000_0000 * 0x1_0000_0000) by (nonlinear_arith)
                requires
                    b <= 0x1_0000_0000,
            ;
            assert(v * v <= 0x2_0000_0000_0000_0000 * 0x2_0000_0000_0000_0000) by (nonlinear_arith)
                requires
                    v <= 0x2_0000_0000_0000_0000,
            ;
            assert(v * v == (a * a) * half() + (2 * (a * b)) * 0x1_0000_0000 + b * b)
                by (nonlinear_arith)
                requires
                    v == a * 0x1_0000_0000 + b,
            ;
        }
        let mid: u128 = 2 * (a * b);
        let low: u128 = (mid % 0x1_0000_0000) * 0x1_0000_0000 + b * b;
        Wide {
            hi: a * a + mid / 0x1_0000_0000 + low / 0x1_0000_0000_0000_0000,
            lo: low % 0x1_0000_0000_0000_0000,
        }
    }

    /// The sum of `self` and `other`.
    pub fn plus(self, other: Wide) -> (w: Wide)
        requires
            self.lo < half(),
            other.lo < half(),
            self.hi + other.hi < 0x1000_0000_0000_0000_0000_0000,
        ensures
            w@ == self@ + other@,
            w.lo < half(),
            w.hi <= self.hi + other.hi + 1,
    {
        let low: u128 = self.lo + other.lo;
        Wide {
            hi: self.hi + other.hi + low / 0x1_0000_0000_0000_0000,
            lo: low % 0x1_0000_0000_0000_0000,
        }
    }

    /// `self` multiplied by `k`.
    pub fn times(self, k: u128) -> (w: Wide)
        requires
            self.wf(),
            k <= 0x1_0000,
        ensures
            w@ == k * self@,
            w.lo < half(),
    {
        proof {
            assert(self.lo * k <= half() * 0x1_0000) by (nonlinear_arith)
                requires
                    self.lo <= half(),
                    k <= 0x1_0000,
            ;
            assert(self.hi * k <= 0x1_0000_0000_0000_0000_0000_0000 * 0x1_0000) by (nonlinear_arith)
                requires
                    self.hi <= 0x1_0000_0000_0000_0000_0000_0000,
                    k <= 0x1_0000,
            ;
            assert(k * (self.hi * half() + self.lo) == (self.hi * k) * half() + self.lo * k)
                by (nonlinear_arith);
        }
        let low: u128 = self.lo * k;
        Wide { hi: self.hi * k + low / 0x1_0000_0000_0000_0000, lo: low % 0x1_0000_0000_0000_0000 }
    }

    /// Whether `self` is at most `other`.
    pub fn at_most(self, other: Wide) -> (r: bool)
        requires
            self.lo < half(),
            other.lo < half(),
        ensures
            r == (self@ <= other@),
    {
        self.hi < other.hi || (self.hi == other.hi && self.lo <= other.lo)
    }
}

} // verus!
