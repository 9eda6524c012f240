//! Products that exceed a machine word, and the squared distances that they
//! compare.

use vstd::prelude::*;

verus! {

/// One more than the greatest half of a word.
const HALF: u128 = 0x1_0000_0000_0000_0000;

/// One more than the greatest word.
pub open spec fn word() -> int {
    0x1_0000_0000_0000_0000_0000_0000_0000_0000int
}

/// An unsigned number of two words.
#[derive(Clone, Copy, Debug, PartialEq, Eq, Structural)]
pub struct Wide {
    pub hi: u128,
    pub lo: u128,
}

impl Wide {
    /// The number.
    pub open spec fn val(self) -> int {
        self.hi * word() + self.lo
    }

    /// The product of two words.
    pub fn product(a: u128, b: u128) -> (out: Self)
        ensures
            out.val() == a * b,
    {
        let (a1, a0): (u128, u128) = (a / HALF, a % HALF);
        let (b1, b0): (u128, u128) = (b / HALF, b % HALF);
        proof {
            lemma_small_product(a0 as int, b0 as int);
            lemma_small_product(a0 as int, b1 as int);
            lemma_small_product(a1 as int, b0 as int);
            lemma_small_product(a1 as int, b1 as int);
        }
        let p00: u128 = a0 * b0;
        let p01: u128 = a0 * b1;
        let p10: u128 = a1 * b0;
        let p11: u128 = a1 * b1;
        let mid: u128 = p00 / HALF + p01 % HALF + p10 % HALF;
        let out = Wide {
            hi: p11 + p01 / HALF + p10 / HALF + mid / HALF,
            lo: (mid % HALF) * HALF + p00 % HALF,
        };
        proof {
            let h = HALF as int;
            assert(a == a1 * h + a0);
            assert(b == b1 * h + b0);
            assert(a * b == p11 * (h * h) + (p01 + p10) * h + p00) by (nonlinear_arith)
                requires
                    a == a1 * h + a0,
                    b == b1 * h + b0,
                    p00 == a0 * b0,
                    p01 == a0 * b1,
                    p10 == a1 * b0,
                    p11 == a1 * b1,
            ;
            assert(h * h == word()) by (nonlinear_arith)
                requires
                    h == 0x1_0000_0000_0000_0000,
            ;
            assert(p01 == (p01 / HALF) * h + p01 % HALF);
            assert(p10 == (p10 / HALF) * h + p10 % HALF);
            assert(p00 == (p00 / HALF) * h + p00 % HALF);
            assert(mid == (mid / HALF) * h + mid % HALF);
        }
        out
    }

    /// The product with a small number.
    pub fn times(self, factor: u128) -> (out: Self)
        requires
            self.hi <= 64,
            factor <= 0x100_0000_0000_0000_0000,
        ensures
            out.val() == self.val() * factor,
    {
        let low = Wide::product(self.lo, factor);
        proof {
            assert(self.lo * factor <= word() * factor) by (nonlinear_arith)
                requires
                    self.lo <= word(),
                    factor >= 0,
            ;
            assert(low.hi <= factor) by (nonlinear_arith)
                requires
                    low.hi * word() <= word() * factor,
                    word() > 0,
            ;
            assert(self.hi * factor <= 64 * factor) by (nonlinear_arith)
                requires
                    0 <= self.hi <= 64,
                    factor >= 0,
            ;
            assert((self.hi * word() + self.lo) * factor == (self.hi * factor) * word() + self.lo
                * factor) by (nonlinear_arith);
        }
        Wide { hi: low.hi + self.hi * factor, lo: low.lo }
    }

    /// Whether this is at most the other.
    pub fn le(self, other: Wide) -> (out: bool)
        ensures
            out == (self.val() <= other.val()),
    {
        self.hi < other.hi || (self.hi == other.hi && self.lo <= other.lo)
    }
}

/// The product of two halves is a word, with room.
proof fn lemma_small_product(a: int, b: int)
    requires
        0 <= a < HALF,
        0 <= b < HALF,
    ensures
        0 <= a * b <= (HALF - 1) * (HALF - 1),
{
    assert(0 <= a * b <= (HALF - 1) * (HALF - 1)) by (nonlinear_arith)
        requires
            0 <= a <= HALF - 1,
            0 <= b <= HALF - 1,
    ;
}

/// A squared distance: `num / den` square archive units.
#[derive(Clone, Copy, Debug, PartialEq, Eq, Structural)]
pub struct Ratio {
    pub num: Wide,
    pub den: u128,
}

impl Ratio {
    /// The distance is one that points of an archive can have.
    pub open spec fn wf(self) -> bool {
        &&& self.num.hi <= 64
        &&& 0 < self.den <= 0x100_0000_0000_0000_0000
    }

    /// This is at most the other.
    pub open spec fn at_most(self, other: Ratio) -> bool {
        self.num.val() * other.den <= other.num.val() * self.den
    }

    /// Whether this is at most the other.
    pub fn le(self, other: Ratio) -> (out: bool)
        requires
            self.wf(),
            other.wf(),
        ensures
            out == self.at_most(other),
    {
        self.num.times(other.den).le(other.num.times(self.den))
    }

    /// The smaller of the two.
    pub fn least(self, other: Ratio) -> (out: Ratio)
        requires
            self.wf(),
            other.wf(),
        ensures
            out.wf(),
            out == self || out == other,
            out.at_most(self),
            out.at_most(other),
    {
        proof {
            lemma_ratio_total(self, other);
        }
        if self.le(other) {
            self
        } else {
            other
        }
    }
}

/// Any two distances compare.
pub proof fn lemma_ratio_total(a: Ratio, b: Ratio)
    ensures
        a.at_most(b) || b.at_most(a),
        a.at_most(a),
{
}

/// Comparisons of distances chain.
pub proof fn lemma_ratio_chain(a: Ratio, b: Ratio, c: Ratio)
    requires
        a.den > 0,
        b.den > 0,
        c.den > 0,
        a.at_most(b),
        b.at_most(c),
    ensures
        a.at_most(c),
{
    let (x, y, z) = (a.num.val(), b.num.val(), c.num.val());
    let (p, q, r) = (a.den as int, b.den as int, c.den as int);
    assert(x * q * r <= y * p * r) by (nonlinear_arith)
        requires
            x * q <= y * p,
            r > 0,
    ;
    assert(y * r * p <= z * q * p) by (nonlinear_arith)
        requires
            y * r <= z * q,
            p > 0,
    ;
    assert((x * r) * q <= (z * p) * q) by (nonlinear_arith)
        requires
            x * q * r <= y * p * r,
            y * r * p <= z * q * p,
    ;
    assert(x * r <= z * p) by (nonlinear_arith)
        requires
            (x * r) * q <= (z * p) * q,
            q > 0,
    ;
}

} // verus!
