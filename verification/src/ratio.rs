//! Exact fractions of two counts, and how they compare.

use vstd::prelude::*;

verus! {

/// An exact fraction of two counts, `num` out of `den`. Out of nothing, the
/// fraction is zero.
pub struct Ratio {
    pub num: nat,
    pub den: nat,
}

impl Ratio {
    /// The denominator to compare by: that of nothing out of nothing is one.
    pub open spec fn base(self) -> nat {
        if self.den == 0 {
            1
        } else {
            self.den
        }
    }

    /// The fraction is zero.
    pub open spec fn is_zero(self) -> bool {
        self.num == 0
    }

    /// The fraction is one.
    pub open spec fn is_one(self) -> bool {
        self.den > 0 && self.num == self.den
    }

    /// `self > other`, as fractions.
    pub open spec fn exceeds(self, other: Ratio) -> bool {
        self.num * other.base() > other.num * self.base()
    }

    /// `self >= num / den`, as fractions.
    pub open spec fn at_least(self, num: nat, den: nat) -> bool {
        self.num * den >= num * self.base()
    }

    /// `self <= num / den`, as fractions.
    pub open spec fn at_most(self, num: nat, den: nat) -> bool {
        self.num * den <= num * self.base()
    }
}

/// What is greater than `y` is greater than what `y` is not less than.
pub proof fn lemma_exceeds_chain(x: Ratio, y: Ratio, z: Ratio)
    requires
        !x.exceeds(y),
        z.exceeds(y),
    ensures
        z.exceeds(x),
{
    let (a, p) = (x.num as int, x.base() as int);
    let (b, q) = (y.num as int, y.base() as int);
    let (c, r) = (z.num as int, z.base() as int);
    assert(c * p > a * r) by (nonlinear_arith)
        requires
            a * q <= b * p,
            c * q > b * r,
            p >= 1,
            q >= 1,
            r >= 1,
            a >= 0,
            b >= 0,
            c >= 0,
    ;
}

/// What is greater than something is not zero.
pub proof fn lemma_exceeds_nonzero(x: Ratio, y: Ratio)
    requires
        x.exceeds(y),
    ensures
        !x.is_zero(),
{
    if x.num == 0 {
        assert(x.num * y.base() == 0) by (nonlinear_arith)
            requires
                x.num == 0,
        ;
    }
}

/// Of two fractions, one at most is greater than the other.
pub proof fn lemma_exceeds_asymmetric(x: Ratio, y: Ratio)
    requires
        x.exceeds(y),
    ensures
        !y.exceeds(x),
{
}

/// A ratio that is not zero is greater than one that is.
pub proof fn lemma_exceeds_zero(x: Ratio, zero: Ratio)
    requires
        zero.is_zero(),
    ensures
        x.exceeds(zero) <==> !x.is_zero(),
        !zero.exceeds(x),
{
    let (a, q) = (x.num as int, zero.base() as int);
    assert(a * q > 0 <==> a > 0) by (nonlinear_arith)
        requires
            a >= 0,
            q >= 1,
    ;
}

} // verus!
