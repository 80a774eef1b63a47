//! Exact evaluation scores.
//!
//! A score is a fraction of two integers, so that a material ratio is kept
//! without rounding. Two scores compare by cross-multiplication: the order
//! is that of the rational numbers, and two scores of different parts may be
//! the same number.

use vstd::prelude::*;

verus! {

/// The numerator of the score that stands for a quotient whose divisor is
/// zero: one more than the largest quotient of two `u32` values.
pub const SATURATION: i64 = 4294967296;

/// The mathematical value of a score: the fraction `num / den`.
pub struct Fraction {
    pub num: int,
    pub den: int,
}

impl Fraction {
    /// The denominator is positive, and both parts are in the range that a
    /// `Score` holds.
    pub open spec fn fits(self) -> bool {
        &&& 0 < self.den <= u32::MAX
        &&& -SATURATION <= self.num <= SATURATION
    }

    /// `self <= other` as rational numbers.
    pub open spec fn le(self, other: Fraction) -> bool {
        self.num * other.den <= other.num * self.den
    }

    /// `self < other` as rational numbers.
    pub open spec fn lt(self, other: Fraction) -> bool {
        self.num * other.den < other.num * self.den
    }

    /// `self` and `other` are the same rational number.
    pub open spec fn same(self, other: Fraction) -> bool {
        self.num * other.den == other.num * self.den
    }

    /// The fraction of opposite sign.
    pub open spec fn negated(self) -> Fraction {
        Fraction { num: -self.num, den: self.den }
    }

    /// The fraction `n / 1`.
    pub open spec fn whole(n: int) -> Fraction {
        Fraction { num: n, den: 1 }
    }

    /// The quotient `own / other`, and `SATURATION / 1` where `other` is
    /// zero.
    pub open spec fn ratio(own: nat, other: nat) -> Fraction {
        if other == 0 {
            Fraction { num: SATURATION as int, den: 1 }
        } else {
            Fraction { num: own as int, den: other as int }
        }
    }
}

/// A position's worth.
#[derive(Clone, Copy, Debug)]
pub struct Score {
    num: i64,
    den: i64,
}

impl View for Score {
    type V = Fraction;

    closed spec fn view(&self) -> Fraction {
        Fraction { num: self.num as int, den: self.den as int }
    }
}

impl Score {
    /// Every score is a fraction that fits.
    #[verifier::type_invariant]
    pub open spec fn wf(self) -> bool {
        self@.fits()
    }

    /// The score `n / 1`.
    pub fn whole(n: i32) -> (score: Score)
        ensures
            score@ == Fraction::whole(n as int),
            score@.fits(),
    {
        Score { num: n as i64, den: 1 }
    }

    /// The quotient `own / other`; where `other` is zero, the saturated
    /// score `SATURATION / 1`.
    pub fn ratio(own: u32, other: u32) -> (score: Score)
        ensures
            score@ == Fraction::ratio(own as nat, other as nat),
            score@.fits(),
    {
        if other == 0 {
            Score { num: SATURATION, den: 1 }
        } else {
            Score { num: own as i64, den: other as i64 }
        }
    }

    /// The score of opposite sign.
    pub fn negated(self) -> (score: Score)
        ensures
            score@ == self@.negated(),
            score@.fits(),
    {
        proof {
            use_type_invariant(&self);
        }
        Score { num: -self.num, den: self.den }
    }

    /// The numerator.
    pub fn numerator(&self) -> (n: i64)
        ensures
            n == self@.num,
    {
        self.num
    }

    /// The denominator, which is positive.
    pub fn denominator(&self) -> (d: i64)
        ensures
            d == self@.den,
            d > 0,
    {
        proof {
            use_type_invariant(self);
        }
        self.den
    }

    /// The two cross products by which `self` and `other` compare.
    fn cross(&self, other: &Score) -> (products: (i128, i128))
        ensures
            products.0 == self@.num * other@.den,
            products.1 == other@.num * self@.den,
    {
        proof {
            use_type_invariant(self);
            use_type_invariant(other);
            lemma_product_bounded(self.num as int, other.den as int);
            lemma_product_bounded(other.num as int, self.den as int);
        }
        let left: i128 = (self.num as i128) * (other.den as i128);
        let right: i128 = (other.num as i128) * (self.den as i128);
        (left, right)
    }

    /// Whether `self < other` as rational numbers.
    pub fn less_than(&self, other: &Score) -> (below: bool)
        ensures
            below == self@.lt(other@),
    {
        let (left, right) = self.cross(other);
        left < right
    }

    /// Whether `self` and `other` are the same rational number.
    pub fn equals(&self, other: &Score) -> (equal: bool)
        ensures
            equal == self@.same(other@),
    {
        let (left, right) = self.cross(other);
        left == right
    }
}

/// A numerator times a denominator stays far inside `i128`.
proof fn lemma_product_bounded(n: int, d: int)
    requires
        -SATURATION <= n <= SATURATION,
        0 < d <= u32::MAX,
    ensures
        -SATURATION * SATURATION <= n * d <= SATURATION * SATURATION,
{
    assert(n * d <= SATURATION * SATURATION) by (nonlinear_arith)
        requires
            -SATURATION <= n <= SATURATION,
            0 < d <= SATURATION,
    ;
    assert(-SATURATION * SATURATION <= n * d) by (nonlinear_arith)
        requires
            -SATURATION <= n <= SATURATION,
            0 < d <= SATURATION,
    ;
}

/// The order of scores is reflexive.
pub proof fn law_order_reflexive(a: Fraction)
    ensures
        a.le(a),
        a.same(a),
        !a.lt(a),
{
}

/// Any two scores compare: one is below the other, or they are the same
/// number, and only one of the three.
pub proof fn law_order_total(a: Fraction, b: Fraction)
    ensures
        a.lt(b) || a.same(b) || b.lt(a),
        !(a.lt(b) && b.lt(a)),
        !(a.lt(b) && a.same(b)),
        a.le(b) <==> !b.lt(a),
        a.same(b) <==> a.le(b) && b.le(a),
        a.same(b) <==> b.same(a),
{
}

/// The order of scores is transitive.
pub proof fn law_order_transitive(a: Fraction, b: Fraction, c: Fraction)
    requires
        a.den > 0,
        b.den > 0,
        c.den > 0,
    ensures
        a.le(b) && b.le(c) ==> a.le(c),
        a.lt(b) && b.le(c) ==> a.lt(c),
        a.le(b) && b.lt(c) ==> a.lt(c),
        a.same(b) && b.same(c) ==> a.same(c),
{
    let ab = a.num * b.den;
    let ba = b.num * a.den;
    let bc = b.num * c.den;
    let cb = c.num * b.den;
    let ac = a.num * c.den;
    let ca = c.num * a.den;
    assert(ab * c.den == ac * b.den) by (nonlinear_arith)
        requires
            ab == a.num * b.den,
            ac == a.num * c.den,
    ;
    assert(ba * c.den == bc * a.den) by (nonlinear_arith)
        requires
            ba == b.num * a.den,
            bc == b.num * c.den,
    ;
    assert(cb * a.den == ca * b.den) by (nonlinear_arith)
        requires
            cb == c.num * b.den,
            ca == c.num * a.den,
    ;
    if a.le(b) && b.le(c) {
        assert(ab * c.den <= ba * c.den) by (nonlinear_arith)
            requires
                ab <= ba,
                c.den > 0,
        ;
        assert(bc * a.den <= cb * a.den) by (nonlinear_arith)
            requires
                bc <= cb,
                a.den > 0,
        ;
        assert(ac <= ca) by (nonlinear_arith)
            requires
                ac * b.den <= ca * b.den,
                b.den > 0,
        ;
        if a.lt(b) {
            assert(ab * c.den < ba * c.den) by (nonlinear_arith)
                requires
                    ab < ba,
                    c.den > 0,
            ;
            assert(ac < ca) by (nonlinear_arith)
                requires
                    ac * b.den < ca * b.den,
                    b.den > 0,
            ;
        }
        if b.lt(c) {
            assert(bc * a.den < cb * a.den) by (nonlinear_arith)
                requires
                    bc < cb,
                    a.den > 0,
            ;
            assert(ac < ca) by (nonlinear_arith)
                requires
                    ac * b.den < ca * b.den,
                    b.den > 0,
            ;
        }
    }
    if a.same(b) && b.same(c) {
        assert(ac == ca) by (nonlinear_arith)
            requires
                ac * b.den == ca * b.den,
                b.den > 0,
        ;
    }
}

/// The saturated score lies above every quotient of two `u32` values with a
/// positive divisor.
pub proof fn law_saturation_is_highest(own: nat, other: nat, any: nat)
    requires
        own <= u32::MAX,
        0 < other <= u32::MAX,
    ensures
        Fraction::ratio(own, other).lt(Fraction::ratio(any, 0)),
{
    assert(own * 1 < SATURATION * other) by (nonlinear_arith)
        requires
            own < SATURATION,
            other >= 1,
    ;
}

} // verus!
