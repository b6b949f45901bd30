use vstd::arithmetic::div_mod::lemma_fundamental_div_mod;
use vstd::prelude::*;

verus! {

/// Largest number of grapheme clusters that a similarity function accepts;
/// up to it every exact score fits in 128-bit numerators and denominators.
pub const MAX_GRAPHEMES: usize = 0x4000_0000;

/// A similarity score, held exactly as the fraction `num / den`.
///
/// Fractions are not reduced: two scores are compared by value with
/// `less_than` and `same_value`, never by their fields.
#[derive(Clone, Copy, Debug)]
pub struct Score {
    pub num: u128,
    pub den: u128,
}

impl Score {
    /// A score lies in `[0, 1]` and has a non-zero denominator.
    pub open spec fn wf(self) -> bool {
        0 < self.den && self.num <= self.den
    }

    /// `self` is smaller than `other` as a fraction.
    pub open spec fn spec_lt(self, other: Score) -> bool {
        self.num * other.den < other.num * self.den
    }

    /// `self` and `other` are the same fraction.
    pub open spec fn spec_same(self, other: Score) -> bool {
        self.num * other.den == other.num * self.den
    }

    /// The score is held as the fraction `num / den`, written as given.
    pub open spec fn is_fraction(self, num: int, den: int) -> bool {
        self.num == num && self.den == den
    }

    /// The score is exactly one.
    pub open spec fn spec_is_one(self) -> bool {
        self.num == self.den
    }

    /// The score is exactly zero.
    pub open spec fn spec_is_zero(self) -> bool {
        self.num == 0
    }

    pub fn less_than(&self, other: &Score) -> (r: bool)
        requires
            self.den > 0,
            other.den > 0,
        ensures
            r == self.spec_lt(*other),
    {
        fraction_lt(self.num, self.den, other.num, other.den)
    }

    pub fn same_value(&self, other: &Score) -> (r: bool)
        requires
            self.den > 0,
            other.den > 0,
        ensures
            r == self.spec_same(*other),
    {
        !fraction_lt(self.num, self.den, other.num, other.den) && !fraction_lt(
            other.num,
            other.den,
            self.num,
            self.den,
        )
    }
}

/// Fractions ordered `a <= b < c` satisfy `a < c`.
pub proof fn lemma_le_lt(a: Score, b: Score, c: Score)
    requires
        a.den > 0,
        b.den > 0,
        c.den > 0,
        !b.spec_lt(a),
        b.spec_lt(c),
    ensures
        a.spec_lt(c),
        !c.spec_lt(a),
{
    let (an, ad, bn, bd, cn, cd) = (a.num as int, a.den as int, b.num as int, b.den as int, c.num as int, c.den as int);
    assert(an * bd * cd <= bn * ad * cd) by (nonlinear_arith)
        requires
            an * bd <= bn * ad,
            cd > 0,
    ;
    assert(bn * cd * ad < cn * bd * ad) by (nonlinear_arith)
        requires
            bn * cd < cn * bd,
            ad > 0,
    ;
    assert(an * cd * bd < cn * ad * bd) by (nonlinear_arith)
        requires
            an * bd * cd <= bn * ad * cd,
            bn * cd * ad < cn * bd * ad,
    ;
    assert(an * cd < cn * ad) by (nonlinear_arith)
        requires
            an * cd * bd < cn * ad * bd,
            bd > 0,
    ;
}

proof fn lemma_cross_lt(a: int, b: int, c: int, d: int, q1: int, r1: int, q2: int, r2: int)
    requires
        b > 0,
        d > 0,
        0 <= r1 < b,
        0 <= r2 < d,
        a == b * q1 + r1,
        c == d * q2 + r2,
    ensures
        q1 < q2 ==> a * d < c * b,
        q2 < q1 ==> c * b < a * d,
        q1 == q2 ==> (a * d < c * b <==> r1 * d < r2 * b),
{
    assert(a * d == q1 * (b * d) + r1 * d) by (nonlinear_arith)
        requires
            a == b * q1 + r1,
    ;
    assert(c * b == q2 * (b * d) + r2 * b) by (nonlinear_arith)
        requires
            c == d * q2 + r2,
    ;
    assert(r1 * d < b * d) by (nonlinear_arith)
        requires
            0 <= r1 < b,
            d > 0,
    ;
    assert(r2 * b < b * d) by (nonlinear_arith)
        requires
            0 <= r2 < d,
            b > 0,
    ;
    if q1 < q2 {
        assert(q1 * (b * d) + b * d <= q2 * (b * d)) by (nonlinear_arith)
            requires
                q1 < q2,
                b * d > 0,
        ;
        assert(0 <= r2 * b) by (nonlinear_arith)
            requires
                0 <= r2,
                b > 0,
        ;
    }
    if q2 < q1 {
        assert(q2 * (b * d) + b * d <= q1 * (b * d)) by (nonlinear_arith)
            requires
                q2 < q1,
                b * d > 0,
        ;
        assert(0 <= r1 * d) by (nonlinear_arith)
            requires
                0 <= r1,
                d > 0,
        ;
    }
}

/// Decides `a / b < c / d` by comparing integer parts and then the
/// reciprocals of the remainders, so no product is ever formed.
fn fraction_lt(a: u128, b: u128, c: u128, d: u128) -> (r: bool)
    requires
        b > 0,
        d > 0,
    ensures
        r == (a * d < c * b),
    decreases b + d,
{
    let q1 = a / b;
    let r1 = a % b;
    let q2 = c / d;
    let r2 = c % d;
    proof {
        lemma_fundamental_div_mod(a as int, b as int);
        lemma_fundamental_div_mod(c as int, d as int);
        lemma_cross_lt(a as int, b as int, c as int, d as int, q1 as int, r1 as int, q2 as int, r2 as int);
    }
    if q1 < q2 {
        true
    } else if q2 < q1 {
        false
    } else if r2 == 0 {
        assert(0 <= r1 * d && r2 * b == 0) by (nonlinear_arith)
            requires
                0 <= r1,
                d > 0,
                r2 == 0,
        ;
        false
    } else if r1 == 0 {
        assert(0 < r2 * b && r1 * d == 0) by (nonlinear_arith)
            requires
                0 < r2,
                b > 0,
                r1 == 0,
        ;
        true
    } else {
        let r = fraction_lt(d, r2, b, r1);
        assert(d * r1 == r1 * d && b * r2 == r2 * b) by (nonlinear_arith);
        r
    }
}

} // verus!
