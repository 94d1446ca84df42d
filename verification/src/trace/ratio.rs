//! Exact fractions, for figures that are compared and ranked.

use vstd::prelude::*;

verus! {

/// How one fraction stands to another.
#[derive(Debug, Clone, Copy, PartialEq, Eq, Structural)]
pub enum Standing {
    Below,
    Level,
    Above,
}

/// The fraction `num / den`.
#[derive(Debug, Clone, Copy)]
pub struct Ratio {
    pub num: i128,
    pub den: u64,
}

impl Ratio {
    /// A fraction has a denominator.
    pub open spec fn wf(self) -> bool {
        self.den > 0
    }

    /// Whether this fraction is the smaller one.
    pub open spec fn below(self, other: Ratio) -> bool {
        self.num * other.den < other.num * self.den
    }

    /// Whether the two fractions are the same number.
    pub open spec fn level(self, other: Ratio) -> bool {
        self.num * other.den == other.num * self.den
    }

    /// How this fraction stands to another.
    pub open spec fn standing(self, other: Ratio) -> Standing {
        if self.below(other) {
            Standing::Below
        } else if self.level(other) {
            Standing::Level
        } else {
            Standing::Above
        }
    }

    /// The whole number `n`.
    pub fn whole(n: i128) -> (r: Ratio)
        ensures
            r == (Ratio { num: n, den: 1 }),
            r.wf(),
    {
        Ratio { num: n, den: 1 }
    }

    /// Compares two fractions exactly.
    pub fn compare(&self, other: &Ratio) -> (r: Standing)
        requires
            self.wf(),
            other.wf(),
        ensures
            r == self.standing(*other),
    {
        proof {
            lemma_sign(self.num as int, other.den as int);
            lemma_sign(other.num as int, self.den as int);
        }
        if self.num < 0 && other.num >= 0 {
            Standing::Below
        } else if self.num >= 0 && other.num < 0 {
            Standing::Above
        } else if self.num >= 0 {
            compare_sizes(self.num as u128, self.den, other.num as u128, other.den)
        } else {
            let a: u128 = size(self.num);
            let b: u128 = size(other.num);
            assert(a * other.den == -(self.num * other.den)) by (nonlinear_arith)
                requires
                    a == -self.num,
            ;
            assert(b * self.den == -(other.num * self.den)) by (nonlinear_arith)
                requires
                    b == -other.num,
            ;
            compare_sizes(b, other.den, a, self.den)
        }
    }
}

/// How far a negative number lies below zero.
fn size(n: i128) -> (r: u128)
    requires
        n < 0,
    ensures
        r == -n,
{
    let m: i128 = -(n + 1);
    m as u128 + 1
}

proof fn lemma_sign(n: int, d: int)
    requires
        d > 0,
    ensures
        n < 0 ==> n * d < 0,
        n >= 0 ==> n * d >= 0,
{
    assert(n < 0 ==> n * d < 0) by (nonlinear_arith)
        requires
            d > 0,
    ;
    assert(n >= 0 ==> n * d >= 0) by (nonlinear_arith)
        requires
            d > 0,
    ;
}

/// Which of two fractions is larger is decided by their whole parts, and where those agree by what
/// is left over.
proof fn lemma_whole_parts(n1: int, d1: int, q1: int, r1: int, n2: int, d2: int, q2: int, r2: int)
    requires
        d1 > 0,
        d2 > 0,
        n1 == q1 * d1 + r1,
        n2 == q2 * d2 + r2,
        0 <= r1 < d1,
        0 <= r2 < d2,
    ensures
        q1 < q2 ==> n1 * d2 < n2 * d1,
        q1 == q2 ==> n1 * d2 - n2 * d1 == r1 * d2 - r2 * d1,
{
    assert(n1 * d2 == q1 * (d1 * d2) + r1 * d2) by (nonlinear_arith)
        requires
            n1 == q1 * d1 + r1,
    ;
    assert(n2 * d1 == q2 * (d1 * d2) + r2 * d1) by (nonlinear_arith)
        requires
            n2 == q2 * d2 + r2,
    ;
    assert(r1 * d2 < d1 * d2) by (nonlinear_arith)
        requires
            r1 < d1,
            d2 > 0,
    ;
    assert(r2 * d1 >= 0) by (nonlinear_arith)
        requires
            r2 >= 0,
            d1 > 0,
    ;
    if q1 < q2 {
        assert(q1 * (d1 * d2) + d1 * d2 <= q2 * (d1 * d2)) by (nonlinear_arith)
            requires
                q1 + 1 <= q2,
                d1 > 0,
                d2 > 0,
        ;
    }
}

/// Compares `n1 / d1` with `n2 / d2`.
fn compare_sizes(n1: u128, d1: u64, n2: u128, d2: u64) -> (r: Standing)
    requires
        d1 > 0,
        d2 > 0,
    ensures
        r == if n1 * d2 < n2 * d1 {
            Standing::Below
        } else if n1 * d2 == n2 * d1 {
            Standing::Level
        } else {
            Standing::Above
        },
{
    let (e1, e2): (u128, u128) = (d1 as u128, d2 as u128);
    let (q1, r1): (u128, u128) = (n1 / e1, n1 % e1);
    let (q2, r2): (u128, u128) = (n2 / e2, n2 % e2);
    proof {
        vstd::arithmetic::div_mod::lemma_fundamental_div_mod(n1 as int, e1 as int);
        vstd::arithmetic::div_mod::lemma_fundamental_div_mod(n2 as int, e2 as int);
        assert(q1 * e1 == e1 * q1) by (nonlinear_arith);
        assert(q2 * e2 == e2 * q2) by (nonlinear_arith);
        lemma_whole_parts(
            n1 as int,
            e1 as int,
            q1 as int,
            r1 as int,
            n2 as int,
            e2 as int,
            q2 as int,
            r2 as int,
        );
        lemma_whole_parts(
            n2 as int,
            e2 as int,
            q2 as int,
            r2 as int,
            n1 as int,
            e1 as int,
            q1 as int,
            r1 as int,
        );
        assert(r1 * e2 <= u128::MAX) by (nonlinear_arith)
            requires
                0 <= r1 <= 0xffff_ffff_ffff_ffff,
                0 <= e2 <= 0xffff_ffff_ffff_ffff,
        ;
        assert(r2 * e1 <= u128::MAX) by (nonlinear_arith)
            requires
                0 <= r2 <= 0xffff_ffff_ffff_ffff,
                0 <= e1 <= 0xffff_ffff_ffff_ffff,
        ;
    }
    if q1 < q2 {
        Standing::Below
    } else if q1 > q2 {
        Standing::Above
    } else if r1 * e2 < r2 * e1 {
        Standing::Below
    } else if r1 * e2 == r2 * e1 {
        Standing::Level
    } else {
        Standing::Above
    }
}

}
