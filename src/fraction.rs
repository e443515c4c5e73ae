use crate::price::{int_order, PriceError};
use std::cmp::Ordering;
use vstd::prelude::*;

verus! {

/// `2^64`.
pub const LIMB: u128 = 0x1_0000_0000_0000_0000;

/// An exact non-negative value written as `numerator / denominator`.
#[derive(Clone, Copy, Debug)]
pub struct Fraction {
    pub numerator: u128,
    pub denominator: u128,
}

/// A 256-bit number as its high and low 128-bit halves.
#[derive(Clone, Copy, Debug)]
pub struct Wide {
    pub hi: u128,
    pub lo: u128,
}

impl Wide {
    pub open spec fn value(self) -> int {
        self.hi * (LIMB * LIMB) + self.lo
    }
}

proof fn lemma_limb_square()
    ensures
        LIMB * LIMB == u128::MAX + 1,
{
    assert(LIMB * LIMB == 0x1_0000_0000_0000_0000_0000_0000_0000_0000) by (nonlinear_arith);
}

/// The full product of two `u128`s.
pub fn wide_mul(a: u128, b: u128) -> (r: Wide)
    ensures
        r.value() == a * b,
{
    let a1 = a / LIMB;
    let a0 = a % LIMB;
    let b1 = b / LIMB;
    let b0 = b % LIMB;
    proof {
        lemma_limb_square();
        assert(a == a1 * LIMB + a0);
        assert(b == b1 * LIMB + b0);
        assert(a1 < LIMB && b1 < LIMB) by (nonlinear_arith)
            requires
                a1 == a / LIMB,
                b1 == b / LIMB,
                a <= u128::MAX,
                b <= u128::MAX,
                LIMB * LIMB == u128::MAX + 1,
        ;
        assert(a1 * b1 < LIMB * LIMB && a0 * b0 < LIMB * LIMB && a0 * b1 < LIMB * LIMB && a1 * b0
            < LIMB * LIMB) by (nonlinear_arith)
            requires
                a1 < LIMB,
                b1 < LIMB,
                a0 < LIMB,
                b0 < LIMB,
        ;
    }
    let p00 = a0 * b0;
    let p01 = a0 * b1;
    let p10 = a1 * b0;
    let p11 = a1 * b1;
    let q0 = p00 / LIMB;
    let r0 = p00 % LIMB;
    let q1 = p01 / LIMB;
    let r1 = p01 % LIMB;
    let q2 = p10 / LIMB;
    let r2 = p10 % LIMB;
    proof {
        assert(q0 < LIMB && q1 < LIMB && q2 < LIMB) by (nonlinear_arith)
            requires
                q0 == p00 / LIMB,
                q1 == p01 / LIMB,
                q2 == p10 / LIMB,
                p00 < LIMB * LIMB,
                p01 < LIMB * LIMB,
                p10 < LIMB * LIMB,
        ;
    }
    let mid = q0 + r1 + r2;
    let m1 = mid / LIMB;
    let m0 = mid % LIMB;
    proof {
        let B = LIMB as int;
        assert(a * b == p11 * (B * B) + (p01 + p10) * B + p00) by (nonlinear_arith)
            requires
                a == a1 * B + a0,
                b == b1 * B + b0,
                p00 == a0 * b0,
                p01 == a0 * b1,
                p10 == a1 * b0,
                p11 == a1 * b1,
        ;
        assert(p00 == q0 * B + r0 && p01 == q1 * B + r1 && p10 == q2 * B + r2 && mid == m1 * B + m0);
        assert(a * b == (p11 + q1 + q2 + m1) * (B * B) + (m0 * B + r0)) by (nonlinear_arith)
            requires
                a * b == p11 * (B * B) + (p01 + p10) * B + p00,
                p00 == q0 * B + r0,
                p01 == q1 * B + r1,
                p10 == q2 * B + r2,
                mid == q0 + r1 + r2,
                mid == m1 * B + m0,
        ;
        assert(m0 * B + r0 < B * B) by (nonlinear_arith)
            requires
                m0 < B,
                r0 < B,
        ;
        assert((p11 + q1 + q2 + m1) * (B * B) <= a * b) by (nonlinear_arith)
            requires
                a * b == (p11 + q1 + q2 + m1) * (B * B) + (m0 * B + r0),
                m0 * B + r0 >= 0,
        ;
        assert(a * b < (B * B) * (B * B)) by (nonlinear_arith)
            requires
                0 <= a < B * B,
                0 <= b < B * B,
        ;
        assert(p11 + q1 + q2 + m1 < B * B) by (nonlinear_arith)
            requires
                (p11 + q1 + q2 + m1) * (B * B) <= a * b,
                a * b < (B * B) * (B * B),
                B > 0,
        ;
    }
    let hi = p11 + q1 + q2 + m1;
    let lo = m0 * LIMB + r0;
    Wide { hi, lo }
}

/// Orders two 256-bit numbers.
fn wide_compare(x: Wide, y: Wide) -> (r: Ordering)
    ensures
        r == int_order(x.value(), y.value()),
{
    proof {
        lemma_limb_square();
        let B2 = (LIMB * LIMB) as int;
        if x.hi < y.hi {
            assert(x.value() < y.value()) by (nonlinear_arith)
                requires
                    x.hi < y.hi,
                    x.lo < B2,
                    y.lo >= 0,
                    x.value() == x.hi * B2 + x.lo,
                    y.value() == y.hi * B2 + y.lo,
            ;
        } else if x.hi > y.hi {
            assert(x.value() > y.value()) by (nonlinear_arith)
                requires
                    x.hi > y.hi,
                    y.lo < B2,
                    x.lo >= 0,
                    x.value() == x.hi * B2 + x.lo,
                    y.value() == y.hi * B2 + y.lo,
            ;
        }
    }
    if x.hi < y.hi {
        Ordering::Less
    } else if x.hi > y.hi {
        Ordering::Greater
    } else if x.lo < y.lo {
        Ordering::Less
    } else if x.lo > y.lo {
        Ordering::Greater
    } else {
        Ordering::Equal
    }
}

impl Fraction {
    pub open spec fn is_valid(self) -> bool {
        self.denominator != 0
    }

    /// Fails with `OutOfRange` exactly when the denominator is zero.
    pub fn assert_valid(&self) -> (r: Result<(), PriceError>)
        ensures
            r == if self.is_valid() {
                Ok::<(), PriceError>(())
            } else {
                Err(PriceError::OutOfRange)
            },
    {
        if self.denominator != 0 {
            Ok(())
        } else {
            Err(PriceError::OutOfRange)
        }
    }

    /// Orders two fractions by cross multiplication, in double width so that
    /// no product overflows; for valid fractions this is the order of their
    /// values.
    pub fn compare(&self, other: &Fraction) -> (r: Ordering)
        ensures
            r == fraction_order(*self, *other),
    {
        wide_compare(
            wide_mul(self.numerator, other.denominator),
            wide_mul(other.numerator, self.denominator),
        )
    }
}

/// The order of two fractions by cross multiplication.
pub open spec fn fraction_order(a: Fraction, b: Fraction) -> Ordering {
    int_order(a.numerator * b.denominator, b.numerator * a.denominator)
}

/// On valid fractions the order is antisymmetric and transitive, and a
/// fraction equals any of its rescaled forms.
pub proof fn lemma_fraction_order_laws(a: Fraction, b: Fraction, c: Fraction, k: u128)
    requires
        a.is_valid(),
        b.is_valid(),
        c.is_valid(),
    ensures
        fraction_order(a, b) == crate::price::flip(fraction_order(b, a)),
        fraction_order(a, b) != Ordering::Greater && fraction_order(b, c) != Ordering::Greater
            ==> fraction_order(a, c) != Ordering::Greater,
        fraction_order(a, b) == Ordering::Less && fraction_order(b, c) != Ordering::Greater
            ==> fraction_order(a, c) == Ordering::Less,
        fraction_order(a, b) == Ordering::Equal && fraction_order(b, c) == Ordering::Equal
            ==> fraction_order(a, c) == Ordering::Equal,
        k > 0 && a.numerator * k <= u128::MAX && a.denominator * k <= u128::MAX ==> fraction_order(
            a,
            Fraction {
                numerator: (a.numerator * k) as u128,
                denominator: (a.denominator * k) as u128,
            },
        ) == Ordering::Equal,
{
    let (an, ad, bn, bd, cn, cd) = (
        a.numerator as int,
        a.denominator as int,
        b.numerator as int,
        b.denominator as int,
        c.numerator as int,
        c.denominator as int,
    );
    assert(an * bd <= bn * ad && bn * cd <= cn * bd ==> an * cd <= cn * ad) by (nonlinear_arith)
        requires
            ad > 0,
            bd > 0,
            cd > 0,
            an >= 0,
            bn >= 0,
            cn >= 0,
    ;
    assert(an * bd < bn * ad && bn * cd <= cn * bd ==> an * cd < cn * ad) by (nonlinear_arith)
        requires
            ad > 0,
            bd > 0,
            cd > 0,
            an >= 0,
            bn >= 0,
            cn >= 0,
    ;
    assert(an * bd == bn * ad && bn * cd == cn * bd ==> an * cd == cn * ad) by (nonlinear_arith)
        requires
            ad > 0,
            bd > 0,
            cd > 0,
    ;
    assert(an * (ad * k) == (an * k) * ad) by (nonlinear_arith);
}

} // verus!
