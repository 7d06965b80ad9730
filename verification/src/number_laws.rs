//! What the arithmetic of doubles is for.
use crate::double::Double;
use crate::rounding::{
    lemma_magnitude_ordered, lemma_magnitude_parts, lemma_magnitude_shape, lemma_nearest_exists,
    magnitude, nearest, FRACTION, INFINITE,
};
use vstd::arithmetic::power2::{lemma_pow2_pos, lemma_pow2_unfold, pow2};
use vstd::prelude::*;

verus! {

/// The distance of two integers.
pub open spec fn apart(a: int, b: int) -> int {
    if a < b {
        b - a
    } else {
        a - b
    }
}

/// Doubles begin at zero, lie one unit apart up to 2^53 units, and from 2^52 units on a pattern
/// that is one exponent higher stands for twice the value. This fixes the value of every pattern.
pub proof fn law_doubles_are_spaced(p: int)
    requires
        p >= 0,
    ensures
        magnitude(0) == 0,
        p < 0x20_0000_0000_0000 ==> magnitude(p + 1) == magnitude(p) + 1,
        p >= 0x10_0000_0000_0000 ==> magnitude(p + 0x10_0000_0000_0000) == 2 * magnitude(p),
{
    lemma_magnitude_parts(p);
    vstd::arithmetic::power2::lemma2_to64();
    let e = crate::rounding::step(p);
    let q = crate::rounding::significand(p);
    if p < 2 * FRACTION {
        assert(e == 0 && q == p);
        assert(q * pow2(0) == q && (q + 1) * pow2(0) == q + 1) by (nonlinear_arith)
            requires
                pow2(0) == 1,
        ;
    }
    if p >= FRACTION {
        lemma_magnitude_shape(e + 1, q);
        lemma_pow2_unfold((e + 1) as nat);
        let t = pow2(e as nat) as int;
        assert(q * (2 * t) == 2 * (q * t)) by (nonlinear_arith);
        assert((e + 1) * FRACTION + q == p + FRACTION);
    }
}

/// The highest bit is the sign and the other bits are the pattern; patterns above that of infinity
/// are not numbers.
pub proof fn law_encoding(d: Double)
    ensures
        d.negative() <==> d.bits >= 0x8000_0000_0000_0000,
        d.bits == d.pattern() + if d.negative() {
            0x8000_0000_0000_0000int
        } else {
            0
        },
        d.nan() <==> d.pattern() > 0x7ff0_0000_0000_0000,
        d.infinite() <==> d.pattern() == 0x7ff0_0000_0000_0000,
        d.finite() <==> d.pattern() < 0x7ff0_0000_0000_0000,
        d.zero() <==> d.pattern() == 0,
        d.size() == magnitude(d.pattern()),
        d.value() == if d.negative() {
            -magnitude(d.pattern())
        } else {
            magnitude(d.pattern())
        },
        d.rank() == if d.negative() {
            -d.pattern()
        } else {
            d.pattern()
        },
{
}

/// Numbers are ordered by their values; what is not a number is neither below nor at most anything.
pub proof fn law_order(a: Double, b: Double)
    ensures
        a.below(b) <==> !a.nan() && !b.nan() && a.value() < b.value(),
        a.at_most(b) <==> !a.nan() && !b.nan() && !b.below(a),
        !a.nan() && !b.nan() ==> (a.below(b) <==> a.rank() < b.rank()),
{
    crate::double::lemma_rank_orders(a, b);
}

/// The larger and the smaller of two numbers are these two numbers; beside a NaN the other one is
/// taken.
pub proof fn law_larger_and_smaller(a: Double, b: Double)
    ensures
        a.larger(b) == a || a.larger(b) == b,
        a.smaller(b) == a || a.smaller(b) == b,
        !a.nan() && !b.nan() ==> {
            &&& a.larger(b).value() >= a.value()
            &&& a.larger(b).value() >= b.value()
            &&& a.smaller(b).value() <= a.value()
            &&& a.smaller(b).value() <= b.value()
        },
        a.nan() ==> a.larger(b) == b && a.smaller(b) == b,
        b.nan() && !a.nan() ==> a.larger(b) == a && a.smaller(b) == a,
{
}

/// Negation turns the sign and nothing else, and the absolute value takes it away.
pub proof fn law_signs(a: Double)
    ensures
        a.negated().negative() != a.negative(),
        a.negated().pattern() == a.pattern(),
        a.negated().value() == -a.value(),
        !a.absolute().negative(),
        a.absolute().pattern() == a.pattern(),
        a.absolute().value() == if a.value() < 0 {
            -a.value()
        } else {
            a.value()
        },
{
    lemma_magnitude_ordered(a.pattern(), 0);
}

/// No pattern is nearer to a value than the one that it rounds to, and of two that are equally near
/// it is the even one.
pub proof fn law_nearest(num: int, den: int, q: int)
    requires
        num >= 0,
        den > 0,
        0 <= q <= INFINITE,
    ensures
        ({
            let p = nearest(num, den);
            let mine = apart(magnitude(p) * den, num);
            let other = apart(magnitude(q) * den, num);
            &&& 0 <= p <= INFINITE
            &&& mine <= other
            &&& mine == other && p != q ==> p % 2 == 0
        }),
{
    lemma_nearest_exists(num, den);
    let p = nearest(num, den);
    let m = magnitude(p);
    let o = magnitude(q);
    lemma_magnitude_ordered(p, q);
    if q < p {
        let z = magnitude(p - 1);
        lemma_magnitude_ordered(q, p - 1);
        lemma_magnitude_ordered(p - 1, p);
        assert((z + m) * den == z * den + m * den) by (nonlinear_arith);
        assert(o * den <= z * den && z * den < m * den) by (nonlinear_arith)
            requires
                o <= z < m,
                den > 0,
        ;
        if q < p - 1 {
            assert(o * den < z * den) by (nonlinear_arith)
                requires
                    o < z,
                    den > 0,
            ;
        }
    } else if p < q {
        let z = magnitude(p + 1);
        lemma_magnitude_ordered(p + 1, q);
        lemma_magnitude_ordered(p, p + 1);
        assert((m + z) * den == m * den + z * den) by (nonlinear_arith);
        assert(z * den <= o * den && m * den < z * den) by (nonlinear_arith)
            requires
                m < z <= o,
                den > 0,
        ;
        if p + 1 < q {
            assert(z * den < o * den) by (nonlinear_arith)
                requires
                    z < o,
                    den > 0,
            ;
        }
    }
}

/// A sum is the number nearest to the sum of the values, of two equally near ones the even one. A
/// sum of zero is negative where both terms are.
pub proof fn law_sum_is_nearest(a: Double, b: Double, c: Double)
    requires
        a.finite(),
        b.finite(),
        !c.nan(),
    ensures
        ({
            let r = a.plus(b);
            let sum = a.value() + b.value();
            &&& !r.nan()
            &&& apart(r.value(), sum) <= apart(c.value(), sum)
            &&& apart(r.value(), sum) == apart(c.value(), sum) && r.value() != c.value()
                ==> r.pattern() % 2 == 0
            &&& sum == 0 ==> r.zero() && (r.negative() <==> a.negative() && b.negative())
            &&& sum != 0 ==> (r.negative() <==> sum < 0)
        }),
{
    let sum = a.value() + b.value();
    let size = if sum < 0 {
        -sum
    } else {
        sum
    };
    law_nearest(size, 1, c.pattern());
    law_nearest(size, 1, 0);
    let p = nearest(size, 1);
    lemma_magnitude_ordered(c.pattern(), 0);
    lemma_magnitude_ordered(p, 0);
    lemma_magnitude_ordered(0, 0);
    lemma_magnitude_ordered(p, c.pattern());
    assert(magnitude(p) * 1 == magnitude(p));
}

/// A difference is the number nearest to the difference of the values.
pub proof fn law_difference_is_nearest(a: Double, b: Double, c: Double)
    requires
        a.finite(),
        b.finite(),
        !c.nan(),
    ensures
        ({
            let r = a.minus(b);
            let difference = a.value() - b.value();
            &&& !r.nan()
            &&& apart(r.value(), difference) <= apart(c.value(), difference)
            &&& apart(r.value(), difference) == apart(c.value(), difference) && r.value()
                != c.value() ==> r.pattern() % 2 == 0
            &&& difference == 0 ==> r.zero()
            &&& difference != 0 ==> (r.negative() <==> difference < 0)
        }),
{
    law_signs(b);
    law_sum_is_nearest(a, b.negated(), c);
}

/// A product is the number nearest to the product of the values, and negative where one factor is.
pub proof fn law_product_is_nearest(a: Double, b: Double, c: Double)
    requires
        a.finite(),
        b.finite(),
        !c.nan(),
    ensures
        ({
            let r = a.times(b);
            let product = a.size() * b.size();
            let mine = apart(r.size() * pow2(1074), product);
            let other = apart(c.size() * pow2(1074), product);
            &&& !r.nan()
            &&& r.negative() <==> a.negative() != b.negative()
            &&& mine <= other
            &&& mine == other && r.pattern() != c.pattern() ==> r.pattern() % 2 == 0
        }),
{
    lemma_pow2_pos(1074);
    lemma_magnitude_ordered(a.pattern(), 0);
    lemma_magnitude_ordered(b.pattern(), 0);
    assert(a.size() * b.size() >= 0) by (nonlinear_arith)
        requires
            a.size() >= 0,
            b.size() >= 0,
    ;
    law_nearest(a.size() * b.size(), pow2(1074) as int, c.pattern());
}

/// A quotient is the number nearest to the quotient of the values, and negative where one term is.
pub proof fn law_quotient_is_nearest(a: Double, b: Double, c: Double)
    requires
        a.finite(),
        b.finite(),
        !b.zero(),
        !c.nan(),
    ensures
        ({
            let r = a.over(b);
            let dividend = a.size() * pow2(1074);
            let mine = apart(r.size() * b.size(), dividend);
            let other = apart(c.size() * b.size(), dividend);
            &&& !r.nan()
            &&& r.negative() <==> a.negative() != b.negative()
            &&& mine <= other
            &&& mine == other && r.pattern() != c.pattern() ==> r.pattern() % 2 == 0
        }),
{
    lemma_pow2_pos(1074);
    lemma_magnitude_ordered(a.pattern(), 0);
    lemma_magnitude_ordered(b.pattern(), 0);
    assert(a.size() * pow2(1074) >= 0) by (nonlinear_arith)
        requires
            a.size() >= 0,
            pow2(1074) > 0,
    ;
    law_nearest(a.size() * pow2(1074), b.size(), c.pattern());
}

/// What is not a number stays none, and infinity is kept, met or undefined as it is in the limit.
pub proof fn law_limits(a: Double, b: Double)
    ensures
        a.nan() || b.nan() ==> a.plus(b).nan() && a.minus(b).nan() && a.times(b).nan() && a.over(
            b,
        ).nan() && a.modulo(b).nan(),
        a.infinite() && b.finite() ==> a.plus(b) == a && b.plus(a) == a && a.minus(b) == a
            && b.minus(a) == a.negated() && a.modulo(b).nan(),
        a.infinite() && b.infinite() && a.negative() == b.negative() ==> a.plus(b) == a && a.minus(
            b,
        ).nan(),
        a.infinite() && b.infinite() && a.negative() != b.negative() ==> a.plus(b).nan() && a.minus(
            b,
        ) == a,
        a.infinite() && b.zero() ==> a.times(b).nan() && b.times(a).nan(),
        a.infinite() && !b.nan() && !b.zero() ==> a.times(b).infinite() && (a.times(b).negative()
            <==> a.negative() != b.negative()),
        a.infinite() && b.infinite() ==> a.over(b).nan(),
        a.infinite() && b.finite() ==> a.over(b).infinite() && (a.over(b).negative()
            <==> a.negative() != b.negative()),
        a.finite() && b.infinite() ==> a.over(b).zero() && a.modulo(b) == a,
        a.finite() && !a.zero() && b.zero() ==> a.over(b).infinite() && (a.over(b).negative()
            <==> a.negative() != b.negative()),
        a.zero() && b.zero() ==> a.over(b).nan(),
        a.finite() && b.zero() ==> a.modulo(b).nan(),
{
    assert(b.negated().negative() != b.negative() && b.negated().pattern() == b.pattern());
    assert(a.negated().negative() != a.negative() && a.negated().pattern() == a.pattern());
}

} // verus!
