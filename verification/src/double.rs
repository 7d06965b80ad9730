//! IEEE 754 double precision numbers, held as their bit patterns.
//!
//! The arithmetic is correctly rounded, to the nearest double and halfway to the even one, so it
//! gives what the processor's instructions give; where the result is not a number it is always
//! the same quiet NaN.
use crate::rounding::{
    approximates, bit_length, lemma_magnitude_ordered, lemma_magnitude_parts, lemma_nearest_exact,
    lemma_scale_ratio, magnitude, nearest, power_of_two, round, scale_den, scale_num, significand,
    step, FRACTION, INFINITE,
};
use vstd::arithmetic::power2::{
    lemma_pow2_adds, lemma_pow2_pos, lemma_pow2_strictly_increases, pow2,
};
use vstd::prelude::*;

verus! {

/// The sign bit.
pub const SIGN: u64 = 0x8000_0000_0000_0000;

/// The encoding of the NaN that arithmetic returns.
pub const QUIET_NAN: u64 = 0x7ff8_0000_0000_0000;

/// A double precision number.
#[derive(Clone, Copy, Debug, PartialEq, Eq, Structural)]
pub struct Double {
    /// The IEEE 754 binary64 encoding.
    pub bits: u64,
}

impl Double {
    /// The sign bit is set.
    pub open spec fn negative(self) -> bool {
        self.bits >= SIGN
    }

    /// The encoding without its sign bit.
    pub open spec fn pattern(self) -> int {
        if self.bits >= SIGN {
            self.bits - SIGN
        } else {
            self.bits as int
        }
    }

    pub open spec fn nan(self) -> bool {
        self.pattern() > INFINITE
    }

    pub open spec fn infinite(self) -> bool {
        self.pattern() == INFINITE
    }

    pub open spec fn finite(self) -> bool {
        self.pattern() < INFINITE
    }

    pub open spec fn zero(self) -> bool {
        self.pattern() == 0
    }

    /// The absolute value, in units of 2^-1074. Infinity counts as 2^1024, above every finite
    /// double.
    pub open spec fn size(self) -> int {
        magnitude(self.pattern())
    }

    /// The value, in units of 2^-1074.
    pub open spec fn value(self) -> int {
        if self.negative() {
            -self.size()
        } else {
            self.size()
        }
    }

    /// The double with the given sign and pattern.
    pub open spec fn signed(negative: bool, pattern: int) -> Double {
        Double {
            bits: (if negative {
                pattern + SIGN
            } else {
                pattern
            }) as u64,
        }
    }

    pub open spec fn quiet_nan() -> Double {
        Double { bits: QUIET_NAN }
    }

    /// An integer that orders all numbers as their values do; both zeros have 0.
    pub open spec fn rank(self) -> int {
        if self.negative() {
            -self.pattern()
        } else {
            self.pattern()
        }
    }

    /// `self < other`
    pub open spec fn below(self, other: Double) -> bool {
        !self.nan() && !other.nan() && self.value() < other.value()
    }

    /// `self <= other`
    pub open spec fn at_most(self, other: Double) -> bool {
        !self.nan() && !other.nan() && self.value() <= other.value()
    }

    /// `-self`
    pub open spec fn negated(self) -> Double {
        Double::signed(!self.negative(), self.pattern())
    }

    /// `|self|`
    pub open spec fn absolute(self) -> Double {
        Double::signed(false, self.pattern())
    }

    /// The larger of two numbers, or the one that is a number.
    pub open spec fn larger(self, other: Double) -> Double {
        if self.nan() || self.below(other) {
            other
        } else {
            self
        }
    }

    /// The smaller of two numbers, or the one that is a number.
    pub open spec fn smaller(self, other: Double) -> Double {
        if self.nan() || other.below(self) {
            other
        } else {
            self
        }
    }

    /// `self + other`
    pub open spec fn plus(self, other: Double) -> Double {
        if self.nan() || other.nan() {
            Double::quiet_nan()
        } else if self.infinite() {
            if other.infinite() && self.negative() != other.negative() {
                Double::quiet_nan()
            } else {
                self
            }
        } else if other.infinite() {
            other
        } else {
            let sum = self.value() + other.value();
            if sum == 0 {
                Double::signed(self.negative() && other.negative(), 0)
            } else {
                Double::signed(sum < 0, nearest(if sum < 0 { -sum } else { sum }, 1))
            }
        }
    }

    /// `self - other`
    pub open spec fn minus(self, other: Double) -> Double {
        self.plus(other.negated())
    }

    /// `self * other`
    pub open spec fn times(self, other: Double) -> Double {
        let negative = self.negative() != other.negative();
        if self.nan() || other.nan() {
            Double::quiet_nan()
        } else if self.infinite() || other.infinite() {
            if self.zero() || other.zero() {
                Double::quiet_nan()
            } else {
                Double::signed(negative, INFINITE as int)
            }
        } else {
            Double::signed(negative, nearest(self.size() * other.size(), pow2(1074) as int))
        }
    }

    /// `self / other`
    pub open spec fn over(self, other: Double) -> Double {
        let negative = self.negative() != other.negative();
        if self.nan() || other.nan() {
            Double::quiet_nan()
        } else if self.infinite() {
            if other.infinite() {
                Double::quiet_nan()
            } else {
                Double::signed(negative, INFINITE as int)
            }
        } else if other.infinite() {
            Double::signed(negative, 0)
        } else if other.zero() {
            if self.zero() {
                Double::quiet_nan()
            } else {
                Double::signed(negative, INFINITE as int)
            }
        } else {
            Double::signed(negative, nearest(self.size() * pow2(1074), other.size()))
        }
    }

    /// `self % other`: what is left of `self` when `other` is taken from it as often as its size
    /// allows, with the sign of `self`.
    pub open spec fn modulo(self, other: Double) -> Double {
        if self.nan() || other.nan() || self.infinite() || other.zero() {
            Double::quiet_nan()
        } else if other.infinite() {
            self
        } else {
            Double::signed(self.negative(), nearest(self.size() % other.size(), 1))
        }
    }

    /// The double that the encoding `bits` stands for.
    pub fn from_bits(bits: u64) -> (d: Double)
        ensures
            d.bits == bits,
    {
        Double { bits }
    }

    fn split(self) -> (parts: (bool, u64))
        ensures
            parts.0 == self.negative(),
            parts.1 == self.pattern(),
    {
        if self.bits >= SIGN {
            (true, self.bits - SIGN)
        } else {
            (false, self.bits)
        }
    }

    fn join(negative: bool, pattern: u64) -> (d: Double)
        requires
            pattern <= INFINITE,
        ensures
            d == Double::signed(negative, pattern as int),
            d.negative() == negative,
            d.pattern() == pattern,
    {
        if negative {
            Double { bits: pattern + SIGN }
        } else {
            Double { bits: pattern }
        }
    }

    /// The value is not a number.
    pub fn is_nan(self) -> (b: bool)
        ensures
            b == self.nan(),
    {
        self.split().1 > INFINITE
    }

    /// The value is infinity or negative infinity.
    pub fn is_infinite(self) -> (b: bool)
        ensures
            b == self.infinite(),
    {
        self.split().1 == INFINITE
    }

    /// The value is neither infinite nor NaN.
    pub fn is_finite(self) -> (b: bool)
        ensures
            b == self.finite(),
    {
        self.split().1 < INFINITE
    }

    /// The sign bit is set.
    pub fn is_negative(self) -> (b: bool)
        ensures
            b == self.negative(),
    {
        self.split().0
    }

    /// The value is zero, with either sign.
    pub fn is_zero(self) -> (b: bool)
        ensures
            b == self.zero(),
    {
        self.split().1 == 0
    }

    /// The integer that stands for this number where numbers are only ordered.
    pub fn order_key(self) -> (k: i64)
        ensures
            k == self.rank(),
    {
        let (negative, pattern) = self.split();
        if negative {
            -(pattern as i64)
        } else {
            pattern as i64
        }
    }

    /// `self < other`; false where one of them is not a number.
    pub fn lt(self, other: Double) -> (b: bool)
        ensures
            b == self.below(other),
    {
        proof {
            lemma_rank_orders(self, other);
        }
        !self.is_nan() && !other.is_nan() && self.order_key() < other.order_key()
    }

    /// `self <= other`; false where one of them is not a number.
    pub fn le(self, other: Double) -> (b: bool)
        ensures
            b == self.at_most(other),
    {
        proof {
            lemma_rank_orders(self, other);
        }
        !self.is_nan() && !other.is_nan() && self.order_key() <= other.order_key()
    }

    /// The larger of the two.
    pub fn max(self, other: Double) -> (d: Double)
        ensures
            d == self.larger(other),
    {
        if self.is_nan() || self.lt(other) {
            other
        } else {
            self
        }
    }

    /// The smaller of the two.
    pub fn min(self, other: Double) -> (d: Double)
        ensures
            d == self.smaller(other),
    {
        if self.is_nan() || other.lt(self) {
            other
        } else {
            self
        }
    }

    /// The absolute value.
    pub fn abs(self) -> (d: Double)
        ensures
            d == self.absolute(),
    {
        Double { bits: self.split().1 }
    }

    /// `-self`
    pub fn neg(self) -> (d: Double)
        ensures
            d == self.negated(),
    {
        let (negative, pattern) = self.split();
        if negative {
            Double { bits: pattern }
        } else {
            Double { bits: pattern + SIGN }
        }
    }

    /// `self + other`
    pub fn add(self, other: Double) -> (d: Double)
        ensures
            d == self.plus(other),
    {
        let (n1, p1) = self.split();
        let (n2, p2) = other.split();
        if p1 > INFINITE || p2 > INFINITE {
            return Double { bits: QUIET_NAN };
        }
        if p1 == INFINITE {
            if p2 == INFINITE && n1 != n2 {
                return Double { bits: QUIET_NAN };
            }
            return self;
        }
        if p2 == INFINITE {
            return other;
        }
        proof {
            lemma_magnitude_ordered(p1 as int, p2 as int);
            lemma_magnitude_ordered(p2 as int, p1 as int);
        }
        if n1 == n2 {
            if p1 == 0 && p2 == 0 {
                return self;
            }
            let p = if p1 >= p2 {
                combine(p1, p2, false)
            } else {
                combine(p2, p1, false)
            };
            Double::join(n1, p)
        } else if p1 == p2 {
            Double { bits: 0 }
        } else if p1 > p2 {
            Double::join(n1, combine(p1, p2, true))
        } else {
            Double::join(n2, combine(p2, p1, true))
        }
    }

    /// `self - other`
    pub fn sub(self, other: Double) -> (d: Double)
        ensures
            d == self.minus(other),
    {
        self.add(other.neg())
    }

    /// `self * other`
    pub fn mul(self, other: Double) -> (d: Double)
        ensures
            d == self.times(other),
    {
        let (n1, p1) = self.split();
        let (n2, p2) = other.split();
        let negative = n1 != n2;
        if p1 > INFINITE || p2 > INFINITE {
            return Double { bits: QUIET_NAN };
        }
        if p1 == INFINITE || p2 == INFINITE {
            if p1 == 0 || p2 == 0 {
                return Double { bits: QUIET_NAN };
            }
            return Double::join(negative, INFINITE);
        }
        Double::join(negative, product(p1, p2))
    }

    /// `self / other`
    pub fn div(self, other: Double) -> (d: Double)
        ensures
            d == self.over(other),
    {
        let (n1, p1) = self.split();
        let (n2, p2) = other.split();
        let negative = n1 != n2;
        if p1 > INFINITE || p2 > INFINITE {
            return Double { bits: QUIET_NAN };
        }
        if p1 == INFINITE {
            if p2 == INFINITE {
                return Double { bits: QUIET_NAN };
            }
            return Double::join(negative, INFINITE);
        }
        if p2 == INFINITE {
            return Double::join(negative, 0);
        }
        if p2 == 0 {
            if p1 == 0 {
                return Double { bits: QUIET_NAN };
            }
            return Double::join(negative, INFINITE);
        }
        Double::join(negative, quotient(p1, p2))
    }

    /// `self % other`
    pub fn rem(self, other: Double) -> (d: Double)
        ensures
            d == self.modulo(other),
    {
        let (n1, p1) = self.split();
        let (_, p2) = other.split();
        if p1 > INFINITE || p2 > INFINITE || p1 == INFINITE || p2 == 0 {
            return Double { bits: QUIET_NAN };
        }
        if p2 == INFINITE {
            return self;
        }
        Double::join(n1, remainder(p1, p2))
    }
}

/// Ranks order the numbers as their values do.
pub proof fn lemma_rank_orders(a: Double, b: Double)
    ensures
        a.rank() < b.rank() <==> a.value() < b.value(),
        a.rank() == b.rank() <==> a.value() == b.value(),
{
    lemma_magnitude_ordered(a.pattern(), b.pattern());
    lemma_magnitude_ordered(b.pattern(), a.pattern());
}

/// The exponent step and the significand of a pattern.
fn parts(p: u64) -> (r: (i32, u64))
    requires
        p < INFINITE,
    ensures
        r.0 == step(p as int),
        r.1 == significand(p as int),
        0 <= r.0 <= 2045,
        r.1 < 2 * FRACTION,
        r.0 > 0 ==> r.1 >= FRACTION,
        p > 0 ==> r.1 > 0,
        magnitude(p as int) == r.1 * pow2(r.0 as nat),
{
    proof {
        lemma_magnitude_parts(p as int);
    }
    if p < FRACTION {
        (0, p)
    } else {
        let e = p / FRACTION - 1;
        (e as i32, p - e * FRACTION)
    }
}

proof fn lemma_small_powers()
    ensures
        pow2(0) == 1,
        pow2(12) == 4096,
        pow2(53) == 2 * FRACTION,
        pow2(64) == 0x1_0000_0000_0000_0000,
        pow2(127) == 0x8000_0000_0000_0000_0000_0000_0000_0000,
{
    vstd::arithmetic::power2::lemma2_to64();
    vstd::arithmetic::power2::lemma2_to64_rest();
    lemma_pow2_adds(63, 64);
    assert(0x8000_0000_0000_0000 * 0x1_0000_0000_0000_0000
        == 0x8000_0000_0000_0000_0000_0000_0000_0000) by (nonlinear_arith);
}

/// The sum of two sizes, or their difference, rounded.
fn combine(p: u64, r: u64, subtract: bool) -> (s: u64)
    requires
        r <= p < INFINITE,
        p > 0,
        subtract ==> r < p,
    ensures
        s <= INFINITE,
        s == nearest(
            if subtract {
                magnitude(p as int) - magnitude(r as int)
            } else {
                magnitude(p as int) + magnitude(r as int)
            },
            1,
        ),
{
    let (ep, qp) = parts(p);
    let (er, qr) = parts(r);
    let ghost mp = magnitude(p as int);
    let ghost mr = magnitude(r as int);
    let ghost num = if subtract {
        mp - mr
    } else {
        mp + mr
    };
    proof {
        lemma_small_powers();
        lemma_magnitude_ordered(p as int, r as int);
        lemma_magnitude_ordered(r as int, p as int);
    }
    let d = ep - er;
    if d <= 64 {
        let scale = power_of_two(d as u32);
        proof {
            if d < 64 {
                lemma_pow2_strictly_increases(d as nat, 64);
            }
            lemma_pow2_pos(d as nat);
            lemma_combine_near(qp as int, qr as int, ep as int, er as int, subtract, num);
            assert(qp * scale <= (2 * FRACTION) * 0x1_0000_0000_0000_0000) by (nonlinear_arith)
                requires
                    qp <= 2 * FRACTION,
                    scale <= 0x1_0000_0000_0000_0000,
            ;
        }
        let wide = qp as u128 * scale;
        let n = if subtract {
            wide - qr as u128
        } else {
            wide + qr as u128
        };
        round(n, er, false, Ghost(num), Ghost(1))
    } else {
        let wide = qp as u128 * 4096;
        let inexact = qr != 0;
        let n = if subtract && inexact {
            wide - 1
        } else {
            wide
        };
        proof {
            lemma_combine_far(qp as int, qr as int, ep as int, er as int, subtract, num);
        }
        round(n, ep - 12, inexact, Ghost(num), Ghost(1))
    }
}

/// Two sizes that are not far apart are added without a loss.
proof fn lemma_combine_near(qp: int, qr: int, ep: int, er: int, subtract: bool, num: int)
    requires
        0 <= er <= ep,
        num == (if subtract {
            qp * pow2(ep as nat) - qr * pow2(er as nat)
        } else {
            qp * pow2(ep as nat) + qr * pow2(er as nat)
        }),
        num > 0,
    ensures
        ({
            let wide = qp * pow2((ep - er) as nat);
            let n = if subtract {
                wide - qr
            } else {
                wide + qr
            };
            n > 0 && approximates(n, er, false, num, 1)
        }),
{
    let wide = qp * pow2((ep - er) as nat);
    let n = if subtract {
        wide - qr
    } else {
        wide + qr
    };
    let t = pow2(er as nat) as int;
    let s = pow2((ep - er) as nat) as int;
    vstd::arithmetic::power2::lemma2_to64();
    lemma_pow2_pos(er as nat);
    lemma_pow2_adds((ep - er) as nat, er as nat);
    assert(scale_num(er) == t && scale_den(er) == 1);
    assert(num == n * t) by (nonlinear_arith)
        requires
            wide == qp * s,
            n == (if subtract {
                wide - qr
            } else {
                wide + qr
            }),
            num == (if subtract {
                qp * (s * t) - qr * t
            } else {
                qp * (s * t) + qr * t
            }),
    ;
    assert(n > 0) by (nonlinear_arith)
        requires
            num == n * t,
            num > 0,
            t > 0,
    ;
    assert((n + 1) * (t * 1) == n * t + t && n * (t * 1) == n * t && num * 1 == num)
        by (nonlinear_arith);
}

/// Of two sizes that are far apart, the smaller is less than one unit.
proof fn lemma_combine_far(qp: int, qr: int, ep: int, er: int, subtract: bool, num: int)
    requires
        0 <= er,
        ep - er > 64,
        0 <= qr < 2 * FRACTION,
        num == (if subtract {
            qp * pow2(ep as nat) - qr * pow2(er as nat)
        } else {
            qp * pow2(ep as nat) + qr * pow2(er as nat)
        }),
    ensures
        ({
            let n = if subtract && qr != 0 {
                qp * 4096 - 1
            } else {
                qp * 4096
            };
            approximates(n, ep - 12, qr != 0, num, 1)
        }),
{
    let k = ep - 12;
    let unit = pow2(k as nat) as int;
    let small = qr * pow2(er as nat);
    let n = if subtract && qr != 0 {
        qp * 4096 - 1
    } else {
        qp * 4096
    };
    lemma_small_powers();
    lemma_pow2_pos(er as nat);
    lemma_pow2_adds(k as nat, 12);
    lemma_pow2_adds(53, er as nat);
    if 53 + er < k {
        lemma_pow2_strictly_increases((53 + er) as nat, k as nat);
    }
    assert(scale_num(k) == unit && scale_den(k) == 1);
    let t = pow2(er as nat) as int;
    assert(0 <= small < unit && (qr != 0 ==> small > 0)) by (nonlinear_arith)
        requires
            small == qr * t,
            0 <= qr < 2 * FRACTION,
            t > 0,
            (2 * FRACTION) * t <= unit,
    ;
    if qr == 0 {
        assert(small == 0) by (nonlinear_arith)
            requires
                small == qr * t,
                qr == 0,
        ;
    }
    let big = qp * (unit * 4096);
    assert(big == (qp * 4096) * unit) by (nonlinear_arith)
        requires
            big == qp * (unit * 4096),
    ;
    assert(n * (unit * 1) == n * unit && (n + 1) * (unit * 1) == n * unit + unit && num * 1
        == num) by (nonlinear_arith);
    assert((qp * 4096 - 1) * unit == (qp * 4096) * unit - unit) by (nonlinear_arith);
}

/// The product of two sizes, rounded.
fn product(p: u64, r: u64) -> (s: u64)
    requires
        p < INFINITE,
        r < INFINITE,
    ensures
        s <= INFINITE,
        s == nearest(magnitude(p as int) * magnitude(r as int), pow2(1074) as int),
{
    let (ep, qp) = parts(p);
    let (er, qr) = parts(r);
    let ghost mp = magnitude(p as int);
    let ghost mr = magnitude(r as int);
    let ghost den = pow2(1074) as int;
    proof {
        lemma_pow2_pos(1074);
        lemma_small_powers();
    }
    if p == 0 || r == 0 {
        proof {
            lemma_nearest_exact(0, den);
            assert(mp * mr == 0 && magnitude(0) * den == 0) by (nonlinear_arith)
                requires
                    mp == 0 || mr == 0,
                    magnitude(0) == 0,
            ;
        }
        return 0;
    }
    proof {
        assert(0 < qp * qr <= (2 * FRACTION) * (2 * FRACTION)) by (nonlinear_arith)
            requires
                0 < qp <= 2 * FRACTION,
                0 < qr <= 2 * FRACTION,
        ;
        assert((2 * FRACTION) * (2 * FRACTION) < 0x8000_0000_0000_0000_0000_0000_0000_0000)
            by (nonlinear_arith);
        lemma_product(qp as int, qr as int, ep as int, er as int);
    }
    round(qp as u128 * qr as u128, ep + er - 1074, false, Ghost(mp * mr), Ghost(den))
}

proof fn lemma_product(qp: int, qr: int, ep: int, er: int)
    requires
        qp > 0,
        qr > 0,
        ep >= 0,
        er >= 0,
    ensures
        ({
            let num = (qp * pow2(ep as nat)) * (qr * pow2(er as nat));
            &&& num >= 0
            &&& approximates(qp * qr, ep + er - 1074, false, num, pow2(1074) as int)
        }),
{
    let n = qp * qr;
    let k = ep + er - 1074;
    let a = pow2(ep as nat) as int;
    let b = pow2(er as nat) as int;
    let c = pow2((ep + er) as nat) as int;
    let den = pow2(1074) as int;
    let num = (qp * a) * (qr * b);
    let un = scale_num(k);
    let ud = scale_den(k);
    lemma_pow2_adds(ep as nat, er as nat);
    lemma_pow2_pos(1074);
    lemma_pow2_pos((ep + er) as nat);
    lemma_scale_ratio((ep + er) as nat, 1074, k);
    assert(num == n * c) by (nonlinear_arith)
        requires
            num == (qp * a) * (qr * b),
            n == qp * qr,
            c == a * b,
    ;
    assert(num * ud == n * (un * den)) by (nonlinear_arith)
        requires
            num == n * c,
            c * ud == den * un,
    ;
    assert((n + 1) * (un * den) == n * (un * den) + un * den && un * den > 0)
        by (nonlinear_arith)
        requires
            un > 0,
            den > 0,
    ;
    assert(num >= 0) by (nonlinear_arith)
        requires
            num == n * c,
            n == qp * qr,
            qp > 0,
            qr > 0,
            c > 0,
    ;
}

/// The quotient of two sizes, rounded.
fn quotient(p: u64, r: u64) -> (s: u64)
    requires
        p < INFINITE,
        0 < r < INFINITE,
    ensures
        s <= INFINITE,
        s == nearest(magnitude(p as int) * pow2(1074), magnitude(r as int)),
{
    let (ep, qp) = parts(p);
    let (er, qr) = parts(r);
    let ghost mp = magnitude(p as int);
    let ghost mr = magnitude(r as int);
    let ghost num = mp * pow2(1074);
    proof {
        lemma_pow2_pos(1074);
        lemma_small_powers();
        lemma_magnitude_ordered(r as int, 0);
    }
    if p == 0 {
        proof {
            lemma_nearest_exact(0, mr);
            assert(num == 0 && magnitude(0) * mr == 0) by (nonlinear_arith)
                requires
                    num == mp * pow2(1074),
                    mp == 0,
                    magnitude(0) == 0,
            ;
        }
        return 0;
    }
    proof {
        assert(qp < pow2(127));
    }
    let l = bit_length(qp as u128);
    let t = 127 - l;
    let scale = power_of_two(t);
    proof {
        lemma_widened(qp as int, l as int);
    }
    let wide = qp as u128 * scale;
    let n = wide / qr as u128;
    let rest = wide % qr as u128;
    proof {
        lemma_quotient(
            qp as int,
            qr as int,
            ep as int,
            er as int,
            t as int,
            wide as int,
            n as int,
            rest as int,
        );
    }
    round(n, ep - t as i32 - er + 1074, rest != 0, Ghost(num), Ghost(mr))
}

/// A number of `l` digits filled up to 127 digits.
proof fn lemma_widened(q: int, l: int)
    requires
        1 <= l <= 127,
        pow2((l - 1) as nat) <= q < pow2(l as nat),
    ensures
        pow2(126) <= q * pow2((127 - l) as nat) < pow2(127),
{
    let t = 127 - l;
    let s = pow2(t as nat) as int;
    let lower = pow2((l - 1) as nat) as int;
    let upper = pow2(l as nat) as int;
    lemma_pow2_pos(t as nat);
    lemma_pow2_adds((l - 1) as nat, t as nat);
    lemma_pow2_adds(l as nat, t as nat);
    assert(lower * s <= q * s && q * s < upper * s) by (nonlinear_arith)
        requires
            lower <= q,
            q < upper,
            s > 0,
    ;
}

proof fn lemma_quotient(
    qp: int,
    qr: int,
    ep: int,
    er: int,
    t: int,
    wide: int,
    n: int,
    rest: int,
)
    requires
        0 < qp,
        0 < qr < 2 * FRACTION,
        ep >= 0,
        er >= 0,
        0 <= t,
        wide == qp * pow2(t as nat),
        pow2(126) <= wide < pow2(127),
        n == wide / qr,
        rest == wide % qr,
    ensures
        0 < n < pow2(127),
        n >= pow2(53),
        (qp * pow2(ep as nat)) * pow2(1074) >= 0,
        approximates(
            n,
            ep - t - er + 1074,
            rest != 0,
            (qp * pow2(ep as nat)) * pow2(1074),
            qr * pow2(er as nat),
        ),
{
    let k = ep - t - er + 1074;
    let un = scale_num(k);
    let ud = scale_den(k);
    let a = pow2(ep as nat) as int;
    let b = pow2(er as nat) as int;
    let c = pow2(t as nat) as int;
    let d = pow2(1074) as int;
    let top = pow2((ep + 1074) as nat) as int;
    let low = pow2((t + er) as nat) as int;
    let num = (qp * a) * d;
    let den = qr * b;
    lemma_pow2_adds(ep as nat, 1074);
    lemma_pow2_adds(t as nat, er as nat);
    lemma_scale_ratio((ep + 1074) as nat, (t + er) as nat, k);
    lemma_pow2_pos(er as nat);
    lemma_pow2_pos(ep as nat);
    lemma_pow2_pos(1074);
    lemma_small_powers();
    lemma_pow2_adds(73, 53);
    lemma_pow2_strictly_increases(53, 73);
    vstd::arithmetic::div_mod::lemma_fundamental_div_mod(wide, qr);
    assert(n >= pow2(73)) by (nonlinear_arith)
        requires
            wide == qr * n + rest,
            0 <= rest < qr,
            qr <= 2 * FRACTION,
            0 < qr,
            wide >= pow2(73) * (2 * FRACTION),
    ;
    assert(n <= wide) by (nonlinear_arith)
        requires
            wide == qr * n + rest,
            0 <= rest,
            0 < qr,
            n >= 0,
    ;
    let m = b * un;
    assert(m > 0) by (nonlinear_arith)
        requires
            m == b * un,
            b > 0,
            un > 0,
    ;
    // The value at the scale of `n` is `wide` times `m`, and one unit is `qr` times `m`.
    assert(num * ud == wide * m) by (nonlinear_arith)
        requires
            num == (qp * a) * d,
            top == a * d,
            low == c * b,
            top * ud == low * un,
            wide == qp * c,
            m == b * un,
    ;
    let unit = un * den;
    assert(unit == qr * m) by (nonlinear_arith)
        requires
            unit == un * den,
            den == qr * b,
            m == b * un,
    ;
    assert(wide * m == n * unit + rest * m && (n + 1) * unit == n * unit + unit)
        by (nonlinear_arith)
        requires
            wide == qr * n + rest,
            unit == qr * m,
    ;
    assert(0 <= rest * m < unit && (rest != 0 <==> rest * m != 0)) by (nonlinear_arith)
        requires
            0 <= rest < qr,
            unit == qr * m,
            m > 0,
    ;
    assert(num >= 0) by (nonlinear_arith)
        requires
            num == (qp * a) * d,
            qp > 0,
            a > 0,
            d > 0,
    ;
}

/// The remainder of two sizes, which is always representable.
fn remainder(p: u64, r: u64) -> (s: u64)
    requires
        p < INFINITE,
        0 < r < INFINITE,
    ensures
        s <= INFINITE,
        s == nearest(magnitude(p as int) % magnitude(r as int), 1),
{
    let ghost mp = magnitude(p as int);
    let ghost mr = magnitude(r as int);
    proof {
        lemma_small_powers();
        lemma_magnitude_ordered(p as int, r as int);
        lemma_magnitude_ordered(r as int, 0);
    }
    if p < r {
        proof {
            lemma_nearest_exact(p as int, 1);
            assert(mp % mr == mp) by {
                vstd::arithmetic::div_mod::lemma_small_mod(mp as nat, mr as nat);
            }
        }
        return p;
    }
    let (ep, qp) = parts(p);
    let (er, qr) = parts(r);
    let d = ep - er;
    let mut rest: u128 = qp as u128 % qr as u128;
    let mut i: i32 = 0;
    proof {
        assert(qp * pow2(0) == qp) by (nonlinear_arith)
            requires
                pow2(0) == 1,
        ;
    }
    while i < d
        invariant
            0 <= i <= d,
            0 < qr < 2 * FRACTION,
            rest < qr,
            rest == (qp * pow2(i as nat)) % (qr as int),
        decreases d - i,
    {
        proof {
            lemma_double_mod(qp as int, i as nat, qr as int);
        }
        rest = (2 * rest) % qr as u128;
        i = i + 1;
    }
    proof {
        lemma_remainder(qp as int, qr as int, ep as int, er as int);
    }
    if rest == 0 {
        proof {
            lemma_nearest_exact(0, 1);
            assert(0 * pow2(er as nat) == 0) by (nonlinear_arith);
        }
        return 0;
    }
    let ghost num = rest * pow2(er as nat);
    proof {
        lemma_pow2_pos(er as nat);
        assert(num > 0) by (nonlinear_arith)
            requires
                num == rest * pow2(er as nat),
                rest > 0,
                pow2(er as nat) > 0,
        ;
        assert(rest * pow2(0) == rest) by (nonlinear_arith)
            requires
                pow2(0) == 1,
        ;
        assert(num == rest * pow2(er as nat) + 0 * pow2(er as nat)) by (nonlinear_arith)
            requires
                num == rest * pow2(er as nat),
        ;
        lemma_combine_near(rest as int, 0, er as int, er as int, false, num);
    }
    round(rest, er, false, Ghost(num), Ghost(1))
}

proof fn lemma_double_mod(q: int, i: nat, m: int)
    requires
        m > 0,
    ensures
        (q * pow2(i + 1)) % m == (2 * ((q * pow2(i)) % m)) % m,
{
    let x = q * pow2(i);
    vstd::arithmetic::power2::lemma_pow2_unfold(i + 1);
    assert(q * pow2(i + 1) == 2 * x) by (nonlinear_arith)
        requires
            pow2(i + 1) == 2 * pow2(i),
            x == q * pow2(i),
    ;
    vstd::arithmetic::div_mod::lemma_mul_mod_noop_right(2, x, m);
}

/// Scaling both terms of a remainder scales it.
pub proof fn lemma_remainder(qp: int, qr: int, ep: int, er: int)
    requires
        qp >= 0,
        qr > 0,
        0 <= er <= ep,
    ensures
        (qp * pow2(ep as nat)) % (qr * pow2(er as nat)) == ((qp * pow2((ep - er) as nat)) % qr)
            * pow2(er as nat),
{
    let x = qp * pow2((ep - er) as nat);
    let t = pow2(er as nat) as int;
    lemma_pow2_pos(er as nat);
    lemma_pow2_adds((ep - er) as nat, er as nat);
    let s = pow2((ep - er) as nat) as int;
    assert(qp * pow2(ep as nat) == x * t) by (nonlinear_arith)
        requires
            pow2(ep as nat) == s * t,
            x == qp * s,
    ;
    vstd::arithmetic::div_mod::lemma_fundamental_div_mod(x, qr);
    let q = x / qr;
    let rest = x % qr;
    assert(x * t == q * (qr * t) + rest * t && 0 <= rest * t < qr * t) by (nonlinear_arith)
        requires
            x == qr * q + rest,
            0 <= rest < qr,
            t > 0,
    ;
    vstd::arithmetic::div_mod::lemma_fundamental_div_mod_converse(x * t, qr * t, q, rest * t);
}

} // verus!
