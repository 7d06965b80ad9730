//! Rounding to the nearest double, ties to even.
//!
//! A double without its sign is its *pattern*: the lower 63 bits of its encoding, read as an
//! integer. Patterns are ordered as the values they encode, and neighbouring patterns encode
//! neighbouring doubles. All values are measured in units of 2^-1074, the smallest positive
//! double, so that every one of them is an integer.
use vstd::arithmetic::power2::{
    lemma_pow2_adds, lemma_pow2_pos, lemma_pow2_strictly_increases, lemma_pow2_unfold, pow2,
};
use vstd::prelude::*;

verus! {

/// The weight of the implicit leading bit, and the distance between two exponents: 2^52.
pub const FRACTION: u64 = 0x0010_0000_0000_0000;

/// The pattern of infinity. Patterns above it are not numbers.
pub const INFINITE: u64 = 0x7ff0_0000_0000_0000;

/// The value that pattern `p` encodes, in units of 2^-1074. The pattern of infinity stands for
/// 2^1024, the value that the next binade would begin with.
pub open spec fn magnitude(p: int) -> int {
    if p < FRACTION {
        p
    } else {
        (FRACTION + p % (FRACTION as int)) * pow2((p / (FRACTION as int) - 1) as nat)
    }
}

/// `num / den` (in units of 2^-1074) rounds to pattern `p`: it lies between the midpoints to the
/// two neighbours of `p`, and on such a midpoint only where `p` is even.
pub open spec fn rounds_to(p: int, num: int, den: int) -> bool {
    &&& 0 <= p <= INFINITE
    &&& p > 0 ==> {
        let low = (magnitude(p - 1) + magnitude(p)) * den;
        low < 2 * num || (low == 2 * num && p % 2 == 0)
    }
    &&& p < INFINITE ==> {
        let high = (magnitude(p) + magnitude(p + 1)) * den;
        2 * num < high || (2 * num == high && p % 2 == 0)
    }
}

/// The pattern that `num / den` rounds to.
pub open spec fn nearest(num: int, den: int) -> int {
    choose|p: int| rounds_to(p, num, den)
}

/// A pattern is an exponent step and a significand: `q` units of 2^`e`.
pub proof fn lemma_magnitude_shape(e: int, q: int)
    requires
        e >= 0,
        (e == 0 && 0 <= q <= 2 * FRACTION) || FRACTION <= q <= 2 * FRACTION,
    ensures
        magnitude(e * FRACTION + q) == q * pow2(e as nat),
{
    let p = e * FRACTION + q;
    if q < FRACTION {
        vstd::arithmetic::power2::lemma2_to64();
        assert(q * pow2(0) == q) by (nonlinear_arith)
            requires
                pow2(0) == 1,
        ;
    } else if q < 2 * FRACTION {
        assert(p / (FRACTION as int) == e + 1);
        assert(p % (FRACTION as int) == q - FRACTION);
    } else {
        assert(p / (FRACTION as int) == e + 2);
        assert(p % (FRACTION as int) == 0);
        lemma_pow2_unfold((e + 1) as nat);
        let t = pow2(e as nat) as int;
        assert(FRACTION * (2 * t) == (2 * FRACTION) * t) by (nonlinear_arith);
    }
}

/// The exponent step of a pattern.
pub open spec fn step(p: int) -> int {
    if p < FRACTION {
        0
    } else {
        p / (FRACTION as int) - 1
    }
}

/// The significand of a pattern.
pub open spec fn significand(p: int) -> int {
    p - step(p) * FRACTION
}

pub proof fn lemma_magnitude_parts(p: int)
    requires
        p >= 0,
    ensures
        step(p) >= 0,
        0 <= significand(p) < 2 * FRACTION,
        step(p) > 0 ==> significand(p) >= FRACTION,
        magnitude(p) == significand(p) * pow2(step(p) as nat),
        magnitude(p + 1) == (significand(p) + 1) * pow2(step(p) as nat),
        magnitude(p) >= 0,
        magnitude(p) < magnitude(p + 1),
{
    let e = step(p);
    let q = significand(p);
    lemma_magnitude_shape(e, q);
    lemma_magnitude_shape(e, q + 1);
    lemma_pow2_pos(e as nat);
    let t = pow2(e as nat) as int;
    assert(q * t < (q + 1) * t) by (nonlinear_arith)
        requires
            t > 0,
    ;
    assert(q * t >= 0) by (nonlinear_arith)
        requires
            t > 0,
            q >= 0,
    ;
}

/// Patterns are ordered as the values they encode.
pub proof fn lemma_magnitude_increases(p: int, r: int)
    requires
        0 <= p < r,
    ensures
        magnitude(p) < magnitude(r),
    decreases r - p,
{
    lemma_magnitude_parts(p);
    if p + 1 < r {
        lemma_magnitude_increases(p + 1, r);
    }
}

pub proof fn lemma_magnitude_ordered(p: int, r: int)
    requires
        0 <= p,
        0 <= r,
    ensures
        p < r <==> magnitude(p) < magnitude(r),
        p == r <==> magnitude(p) == magnitude(r),
        magnitude(p) >= 0,
        magnitude(p) == 0 <==> p == 0,
{
    if p < r {
        lemma_magnitude_increases(p, r);
    } else if r < p {
        lemma_magnitude_increases(r, p);
    }
    lemma_magnitude_parts(p);
    assert(magnitude(0) == 0);
    if p > 0 {
        lemma_magnitude_increases(0, p);
    }
}

/// A value between two neighbours rounds to the nearer one, and halfway to the even one.
proof fn lemma_round_between(p: int, num: int, den: int)
    requires
        0 <= p < INFINITE,
        den > 0,
        magnitude(p) * den <= num,
        num < magnitude(p + 1) * den,
    ensures
        ({
            let mid = (magnitude(p) + magnitude(p + 1)) * den;
            &&& 2 * num < mid || (2 * num == mid && p % 2 == 0) ==> rounds_to(p, num, den)
            &&& mid < 2 * num || (2 * num == mid && p % 2 == 1) ==> rounds_to(p + 1, num, den)
        }),
{
    let a = magnitude(p);
    let b = magnitude(p + 1);
    if p > 0 {
        lemma_magnitude_increases(p - 1, p);
        let z = magnitude(p - 1);
        assert((z + a) * den < 2 * (a * den)) by (nonlinear_arith)
            requires
                z < a,
                den > 0,
        ;
    }
    lemma_magnitude_increases(p + 1, p + 2);
    let c = magnitude(p + 2);
    assert(2 * (b * den) < (b + c) * den) by (nonlinear_arith)
        requires
            b < c,
            den > 0,
    ;
}

/// At most one pattern is the rounding of a value.
pub proof fn lemma_rounds_to_unique(p: int, r: int, num: int, den: int)
    requires
        den > 0,
        rounds_to(p, num, den),
        rounds_to(r, num, den),
    ensures
        p == r,
{
    if p < r {
        lemma_rounds_to_ordered(p, r, num, den);
    } else if r < p {
        lemma_rounds_to_ordered(r, p, num, den);
    }
}

proof fn lemma_rounds_to_ordered(p: int, r: int, num: int, den: int)
    requires
        den > 0,
        rounds_to(p, num, den),
        p < r,
    ensures
        !rounds_to(r, num, den),
{
    let high = magnitude(p) + magnitude(p + 1);
    let low = magnitude(r - 1) + magnitude(r);
    if p + 1 < r {
        lemma_magnitude_increases(p, r - 1);
        lemma_magnitude_increases(p + 1, r);
        assert(high * den < low * den) by (nonlinear_arith)
            requires
                high < low,
                den > 0,
        ;
    }
}

/// A value that is found to round to `p` has `p` as its nearest pattern.
pub proof fn lemma_nearest_is(p: int, num: int, den: int)
    requires
        den > 0,
        rounds_to(p, num, den),
    ensures
        nearest(num, den) == p,
{
    lemma_rounds_to_unique(p, nearest(num, den), num, den);
}

proof fn lemma_nearest_from(p: int, num: int, den: int)
    requires
        den > 0,
        num >= 0,
        0 <= p <= INFINITE,
        p < INFINITE ==> num < magnitude(p + 1) * den,
    ensures
        rounds_to(nearest(num, den), num, den),
    decreases p,
{
    lemma_magnitude_parts(p);
    if magnitude(p) * den <= num {
        if p == INFINITE {
            lemma_magnitude_increases(p - 1, p);
            let z = magnitude(p - 1);
            let a = magnitude(p);
            assert((z + a) * den < 2 * (a * den)) by (nonlinear_arith)
                requires
                    z < a,
                    den > 0,
            ;
            lemma_nearest_is(p, num, den);
        } else {
            lemma_round_between(p, num, den);
            if rounds_to(p, num, den) {
                lemma_nearest_is(p, num, den);
            } else {
                lemma_nearest_is(p + 1, num, den);
            }
        }
    } else {
        if p == 0 {
            assert(magnitude(0) * den == 0) by (nonlinear_arith)
                requires
                    magnitude(0) == 0,
            ;
        }
        lemma_nearest_from(p - 1, num, den);
    }
}

/// Every value rounds to some pattern.
pub proof fn lemma_nearest_exists(num: int, den: int)
    requires
        den > 0,
        num >= 0,
    ensures
        rounds_to(nearest(num, den), num, den),
        0 <= nearest(num, den) <= INFINITE,
{
    lemma_nearest_from(INFINITE as int, num, den);
}

/// A representable value rounds to itself.
pub proof fn lemma_nearest_exact(p: int, den: int)
    requires
        0 <= p <= INFINITE,
        den > 0,
    ensures
        nearest(magnitude(p) * den, den) == p,
{
    let a = magnitude(p);
    if p > 0 {
        lemma_magnitude_increases(p - 1, p);
        let z = magnitude(p - 1);
        assert((z + a) * den < 2 * (a * den)) by (nonlinear_arith)
            requires
                z < a,
                den > 0,
        ;
    }
    lemma_magnitude_increases(p, p + 1);
    let b = magnitude(p + 1);
    assert(2 * (a * den) < (a + b) * den) by (nonlinear_arith)
        requires
            a < b,
            den > 0,
    ;
    lemma_nearest_is(p, a * den, den);
}

/// A larger value does not round to a smaller double.
pub proof fn lemma_rounding_monotonic(num1: int, num2: int, den: int)
    requires
        0 <= num1 <= num2,
        den > 0,
    ensures
        nearest(num1, den) <= nearest(num2, den),
{
    lemma_nearest_exists(num1, den);
    lemma_nearest_exists(num2, den);
    let p = nearest(num1, den);
    let r = nearest(num2, den);
    if r < p {
        let high = magnitude(r) + magnitude(r + 1);
        let low = magnitude(p - 1) + magnitude(p);
        if r + 1 < p {
            lemma_magnitude_increases(r, p - 1);
            lemma_magnitude_increases(r + 1, p);
            assert(high * den < low * den) by (nonlinear_arith)
                requires
                    high < low,
                    den > 0,
            ;
        }
    }
}

/// 2^`s` as an integer.
pub(crate) fn power_of_two(s: u32) -> (r: u128)
    requires
        s < 128,
    ensures
        r == pow2(s as nat),
{
    let mut r: u128 = 1;
    let mut i: u32 = 0;
    proof {
        lemma_pow2_127();
    }
    while i < s
        invariant
            i <= s < 128,
            r == pow2(i as nat),
            pow2(127) == 0x8000_0000_0000_0000_0000_0000_0000_0000,
        decreases s - i,
    {
        proof {
            lemma_pow2_unfold((i + 1) as nat);
            if i + 1 < 127 {
                lemma_pow2_strictly_increases((i + 1) as nat, 127);
            }
        }
        r = 2 * r;
        i = i + 1;
    }
    r
}

proof fn lemma_pow2_127()
    ensures
        pow2(0) == 1,
        pow2(52) == FRACTION,
        pow2(53) == 2 * FRACTION,
        pow2(127) == 0x8000_0000_0000_0000_0000_0000_0000_0000,
{
    vstd::arithmetic::power2::lemma2_to64();
    vstd::arithmetic::power2::lemma2_to64_rest();
    lemma_pow2_adds(63, 64);
    assert(0x8000_0000_0000_0000 * 0x1_0000_0000_0000_0000
        == 0x8000_0000_0000_0000_0000_0000_0000_0000) by (nonlinear_arith);
}

/// The number of binary digits of `n`.
pub(crate) fn bit_length(n: u128) -> (l: u32)
    requires
        0 < n < pow2(127),
    ensures
        1 <= l <= 127,
        pow2((l - 1) as nat) <= n < pow2(l as nat),
{
    let mut l: u32 = 1;
    let mut bound: u128 = 2;
    proof {
        lemma_pow2_127();
        vstd::arithmetic::power2::lemma2_to64();
    }
    while bound <= n
        invariant
            1 <= l <= 127,
            bound == pow2(l as nat),
            pow2((l - 1) as nat) <= n < pow2(127),
            pow2(127) == 0x8000_0000_0000_0000_0000_0000_0000_0000,
        decreases 127 - l,
    {
        proof {
            if l >= 127 {
                assert(l == 127);
            }
            lemma_pow2_unfold((l + 1) as nat);
            if l + 1 < 127 {
                lemma_pow2_strictly_increases((l + 1) as nat, 127);
            }
        }
        bound = 2 * bound;
        l = l + 1;
    }
    l
}

/// 2^`k` is the fraction of these two integers.
pub open spec fn scale_num(k: int) -> int {
    pow2((if k > 0 { k } else { 0 }) as nat) as int
}

pub open spec fn scale_den(k: int) -> int {
    pow2((if k < 0 { -k } else { 0 }) as nat) as int
}

/// `n` units of 2^`k` are `num / den`, exactly or, where `inexact`, without its last part of less
/// than one unit.
pub open spec fn approximates(n: int, k: int, inexact: bool, num: int, den: int) -> bool {
    let unit = scale_num(k) * den;
    let value = num * scale_den(k);
    &&& n * unit <= value
    &&& value < (n + 1) * unit
    &&& inexact <==> n * unit != value
}

/// 2^`a` over 2^`b` is 2^`k`.
pub proof fn lemma_scale_ratio(a: nat, b: nat, k: int)
    requires
        a - b == k,
    ensures
        pow2(a) * scale_den(k) == pow2(b) * scale_num(k),
        scale_num(k) > 0,
        scale_den(k) > 0,
{
    vstd::arithmetic::power2::lemma2_to64();
    lemma_pow2_pos((if k > 0 { k } else { 0 }) as nat);
    lemma_pow2_pos((if k < 0 { -k } else { 0 }) as nat);
    vstd::arithmetic::mul::lemma_mul_basics(pow2(a) as int);
    vstd::arithmetic::mul::lemma_mul_basics(pow2(b) as int);
    if k >= 0 {
        lemma_pow2_adds(b, k as nat);
    } else {
        lemma_pow2_adds(a, (-k) as nat);
    }
}

/// Moving `drop` digits out of the significand moves the exponent by as many steps.
proof fn lemma_scale_shift(k: int, drop: int)
    requires
        k + drop >= 0,
    ensures
        drop >= 0 ==> pow2((k + drop) as nat) * scale_den(k) == pow2(drop as nat) * scale_num(k),
        drop < 0 ==> pow2((k + drop) as nat) * pow2((-drop) as nat) == scale_num(k)
            && scale_den(k) == 1,
        scale_num(k) > 0,
        scale_den(k) > 0,
{
    vstd::arithmetic::power2::lemma2_to64();
    if drop >= 0 {
        lemma_scale_ratio((k + drop) as nat, drop as nat, k);
    } else {
        lemma_pow2_pos(k as nat);
        lemma_pow2_adds((k + drop) as nat, (-drop) as nat);
    }
}

/// Comparing with `value` at the scale of `n` is comparing with `num / den`.
proof fn lemma_compare_scaled(c: int, t: int, ud: int, su: int, num: int, den: int)
    requires
        ud > 0,
        t * ud == su,
    ensures
        c * (su * den) < num * ud <==> c * t * den < num,
        c * (su * den) == num * ud <==> c * t * den == num,
{
    assert(c * (su * den) == (c * t * den) * ud) by (nonlinear_arith)
        requires
            t * ud == su,
    ;
    let x = c * t * den;
    assert((x < num <==> x * ud < num * ud) && (x == num <==> x * ud == num * ud))
        by (nonlinear_arith)
        requires
            ud > 0,
    ;
}

/// Rounding drops `drop` digits and looks at what they were.
proof fn lemma_round_at(
    n: int,
    k: int,
    drop: int,
    q: int,
    rest: int,
    inexact: bool,
    num: int,
    den: int,
)
    requires
        drop > 0,
        0 <= k + drop <= 2045,
        n == q * pow2(drop as nat) + rest,
        0 <= rest < pow2(drop as nat),
        0 <= q < 2 * FRACTION,
        k + drop == 0 || q >= FRACTION,
        den > 0,
        approximates(n, k, inexact, num, den),
    ensures
        ({
            let base = (k + drop) * FRACTION + q;
            let half = pow2(drop as nat) as int / 2;
            let up = rest > half || (rest == half && (inexact || q % 2 == 1));
            &&& up ==> rounds_to(base + 1, num, den)
            &&& !up ==> rounds_to(base, num, den)
        }),
{
    let e = k + drop;
    let base = e * FRACTION + q;
    let scale = pow2(drop as nat) as int;
    let half = scale / 2;
    let t = pow2(e as nat) as int;
    let un = scale_num(k);
    let ud = scale_den(k);
    let unit = un * den;
    let value = num * ud;
    lemma_pow2_unfold(drop as nat);
    assert(scale == 2 * half);
    lemma_scale_shift(k, drop);
    lemma_magnitude_shape(e, q);
    lemma_magnitude_shape(e, q + 1);
    let m0 = magnitude(base);
    let m1 = magnitude(base + 1);
    assert(m0 == q * t && m1 == (q + 1) * t);
    assert(unit > 0) by (nonlinear_arith)
        requires
            un > 0,
            den > 0,
            unit == un * den,
    ;
    let su = scale * un;
    let whole = scale * unit;
    assert(su * den == whole) by (nonlinear_arith)
        requires
            su == scale * un,
            whole == scale * unit,
            unit == un * den,
    ;
    let halfway = half * unit;
    assert(whole == 2 * halfway) by (nonlinear_arith)
        requires
            scale == 2 * half,
            whole == scale * unit,
            halfway == half * unit,
    ;
    // `n` units are `q` whole steps and `rest` units.
    assert(n * unit == q * whole + rest * unit) by (nonlinear_arith)
        requires
            n == q * scale + rest,
            whole == scale * unit,
    ;
    assert((n + 1) * unit == n * unit + unit) by (nonlinear_arith);
    assert((q + 1) * whole == q * whole + whole) by (nonlinear_arith);
    assert((2 * q + 1) * whole == 2 * (q * whole) + whole) by (nonlinear_arith);
    let r = rest * unit;
    assert(0 <= r <= whole - unit) by (nonlinear_arith)
        requires
            r == rest * unit,
            whole == scale * unit,
            0 <= rest <= scale - 1,
            unit > 0,
    ;
    lemma_compare_scaled(q, t, ud, su, num, den);
    lemma_compare_scaled(q + 1, t, ud, su, num, den);
    lemma_compare_scaled(2 * q + 1, t, ud, su, 2 * num, den);
    assert((2 * num) * ud == 2 * value) by (nonlinear_arith)
        requires
            value == num * ud,
    ;
    assert((m0 + m1) * den == (2 * q + 1) * t * den) by (nonlinear_arith)
        requires
            m0 == q * t,
            m1 == (q + 1) * t,
    ;
    lemma_round_between(base, num, den);
    assert(base % 2 == q % 2);
    if rest > half {
        assert(r >= halfway + unit) by (nonlinear_arith)
            requires
                r == rest * unit,
                halfway == half * unit,
                rest >= half + 1,
                unit > 0,
        ;
    } else if rest < half {
        assert(r + unit <= halfway) by (nonlinear_arith)
            requires
                r == rest * unit,
                halfway == half * unit,
                rest + 1 <= half,
                unit > 0,
        ;
    }
}

/// A value of 2^1024 or more rounds to infinity.
proof fn lemma_round_overflow(n: int, k: int, drop: int, inexact: bool, num: int, den: int)
    requires
        k + drop > 2045,
        drop >= 0 ==> n >= FRACTION * pow2(drop as nat),
        drop < 0 ==> n * pow2((-drop) as nat) >= FRACTION,
        den > 0,
        approximates(n, k, inexact, num, den),
    ensures
        rounds_to(INFINITE as int, num, den),
{
    let e = k + drop;
    let t = pow2(e as nat) as int;
    let un = scale_num(k);
    let ud = scale_den(k);
    let unit = un * den;
    let value = num * ud;
    let f = FRACTION as int;
    lemma_scale_shift(k, drop);
    lemma_pow2_pos(e as nat);
    assert(f * t * den <= num) by {
        if drop >= 0 {
            let scale = pow2(drop as nat) as int;
            let su = scale * un;
            lemma_compare_scaled(f, t, ud, su, num, den);
            assert(f * (su * den) <= n * unit) by (nonlinear_arith)
                requires
                    su == scale * un,
                    unit == un * den,
                    n >= f * scale,
                    un > 0,
                    den > 0,
            ;
        } else {
            let s = pow2((-drop) as nat) as int;
            assert(ud == 1 && t * s == un);
            vstd::arithmetic::mul::lemma_mul_basics(num);
            assert(f * t * den <= n * unit) by (nonlinear_arith)
                requires
                    unit == un * den,
                    t * s == un,
                    n * s >= f,
                    t > 0,
                    den > 0,
            ;
        }
    }
    assert(INFINITE == 2046 * FRACTION + FRACTION);
    lemma_magnitude_shape(2046, f);
    let top = pow2(2046) as int;
    if e > 2046 {
        lemma_pow2_strictly_increases(2046, e as nat);
    }
    let a = magnitude(INFINITE as int);
    assert(a * den <= f * t * den) by (nonlinear_arith)
        requires
            a == f * top,
            top <= t,
            den > 0,
            f > 0,
    ;
    lemma_magnitude_increases(INFINITE - 1, INFINITE as int);
    let z = magnitude(INFINITE - 1);
    assert((z + a) * den < 2 * (a * den)) by (nonlinear_arith)
        requires
            z < a,
            den > 0,
    ;
}

/// A value below half of the smallest double rounds to zero.
proof fn lemma_round_vanishing(n: int, k: int, inexact: bool, num: int, den: int)
    requires
        k <= -128,
        0 <= n < pow2(127),
        den > 0,
        approximates(n, k, inexact, num, den),
    ensures
        rounds_to(0, num, den),
{
    let ud = scale_den(k);
    vstd::arithmetic::power2::lemma2_to64();
    assert(scale_num(k) == 1);
    lemma_pow2_unfold(128);
    if k < -128 {
        lemma_pow2_strictly_increases(128, (-k) as nat);
    }
    assert(ud >= 2 * pow2(127));
    assert(2 * num < den) by (nonlinear_arith)
        requires
            num * ud < (n + 1) * (1 * den),
            n + 1 <= pow2(127),
            ud >= 2 * pow2(127),
            den > 0,
    ;
    assert(magnitude(0) == 0 && magnitude(1) == 1);
    assert((magnitude(0) + magnitude(1)) * den == den) by (nonlinear_arith)
        requires
            magnitude(0) + magnitude(1) == 1,
    ;
}

/// A value whose digits all fit is its own rounding.
proof fn lemma_round_exact(n: int, k: int, t: int, num: int, den: int)
    requires
        0 <= t <= k,
        0 <= n * pow2(t as nat) < 2 * FRACTION,
        k - t == 0 || n * pow2(t as nat) >= FRACTION,
        k - t <= 2045,
        den > 0,
        approximates(n, k, false, num, den),
    ensures
        ({
            let p = (k - t) * FRACTION + n * pow2(t as nat);
            &&& rounds_to(p, num, den)
            &&& 0 <= p < INFINITE
        }),
{
    let e = k - t;
    let q = n * pow2(t as nat);
    let p = e * FRACTION + q;
    vstd::arithmetic::power2::lemma2_to64();
    lemma_pow2_adds(e as nat, t as nat);
    lemma_magnitude_shape(e, q);
    let pe = pow2(e as nat) as int;
    let pt = pow2(t as nat) as int;
    assert(scale_den(k) == 1);
    assert(scale_num(k) == pe * pt);
    assert(num == (q * pe) * den) by (nonlinear_arith)
        requires
            q == n * pt,
            n * ((pe * pt) * den) == num * 1,
    ;
    lemma_nearest_exact(p, den);
    lemma_nearest_exists(num, den);
}

/// The pattern of the double nearest to `n` units of 2^`k`, and a part of a unit where `inexact`.
pub(crate) fn round(
    n: u128,
    k: i32,
    inexact: bool,
    Ghost(num): Ghost<int>,
    Ghost(den): Ghost<int>,
) -> (p: u64)
    requires
        0 < n < pow2(127),
        -10000 <= k <= 10000,
        inexact ==> n >= pow2(53),
        num >= 0,
        den > 0,
        approximates(n as int, k as int, inexact, num, den),
    ensures
        p <= INFINITE,
        p == nearest(num, den),
{
    let l = bit_length(n) as i32;
    let drop: i32 = if l - 53 >= -k {
        l - 53
    } else {
        -k
    };
    let e: i32 = k + drop;
    proof {
        lemma_pow2_127();
        if l < 53 {
            lemma_pow2_strictly_increases(l as nat, 53);
        }
        lemma_significand(n as int, l as int, drop as int);
    }
    if e > 2045 {
        proof {
            lemma_round_overflow(n as int, k as int, drop as int, inexact, num, den);
            lemma_nearest_is(INFINITE as int, num, den);
        }
        return INFINITE;
    }
    if drop >= 128 {
        proof {
            lemma_round_vanishing(n as int, k as int, inexact, num, den);
            lemma_nearest_is(0, num, den);
        }
        return 0;
    }
    if drop <= 0 {
        let scale = power_of_two((-drop) as u32);
        let q = n * scale;
        proof {
            lemma_round_exact(n as int, k as int, -drop as int, num, den);
            lemma_nearest_is(e * FRACTION + q, num, den);
        }
        return e as u64 * FRACTION + q as u64;
    }
    let scale = power_of_two(drop as u32);
    proof {
        lemma_pow2_pos(drop as nat);
    }
    let q = n / scale;
    let rest = n % scale;
    let half = scale / 2;
    proof {
        vstd::arithmetic::div_mod::lemma_fundamental_div_mod(n as int, scale as int);
        assert(n == q * scale + rest) by (nonlinear_arith)
            requires
                n == scale * q + rest,
        ;
        lemma_round_at(
            n as int,
            k as int,
            drop as int,
            q as int,
            rest as int,
            inexact,
            num,
            den,
        );
    }
    let base = e as u64 * FRACTION + q as u64;
    if rest > half || (rest == half && (inexact || q % 2 == 1)) {
        proof {
            lemma_nearest_is(base + 1, num, den);
        }
        base + 1
    } else {
        proof {
            lemma_nearest_is(base as int, num, den);
        }
        base
    }
}

/// What is left of a number of `l` digits when it is cut or filled up to 53 of them, or cut
/// further.
proof fn lemma_significand(n: int, l: int, drop: int)
    requires
        1 <= l <= 127,
        pow2((l - 1) as nat) <= n < pow2(l as nat),
        drop >= l - 53,
    ensures
        drop <= 0 ==> 0 <= n * pow2((-drop) as nat) < 2 * FRACTION,
        drop <= 0 && drop == l - 53 ==> n * pow2((-drop) as nat) >= FRACTION,
        drop >= 0 ==> 0 <= n / (pow2(drop as nat) as int) < 2 * FRACTION,
        drop >= 0 && drop == l - 53 ==> n >= FRACTION * pow2(drop as nat) && n / (pow2(
            drop as nat,
        ) as int) >= FRACTION,
{
    lemma_pow2_127();
    if drop <= 0 {
        let t = -drop;
        let s = pow2(t as nat) as int;
        lemma_pow2_pos(t as nat);
        lemma_pow2_adds(l as nat, t as nat);
        if l + t < 53 {
            lemma_pow2_strictly_increases((l + t) as nat, 53);
        }
        let upper = pow2(l as nat) as int;
        assert(0 <= n * s < upper * s) by (nonlinear_arith)
            requires
                0 <= n < upper,
                s > 0,
        ;
        if drop == l - 53 {
            lemma_pow2_adds((l - 1) as nat, t as nat);
            let lower = pow2((l - 1) as nat) as int;
            assert(lower * s <= n * s) by (nonlinear_arith)
                requires
                    lower <= n,
                    s > 0,
            ;
        }
    }
    if drop >= 0 {
        let s = pow2(drop as nat) as int;
        lemma_pow2_pos(drop as nat);
        lemma_pow2_adds(53, drop as nat);
        if l < 53 + drop {
            lemma_pow2_strictly_increases(l as nat, (53 + drop) as nat);
        }
        let q = n / s;
        vstd::arithmetic::div_mod::lemma_fundamental_div_mod(n, s);
        assert(0 <= q < 2 * FRACTION) by (nonlinear_arith)
            requires
                n == s * q + n % s,
                0 <= n % s < s,
                0 <= n < (2 * FRACTION) * s,
                s > 0,
        ;
        if drop == l - 53 {
            lemma_pow2_adds(52, drop as nat);
            assert(q >= FRACTION) by (nonlinear_arith)
                requires
                    n == s * q + n % s,
                    0 <= n % s < s,
                    FRACTION * s <= n,
                    s > 0,
            ;
        }
    }
}

} // verus!
