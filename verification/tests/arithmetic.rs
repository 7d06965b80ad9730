use anime::double::Double;

fn enc(x: f64) -> Double {
    Double { bits: x.to_bits() }
}

fn dec(d: Double) -> f64 {
    f64::from_bits(d.bits)
}

// The same number, or both not a number.
fn same(a: f64, b: f64) -> bool {
    a.to_bits() == b.to_bits() || (a.is_nan() && b.is_nan())
}

fn special() -> Vec<f64> {
    let positive = vec![
        0.0,
        f64::from_bits(1),
        f64::from_bits(2),
        f64::from_bits(0x000f_ffff_ffff_ffff),
        f64::MIN_POSITIVE,
        f64::from_bits(0x0010_0000_0000_0001),
        1e-300,
        0.1,
        0.5,
        1.0,
        f64::from_bits(0x3ff0_0000_0000_0001),
        f64::from_bits(0x3fef_ffff_ffff_ffff),
        1.5,
        2.0,
        3.0,
        45.0,
        180.0,
        270.0,
        9007199254740991.0,
        9007199254740992.0,
        9007199254740993.0,
        1e300,
        f64::MAX,
        f64::INFINITY,
        f64::NAN,
    ];
    let mut all = positive.clone();
    for x in positive {
        all.push(-x);
    }
    all
}

fn check(a: f64, b: f64) {
    let (x, y) = (enc(a), enc(b));
    assert!(same(dec(x.add(y)), a + b), "{} + {}", a, b);
    assert!(same(dec(x.sub(y)), a - b), "{} - {}", a, b);
    assert!(same(dec(x.mul(y)), a * b), "{} * {}", a, b);
    assert!(same(dec(x.div(y)), a / b), "{} / {}", a, b);
    assert!(same(dec(x.rem(y)), a % b), "{} % {}", a, b);
    assert_eq!(x.lt(y), a < b);
    assert_eq!(x.le(y), a <= b);
    assert_eq!(dec(x.max(y)).is_nan(), a.max(b).is_nan());
    assert_eq!(dec(x.min(y)).is_nan(), a.min(b).is_nan());
    if !a.max(b).is_nan() {
        assert_eq!(dec(x.max(y)), a.max(b));
        assert_eq!(dec(x.min(y)), a.min(b));
    }
    assert!(same(dec(x.abs()), a.abs()));
    assert!(same(dec(x.neg()), -a));
    assert_eq!(x.is_nan(), a.is_nan());
    assert_eq!(x.is_infinite(), a.is_infinite());
}

#[test]
fn special_numbers() {
    for a in special() {
        for b in special() {
            check(a, b);
        }
    }
}

#[test]
fn arbitrary_encodings() {
    let mut state: u64 = 88172645463325252;
    let mut next = move || {
        state ^= state << 13;
        state ^= state >> 7;
        state ^= state << 17;
        state
    };
    for _ in 0..6000 {
        check(f64::from_bits(next()), f64::from_bits(next()));
    }
}

#[test]
fn numbers_of_similar_size() {
    let mut state: u64 = 2463534242;
    let mut next = move || {
        state ^= state << 13;
        state ^= state >> 7;
        state ^= state << 17;
        state
    };
    for _ in 0..6000 {
        let exponent = 1023 + next() % 140 - 70;
        let a = f64::from_bits((next() % 2) << 63 | 1000 << 52 | next() >> 12);
        let b = f64::from_bits((next() % 2) << 63 | exponent << 52 | next() >> 12);
        check(a, b);
        check(b, a);
    }
}

#[test]
fn subnormal_results() {
    let mut state: u64 = 362436069;
    let mut next = move || {
        state ^= state << 13;
        state ^= state >> 7;
        state ^= state << 17;
        state
    };
    for _ in 0..4000 {
        let a = f64::from_bits((next() % 600) << 52 | next() >> 12);
        let b = f64::from_bits((400 + next() % 250) << 52 | next() >> 12);
        check(a, b);
        let c = f64::from_bits(next() % (1 << 54));
        let d = f64::from_bits(next() % (1 << 54));
        check(c, d);
    }
}

#[test]
fn halfway_sums_go_to_the_even_neighbour() {
    assert_eq!(dec(enc(9007199254740992.0).add(enc(1.0))), 9007199254740992.0);
    assert_eq!(dec(enc(9007199254740994.0).add(enc(1.0))), 9007199254740996.0);
    assert_eq!(dec(enc(f64::MAX).add(enc(1e291))), f64::MAX);
    assert_eq!(dec(enc(f64::MAX).add(enc(1e292))), f64::INFINITY);
}

#[test]
fn order_keys_order_numbers() {
    let mut numbers: Vec<f64> = special().into_iter().filter(|x| !x.is_nan()).collect();
    numbers.sort_by(|a, b| a.partial_cmp(b).unwrap());
    for pair in numbers.windows(2) {
        let (a, b) = (enc(pair[0]).order_key(), enc(pair[1]).order_key());
        assert!(a <= b);
        assert_eq!(a == b, pair[0] == pair[1]);
    }
    assert_eq!(enc(-0.0).order_key(), 0);
}

#[test]
fn laws_on_numbers() {
    for a in special() {
        for b in special() {
            let (x, y) = (enc(a), enc(b));
            assert_eq!(x.add(y), y.add(x));
            assert_eq!(x.mul(y), y.mul(x));
            assert_eq!(x.sub(y).abs(), y.sub(x).abs());
        }
        if a.is_finite() {
            assert_eq!(enc(a).sub(enc(a)), enc(0.0));
            if a != 0.0 {
                assert_eq!(enc(a).div(enc(a)), enc(1.0));
            }
        }
    }
}

#[test]
fn sums_stay_on_their_side_of_a_double() {
    // 0.1 + 0.2 lies between two doubles, and its rounding is one of them.
    let sum = enc(0.1).add(enc(0.2));
    assert_eq!(dec(sum), 0.30000000000000004);
    let below = Double { bits: sum.bits - 1 };
    assert_eq!(dec(below), 0.3);
    assert!(below.le(sum));
    assert!(!sum.lt(below));
    // Of a sum that is far below the last digit nothing is left.
    assert_eq!(enc(1.0).add(enc(1e-30)), enc(1.0));
    assert_eq!(enc(1.0).sub(enc(1e-30)), enc(1.0));
}

#[test]
fn remainders_are_exact_and_smaller() {
    let turned = enc(-89.4).add(enc(180.0));
    let rest = turned.rem(enc(180.0));
    assert_eq!(rest, turned);
    assert_eq!(dec(enc(269.25).rem(enc(180.0))), 89.25);
    assert_eq!(dec(enc(-269.25).rem(enc(180.0))), -89.25);
    assert_eq!(dec(enc(1e300).rem(enc(180.0))), 1e300 % 180.0);
    assert!(enc(1e300).rem(enc(180.0)).lt(enc(180.0)));
}
