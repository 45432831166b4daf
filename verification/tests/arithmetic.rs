use rtrcrs::Scalar;

fn s(x: f64) -> Scalar {
    Scalar::from_bits(x.to_bits())
}

fn f(x: Scalar) -> f64 {
    f64::from_bits(x.to_bits())
}

/// Same number to the bit, or both not a number.
fn same(got: Scalar, want: f64) -> bool {
    let g = f(got);
    if want.is_nan() {
        g.is_nan()
    } else {
        g.to_bits() == want.to_bits()
    }
}

fn samples() -> Vec<f64> {
    let mut out = vec![
        0.0,
        -0.0,
        1.0,
        -1.0,
        0.5,
        2.0,
        3.0,
        0.1,
        0.2,
        0.3,
        0.7,
        0.999,
        1.5,
        4.0,
        9.0,
        10.0,
        100.0,
        255.9,
        1e-8,
        1e8,
        123456789.123,
        -98765.4321,
        1e300,
        -1e300,
        1e-300,
        1e308,
        1.7976931348623157e308,
        -1.7976931348623157e308,
        2.2250738585072014e-308,
        2.225073858507201e-308,
        1e-310,
        5e-324,
        -5e-324,
        1e-320,
        4.9406564584124654e-324,
        9007199254740992.0,
        9007199254740993.0,
        9007199254740991.0,
        0.9999999999999999,
        1.0000000000000002,
        1.3407807929942597e154,
        1.4916681462400413e-154,
        f64::INFINITY,
        f64::NEG_INFINITY,
        f64::NAN,
    ];
    // a fixed stream of bit patterns of every kind
    let mut state: u64 = 0x9E37_79B9_7F4A_7C15;
    for _ in 0..400 {
        state ^= state << 13;
        state ^= state >> 7;
        state ^= state << 17;
        out.push(f64::from_bits(state));
    }
    // and numbers of moderate size, where sums cancel and round
    for i in 0..200 {
        state ^= state << 13;
        state ^= state >> 7;
        state ^= state << 17;
        let mantissa = state & 0x000F_FFFF_FFFF_FFFF;
        let exponent = 1023 - 30 + (i % 60) as u64;
        let sign = (state >> 63) << 63;
        out.push(f64::from_bits(sign | (exponent << 52) | mantissa));
    }
    out
}

#[test]
fn sum_agrees_with_the_machine() {
    let xs = samples();
    for &a in xs.iter() {
        for &b in xs.iter() {
            assert!(same(s(a) + s(b), a + b), "{:e} + {:e}", a, b);
        }
    }
}

#[test]
fn difference_agrees_with_the_machine() {
    let xs = samples();
    for &a in xs.iter() {
        for &b in xs.iter() {
            assert!(same(s(a) - s(b), a - b), "{:e} - {:e}", a, b);
        }
    }
}

#[test]
fn product_agrees_with_the_machine() {
    let xs = samples();
    for &a in xs.iter() {
        for &b in xs.iter() {
            assert!(same(s(a) * s(b), a * b), "{:e} * {:e}", a, b);
        }
    }
}

#[test]
fn quotient_agrees_with_the_machine() {
    let xs = samples();
    for &a in xs.iter() {
        for &b in xs.iter() {
            assert!(same(s(a) / s(b), a / b), "{:e} / {:e}", a, b);
        }
    }
}

#[test]
fn root_agrees_with_the_machine() {
    for &a in samples().iter() {
        assert!(same(s(a).sqrt(), a.sqrt()), "sqrt {:e}", a);
    }
    let mut state: u64 = 0x2545_F491_4F6C_DD1D;
    for _ in 0..20000 {
        state ^= state << 13;
        state ^= state >> 7;
        state ^= state << 17;
        let a = f64::from_bits(state >> 1);
        assert!(same(s(a).sqrt(), a.sqrt()), "sqrt {:e}", a);
    }
}

#[test]
fn negation_turns_the_sign() {
    for &a in samples().iter() {
        assert!(same(-s(a), -a));
        assert!(same(s(a).abs(), a.abs()));
    }
    assert_eq!((-s(0.0)).to_bits(), (-0.0f64).to_bits());
}

#[test]
fn order_agrees_with_the_machine() {
    let xs = samples();
    for &a in xs.iter() {
        for &b in xs.iter() {
            assert_eq!(s(a).lt(s(b)), a < b, "{:e} < {:e}", a, b);
            assert_eq!(s(a).le(s(b)), a <= b, "{:e} <= {:e}", a, b);
            assert_eq!(s(a) == s(b), a == b, "{:e} == {:e}", a, b);
            assert_eq!(s(a) < s(b), a < b);
            assert_eq!(s(a) <= s(b), a <= b);
            assert_eq!(s(a) > s(b), a > b);
            assert_eq!(s(a) >= s(b), a >= b);
            assert_eq!(s(a).partial_cmp(&s(b)), a.partial_cmp(&b));
            assert_eq!(s(a).equals(s(b)), a == b);
        }
    }
}

#[test]
fn larger_and_smaller() {
    let xs = samples();
    for &a in xs.iter() {
        for &b in xs.iter() {
            if a == b && a.to_bits() != b.to_bits() {
                // of the two zeros the first is returned
                assert_eq!(s(a).max(s(b)).to_bits(), a.to_bits());
                assert_eq!(s(a).min(s(b)).to_bits(), a.to_bits());
            } else {
                assert!(same(s(a).max(s(b)), a.max(b)), "max {:e} {:e}", a, b);
                assert!(same(s(a).min(s(b)), a.min(b)), "min {:e} {:e}", a, b);
            }
        }
    }
    assert_eq!(f(s(f64::NAN).max(s(2.0))), 2.0);
    assert_eq!(f(s(2.0).min(s(f64::NAN))), 2.0);
}

#[test]
fn integers_convert_exactly() {
    for &n in [0, 1, -1, 2, 7, 10, 255, 256, 1000, -999, 65536, i32::MAX, i32::MIN, 123456789]
        .iter()
    {
        assert_eq!(f(Scalar::from_i32(n)).to_bits(), (n as f64).to_bits(), "{}", n);
    }
}

#[test]
fn constants() {
    assert_eq!(f(Scalar::zero_value()).to_bits(), 0.0f64.to_bits());
    assert_eq!(f(Scalar::one()), 1.0);
    assert_eq!(f(Scalar::half()), 0.5);
    assert!(f(Scalar::make_nan()).is_nan());
}

#[test]
fn kinds() {
    assert!(s(f64::NAN).is_nan() && !s(1.0).is_nan() && !s(f64::INFINITY).is_nan());
    assert!(s(f64::INFINITY).is_infinite() && s(f64::NEG_INFINITY).is_infinite());
    assert!(!s(1.0).is_infinite() && !s(f64::NAN).is_infinite());
    assert!(s(1.0).is_finite() && s(0.0).is_finite() && s(5e-324).is_finite());
    assert!(!s(f64::INFINITY).is_finite() && !s(f64::NAN).is_finite());
    assert!(s(-0.0).is_sign_negative() && s(-3.0).is_sign_negative());
    assert!(!s(0.0).is_sign_negative());
    assert_eq!(s(-2.5).position(), 2.5f64.to_bits());
}

#[test]
fn ties_go_to_the_even_neighbour() {
    // 2^53 + 1 lies halfway between 2^53 and 2^53 + 2
    let big = 9007199254740992.0;
    assert_eq!(f(s(big) + s(1.0)), big);
    assert_eq!(f(s(big + 2.0) + s(1.0)), big + 4.0);
    // half of the least positive number is a tie between it and zero
    assert_eq!(f(s(5e-324) * s(0.5)), 0.0);
    assert_eq!(f(s(5e-324) / s(2.0)), 0.0);
    assert_eq!(f(s(1.5e-323) * s(0.5)), 1e-323);
}

#[test]
fn overflow_and_underflow() {
    let max = f64::MAX;
    assert!(f(s(max) + s(max)).is_infinite());
    assert!(f(s(max) * s(2.0)).is_infinite());
    assert_eq!(f(s(max) + s(1e291)), max);
    assert!(f(s(max) + s(1e292)).is_infinite());
    assert_eq!(f(s(1e-200) * s(1e-200)), 0.0);
    assert_eq!((s(-1e-200) * s(1e-200)).to_bits(), (-0.0f64).to_bits());
    assert!(f(s(1.0) / s(0.0)).is_infinite());
    assert_eq!(f(s(-1.0) / s(0.0)), f64::NEG_INFINITY);
    assert!(f(s(0.0) / s(0.0)).is_nan());
    assert!(f(s(f64::INFINITY) - s(f64::INFINITY)).is_nan());
    assert!(f(s(f64::INFINITY) * s(0.0)).is_nan());
    assert!(f(s(-1.0).sqrt()).is_nan());
    assert_eq!(s(-0.0).sqrt().to_bits(), (-0.0f64).to_bits());
}

#[test]
fn signs_of_zero_sums() {
    assert_eq!((s(0.0) + s(-0.0)).to_bits(), 0.0f64.to_bits());
    assert_eq!((s(-0.0) + s(-0.0)).to_bits(), (-0.0f64).to_bits());
    assert_eq!((s(1.0) - s(1.0)).to_bits(), 0.0f64.to_bits());
    assert_eq!((s(-1.0) + s(1.0)).to_bits(), 0.0f64.to_bits());
    assert_eq!((s(-0.0) - s(0.0)).to_bits(), (-0.0f64).to_bits());
}

#[test]
fn whole_parts_as_bytes() {
    let cases = [
        (0.0, 0u8),
        (-0.0, 0),
        (0.999, 0),
        (1.0, 1),
        (1.999, 1),
        (2.0, 2),
        (127.5, 127),
        (254.999, 254),
        (255.0, 255),
        (255.9, 255),
        (256.0, 255),
        (1e300, 255),
        (-1.0, 0),
        (-1e300, 0),
        (5e-324, 0),
        (f64::INFINITY, 255),
        (f64::NEG_INFINITY, 0),
        (f64::NAN, 0),
    ];
    for &(x, want) in cases.iter() {
        assert_eq!(s(x).to_u8(), want, "{}", x);
        assert_eq!(s(x).to_u8(), x as u8);
    }
    for &x in samples().iter() {
        assert_eq!(s(x).to_u8(), x as u8, "{:e}", x);
    }
}

#[test]
fn unsigned_integers_and_binary_fractions() {
    for &n in [0u32, 1, 2, 1919, 1079, 65535, u32::MAX].iter() {
        assert_eq!(f(Scalar::from_u32(n)).to_bits(), (n as f64).to_bits());
    }
    assert_eq!(f(Scalar::dyadic(1, 1)), 0.5);
    assert_eq!(f(Scalar::dyadic(3, 2)), 0.75);
    assert_eq!(f(Scalar::dyadic(0, 53)), 0.0);
    assert_eq!(f(Scalar::dyadic(9007199254740991, 53)), 0.9999999999999999);
    assert_eq!(f(Scalar::dyadic(1, 1074)), 5e-324);
    assert_eq!(f(Scalar::dyadic(12345, 0)), 12345.0);
    assert!(f(Scalar::infinity()).is_infinite() && f(Scalar::infinity()) > 0.0);
}

/// A fixed stream of numbers whose exponents lie `spread` apart at most, around
/// the exponent `middle`.
fn close_pairs(seed: u64, count: usize, middle: u64, spread: u64) -> Vec<(f64, f64)> {
    let mut state = seed;
    let mut next = move || {
        state ^= state << 13;
        state ^= state >> 7;
        state ^= state << 17;
        state
    };
    let mut out = Vec::with_capacity(count);
    for _ in 0..count {
        let (x, y, z) = (next(), next(), next());
        let ea = middle + z % (spread + 1);
        let eb = middle + (z >> 20) % (spread + 1);
        let a = f64::from_bits((x & 0x800F_FFFF_FFFF_FFFF) | (ea << 52));
        let b = f64::from_bits((y & 0x800F_FFFF_FFFF_FFFF) | (eb << 52));
        out.push((a, b));
    }
    out
}

#[test]
fn sums_that_cancel_and_carry() {
    for &(middle, spread) in [(1000u64, 3u64), (1, 2), (0, 1), (2040, 6), (500, 70)].iter() {
        for &(a, b) in close_pairs(0xABCD_EF01_2345_6789 ^ middle, 40000, middle, spread).iter() {
            assert!(same(s(a) + s(b), a + b), "{:e} + {:e}", a, b);
            assert!(same(s(a) - s(b), a - b), "{:e} - {:e}", a, b);
        }
    }
}

#[test]
fn products_and_quotients_at_the_ends_of_the_range() {
    // products and quotients that fall among the least numbers, and among the
    // greatest
    for &(ma, mb) in [(1023u64, 1023u64), (520, 1), (1, 1), (1500, 1570), (30, 1040), (2046, 1)].iter() {
        let pairs = close_pairs(0x0F0F_1234_5678_9ABC ^ ma, 40000, 0, 0);
        for &(x, y) in pairs.iter() {
            let a = f64::from_bits((x.to_bits() & 0x800F_FFFF_FFFF_FFFF) | (ma << 52));
            let b = f64::from_bits((y.to_bits() & 0x800F_FFFF_FFFF_FFFF) | (mb << 52));
            assert!(same(s(a) * s(b), a * b), "{:e} * {:e}", a, b);
            assert!(same(s(a) / s(b), a / b), "{:e} / {:e}", a, b);
            assert!(same(s(b) / s(a), b / a), "{:e} / {:e}", b, a);
            assert!(same(s(x) * s(b), x * b), "{:e} * {:e}", x, b);
            assert!(same(s(x) / s(b), x / b), "{:e} / {:e}", x, b);
            assert!(same(s(b) / s(x), b / x), "{:e} / {:e}", b, x);
        }
    }
}

#[test]
fn roots_of_squares_and_their_neighbours() {
    let mut state: u64 = 0x5DEE_CE66_D123_4567;
    for _ in 0..40000 {
        state ^= state << 13;
        state ^= state >> 7;
        state ^= state << 17;
        let r = f64::from_bits((state >> 2) % 0x7FE0_0000_0000_0000);
        let sq = r * r;
        for x in [sq, f64::from_bits(sq.to_bits().wrapping_add(1)), f64::from_bits(sq.to_bits().wrapping_sub(1))] {
            assert!(same(s(x).sqrt(), x.sqrt()), "sqrt {:e}", x);
        }
        let small = f64::from_bits(state >> 12);
        assert!(same(s(small).sqrt(), small.sqrt()), "sqrt {:e}", small);
    }
}

#[test]
fn wide_integers_are_rounded() {
    let signed = [
        0i64,
        1,
        -1,
        9007199254740992,
        9007199254740993,
        -9007199254740993,
        9007199254740995,
        1234567890123456789,
        i64::MAX,
        i64::MIN,
        i64::MIN + 1,
    ];
    for &n in signed.iter() {
        assert_eq!(f(Scalar::from_i64(n)).to_bits(), (n as f64).to_bits(), "{}", n);
    }
    let unsigned = [0u64, 1, 9007199254740993, 18446744073709551615, 18446744073709550591, 1 << 63];
    for &n in unsigned.iter() {
        assert_eq!(f(Scalar::from_u64(n)).to_bits(), (n as f64).to_bits(), "{}", n);
    }
    let mut state: u64 = 0x0123_4567_89AB_CDEF;
    for _ in 0..20000 {
        state ^= state << 13;
        state ^= state >> 7;
        state ^= state << 17;
        assert_eq!(f(Scalar::from_u64(state)).to_bits(), (state as f64).to_bits());
        assert_eq!(f(Scalar::from_i64(state as i64)).to_bits(), (state as i64 as f64).to_bits());
    }
}
