use rtrcrs::color::{anti_aliased, anti_aliased_over, channel_limit, Color};
use rtrcrs::Scalar;

fn s(x: f64) -> Scalar {
    Scalar::from_bits(x.to_bits())
}

fn f(x: Scalar) -> f64 {
    f64::from_bits(x.to_bits())
}

#[test]
fn anti_aliasing_test() {
    let c = Color::new(s(0.9), s(0.2), s(0.1));
    let aac = anti_aliased(c, 2);

    assert_eq!(
        aac,
        Color::new(s(0.6708203932499369), s(0.31622776601683794), s(0.22360679774997896))
    );
}

#[test]
fn anti_aliasing_is_exact_to_the_bit() {
    let aac = anti_aliased(Color::new(s(0.9), s(0.2), s(0.1)), 2);
    assert_eq!(aac.x.to_bits(), 0.6708203932499369f64.to_bits());
    assert_eq!(aac.y.to_bits(), 0.31622776601683794f64.to_bits());
    assert_eq!(aac.z.to_bits(), 0.22360679774997896f64.to_bits());
}

#[test]
fn anti_aliasing_follows_the_formula() {
    let sums = [0.0, 0.25, 1.0, 3.0, 17.5, 99.0, 100.0, 250.0, 1e-300, 1e300];
    let counts = [1, 2, 3, 7, 10, 100, 1000];
    for &sum in sums.iter() {
        for &n in counts.iter() {
            let got = anti_aliased(Color::new(s(sum), s(sum * 0.5), s(sum * 3.0)), n);
            let want = |v: f64| (v / n as f64).sqrt().max(0.0).min(0.999);
            assert_eq!(f(got.x).to_bits(), want(sum).to_bits());
            assert_eq!(f(got.y).to_bits(), want(sum * 0.5).to_bits());
            assert_eq!(f(got.z).to_bits(), want(sum * 3.0).to_bits());
        }
    }
}

#[test]
fn anti_aliasing_holds_channels_in_range() {
    let odd = [
        f64::NAN,
        -1.0,
        -0.5,
        f64::INFINITY,
        f64::NEG_INFINITY,
        1e300,
        4.0,
        0.998001,
        0.0,
    ];
    for &v in odd.iter() {
        for &n in [1, 4, 100].iter() {
            let got = anti_aliased(Color::new(s(v), s(v), s(v)), n);
            for c in [f(got.x), f(got.y), f(got.z)] {
                assert!(!c.is_nan());
                assert!(c >= 0.0);
                assert!(c <= 0.999);
            }
        }
    }
    // what is not a number, and what is negative, becomes 0
    assert_eq!(f(anti_aliased(Color::new(s(f64::NAN), s(-4.0), s(4.0)), 1).x), 0.0);
    assert_eq!(f(anti_aliased(Color::new(s(f64::NAN), s(-4.0), s(4.0)), 1).y), 0.0);
    assert_eq!(f(anti_aliased(Color::new(s(f64::NAN), s(-4.0), s(4.0)), 1).z), 0.999);
}

#[test]
fn anti_aliasing_with_no_samples() {
    // a positive sum over zero samples is infinite, and held at the limit;
    // zero over zero is not a number, and becomes 0
    let got = anti_aliased(Color::new(s(1.0), s(0.0), s(-1.0)), 0);
    assert_eq!(f(got.x), 0.999);
    assert_eq!(f(got.y), 0.0);
    assert_eq!(f(got.z), 0.0);
}

#[test]
fn channel_limit_is_the_decimal() {
    assert_eq!(f(channel_limit()), 0.999);
}

#[test]
fn anti_aliasing_over_any_number_of_samples() {
    let c = Color::new(s(0.9), s(0.2), s(0.1));
    assert_eq!(anti_aliased_over(c, 2), anti_aliased(c, 2));
    let big = Color::new(s(1e9), s(3e9), s(2.5e9));
    let got = anti_aliased_over(big, 4_000_000_000);
    assert_eq!(f(got.x).to_bits(), (1e9f64 / 4e9).sqrt().to_bits());
    assert_eq!(f(got.y).to_bits(), (3e9f64 / 4e9).sqrt().to_bits());
    assert_eq!(f(got.z).to_bits(), (2.5e9f64 / 4e9).sqrt().to_bits());
}
