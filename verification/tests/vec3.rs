use rtrcrs::{Scalar, Vec3};

fn s(x: f64) -> Scalar {
    Scalar::from_bits(x.to_bits())
}

fn f(x: Scalar) -> f64 {
    f64::from_bits(x.to_bits())
}

fn v(x: f64, y: f64, z: f64) -> Vec3 {
    Vec3::new(s(x), s(y), s(z))
}

fn t(a: Vec3) -> (f64, f64, f64) {
    (f(a.x), f(a.y), f(a.z))
}

#[test]
fn components() {
    let a = v(1.0, -2.0, 3.5);
    assert_eq!((f(a.x()), f(a.y()), f(a.z())), (1.0, -2.0, 3.5));
    assert_eq!(t(a), (1.0, -2.0, 3.5));
}

#[test]
fn vector_arithmetic() {
    let a = v(1.0, 2.0, 3.0);
    let b = v(-4.0, 0.5, 6.0);
    assert_eq!(t(a + b), (-3.0, 2.5, 9.0));
    assert_eq!(t(a - b), (5.0, 1.5, -3.0));
    assert_eq!(t(-a), (-1.0, -2.0, -3.0));
    assert_eq!(t(a * s(2.0)), (2.0, 4.0, 6.0));
    assert_eq!(t(s(2.0) * a), (2.0, 4.0, 6.0));
    assert_eq!(t(a * b), (-4.0, 1.0, 18.0));
    assert_eq!(t(a / s(4.0)), (0.25, 0.5, 0.75));
    assert_eq!(t(a / b), (-0.25, 4.0, 0.5));
}

#[test]
fn dot_and_cross() {
    let a = v(1.0, 2.0, 3.0);
    let b = v(-4.0, 0.5, 6.0);
    assert_eq!(f(a.dot(b)), 15.0);
    assert_eq!(t(a.cross(b)), (10.5, -18.0, 8.5));
    assert_eq!(t(v(1.0, 0.0, 0.0).cross(v(0.0, 1.0, 0.0))), (0.0, 0.0, 1.0));
    // summed from left to right
    let c = v(0.1, 0.2, 0.3);
    let d = v(0.7, 0.11, 1e-3);
    assert_eq!(f(c.dot(d)).to_bits(), (0.1 * 0.7 + 0.2 * 0.11 + 0.3 * 1e-3f64).to_bits());
}

#[test]
fn lengths() {
    let a = v(2.0, 3.0, 6.0);
    assert_eq!(f(a.length_squared()), 49.0);
    assert_eq!(f(a.length()), 7.0);
    let b = v(2.0, 3.0, 5.0);
    assert_eq!(f(b.length()).to_bits(), 38.0f64.sqrt().to_bits());
    assert_eq!(f(b.length()), 6.164414002968976);
}

#[test]
fn unit_vectors() {
    let u = Vec3::unit_vector(v(0.0, -3.0, 4.0));
    assert_eq!(t(u), (-0.0, -0.6, 0.8));
    let b = Vec3::unit_vector(v(2.0, 3.0, 5.0));
    let len = 38.0f64.sqrt();
    assert_eq!(f(b.x).to_bits(), (2.0 / len).to_bits());
    assert_eq!(f(b.y).to_bits(), (3.0 / len).to_bits());
    assert_eq!(f(b.z).to_bits(), (5.0 / len).to_bits());
    assert_eq!(f(b.y), 0.48666426339228763);
    // no unit vector of the zero vector
    let z = Vec3::unit_vector(v(0.0, 0.0, 0.0));
    assert!(f(z.x).is_nan() && f(z.y).is_nan() && f(z.z).is_nan());
}

#[test]
fn reflection() {
    let r = v(1.0, -1.0, 0.0).reflect(v(0.0, 1.0, 0.0));
    assert_eq!(t(r), (1.0, 1.0, 0.0));
    let q = v(3.0, -4.0, 2.0).reflect(v(0.0, 0.0, 1.0));
    assert_eq!(t(q), (3.0, -4.0, -2.0));
}

#[test]
fn vectors_compare_by_value() {
    assert_eq!(v(0.0, 1.0, 2.0), v(-0.0, 1.0, 2.0));
    assert!(v(0.0, 1.0, 2.0) != v(0.0, 1.0, 3.0));
    assert!(v(f64::NAN, 1.0, 2.0) != v(f64::NAN, 1.0, 2.0));
}
