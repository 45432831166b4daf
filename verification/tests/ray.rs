use rtrcrs::ray::{Point3, Ray};
use rtrcrs::{Color, Scalar, Vec3};

fn s(x: f64) -> Scalar {
    Scalar::from_bits(x.to_bits())
}

fn f(x: Scalar) -> f64 {
    f64::from_bits(x.to_bits())
}

fn v(x: f64, y: f64, z: f64) -> Vec3 {
    Vec3::new(s(x), s(y), s(z))
}

#[test]
fn ray_test() {
    let origin = Point3::new(s(3.0), s(2.0), s(1.0));
    let dir = Vec3::new(s(2.0), s(3.0), s(5.0));
    let ray = Ray::new(origin, dir);
    assert_eq!(ray.origin(), origin);
    assert_eq!(ray.direction(), dir);
    assert_eq!(ray.at(s(3.0)), origin + dir * s(3.0));
}

#[test]
fn color_test() {
    let origin = Point3::new(s(3.0), s(2.0), s(1.0));
    let dir = Vec3::new(s(2.0), s(3.0), s(5.0));
    let color = Ray::new(origin, dir).color();
    assert_eq!(color, Color::new(s(0.6283339341519281), s(0.7770003604911568), s(1.0)));
}

#[test]
fn ray_at_is_origin_plus_t_times_direction() {
    let ray = Ray::new(v(3.0, 2.0, 1.0), v(2.0, 3.0, 5.0));
    let p = ray.at(s(3.0));
    assert_eq!((f(p.x), f(p.y), f(p.z)), (9.0, 11.0, 16.0));
    let q = ray.at(s(-0.25));
    assert_eq!((f(q.x), f(q.y), f(q.z)), (2.5, 1.25, -0.25));
    let o = ray.at(s(0.0));
    assert_eq!(o, ray.origin());
}

#[test]
fn background_is_a_vertical_gradient() {
    // straight up: sky blue
    let up = Ray::new(v(0.0, 0.0, 0.0), v(0.0, 2.0, 0.0)).color();
    assert_eq!((f(up.x), f(up.y), f(up.z)), (0.5, 0.7, 1.0));
    // straight down: white
    let down = Ray::new(v(0.0, 0.0, 0.0), v(0.0, -3.0, 0.0)).color();
    assert_eq!((f(down.x), f(down.y), f(down.z)), (1.0, 1.0, 1.0));
    // level: halfway
    let level = Ray::new(v(1.0, 1.0, 1.0), v(1.0, 0.0, 0.0)).color();
    assert_eq!((f(level.x), f(level.y), f(level.z)), (0.75, 0.85, 1.0));
}

#[test]
fn background_follows_the_formula() {
    let dirs = [
        (2.0, 3.0, 5.0),
        (-1.0, 0.25, 7.0),
        (1e-3, -4.5, 0.1),
        (10.0, 10.0, -10.0),
        (0.3, 0.1, 0.2),
    ];
    for &(x, y, z) in dirs.iter() {
        let got = Ray::new(v(0.0, 0.0, 0.0), v(x, y, z)).color();
        let len = (x * x + y * y + z * z).sqrt();
        let t = 0.5 * (y / len + 1.0);
        let want = (
            (1.0 - t) * 1.0 + t * 0.5,
            (1.0 - t) * 1.0 + t * 0.7,
            (1.0 - t) * 1.0 + t * 1.0,
        );
        assert_eq!(f(got.x).to_bits(), want.0.to_bits());
        assert_eq!(f(got.y).to_bits(), want.1.to_bits());
        assert_eq!(f(got.z).to_bits(), want.2.to_bits());
    }
}

#[test]
fn background_of_a_ray_without_direction_is_no_color() {
    let c = Ray::new(v(1.0, 2.0, 3.0), v(0.0, 0.0, 0.0)).color();
    assert!(f(c.x).is_nan() && f(c.y).is_nan() && f(c.z).is_nan());
}

#[test]
fn rays_compare_by_value() {
    let a = Ray::new(v(0.0, 1.0, 2.0), v(1.0, 0.0, 0.0));
    let b = Ray::new(v(-0.0, 1.0, 2.0), v(1.0, 0.0, -0.0));
    assert_eq!(a, b);
    let c = Ray::new(v(0.0, 1.0, 2.0), v(1.0, 0.0, 1.0));
    assert!(a != c);
    let n = Ray::new(v(f64::NAN, 1.0, 2.0), v(1.0, 0.0, 0.0));
    assert!(n != n);
}
