use rtrcrs::material::{reflectance, Material, Sample, ScatterOutcome};
use rtrcrs::ray::Ray;
use rtrcrs::sphere::HitRecord;
use rtrcrs::{Scalar, Vec3};

fn s(x: f64) -> Scalar {
    Scalar::from_bits(x.to_bits())
}

fn f(x: Scalar) -> f64 {
    f64::from_bits(x.to_bits())
}

fn v(x: f64, y: f64, z: f64) -> Vec3 {
    Vec3::new(s(x), s(y), s(z))
}

fn t3(a: Vec3) -> (f64, f64, f64) {
    (f(a.x), f(a.y), f(a.z))
}

fn record(material: Material, normal: Vec3, front_face: bool) -> HitRecord {
    HitRecord { point: v(1.0, 2.0, 3.0), normal, t: s(1.0), front_face, material }
}

fn sample(x: f64, y: f64, z: f64, chance: f64) -> Sample {
    Sample { in_sphere: v(x, y, z), chance: s(chance) }
}

fn scattered(outcome: ScatterOutcome) -> (Vec3, Ray) {
    match outcome {
        ScatterOutcome::Scattered { attenuation, ray } => (attenuation, ray),
        ScatterOutcome::Absorbed => panic!("absorbed"),
    }
}

#[test]
fn reflection_law() {
    // for a unit normal, the reflected vector has the opposite share along it
    let cases = [
        ((1.0, -1.0, 0.0), (0.0, 1.0, 0.0)),
        ((3.0, -4.0, 2.0), (0.0, 0.0, 1.0)),
        ((-7.0, 2.0, 5.0), (1.0, 0.0, 0.0)),
        ((0.5, 0.25, -8.0), (0.0, -1.0, 0.0)),
        ((3.0, 5.0, -2.0), (0.6, 0.0, 0.8)),
    ];
    for &((a, b, c), (nx, ny, nz)) in cases.iter() {
        let vec = v(a, b, c);
        let n = v(nx, ny, nz);
        let left = f(vec.reflect(n).dot(n));
        let right = -f(vec.dot(n));
        assert!((left - right).abs() <= 1e-12, "{} against {}", left, right);
    }
    // exactly, where nothing is rounded
    let vec = v(3.0, -4.0, 2.0);
    let n = v(0.0, 0.0, 1.0);
    assert_eq!(f(vec.reflect(n).dot(n)), -f(vec.dot(n)));
}

#[test]
fn a_matt_surface_scatters_around_the_normal() {
    let m = Material::lambertian(v(0.4, 0.2, 0.1));
    let rec = record(m, v(0.0, 1.0, 0.0), true);
    let ray_in = Ray::new(v(0.0, 5.0, 3.0), v(1.0, -3.0, 0.0));
    let (attenuation, ray) = scattered(m.scatter(&ray_in, &rec, &sample(0.3, 0.0, 0.4, 0.5)));
    assert_eq!(t3(attenuation), (0.4, 0.2, 0.1));
    assert_eq!(t3(ray.origin()), (1.0, 2.0, 3.0));
    // the unit vector of (0.3, 0, 0.4) is (0.6, 0, 0.8)
    assert_eq!(t3(ray.direction()), (0.6, 1.0, 0.8));
}

#[test]
fn a_matt_surface_falls_back_on_the_normal() {
    let m = Material::lambertian(v(0.4, 0.2, 0.1));
    let rec = record(m, v(0.0, 1.0, 0.0), true);
    let ray_in = Ray::new(v(0.0, 5.0, 3.0), v(1.0, -3.0, 0.0));
    // the random unit vector is the opposite of the normal
    let (_, ray) = scattered(m.scatter(&ray_in, &rec, &sample(0.0, -0.5, 0.0, 0.5)));
    assert_eq!(t3(ray.direction()), (0.0, 1.0, 0.0));
}

#[test]
fn a_mirror_reflects() {
    let m = Material::metal(v(0.7, 0.6, 0.5), s(0.0));
    let rec = record(m, v(0.0, 1.0, 0.0), true);
    let ray_in = Ray::new(v(0.0, 5.0, 3.0), v(3.0, -4.0, 0.0));
    let (attenuation, ray) = scattered(m.scatter(&ray_in, &rec, &sample(0.3, 0.2, 0.1, 0.5)));
    assert_eq!(t3(attenuation), (0.7, 0.6, 0.5));
    assert_eq!(t3(ray.origin()), (1.0, 2.0, 3.0));
    assert_eq!(t3(ray.direction()), (0.6, 0.8, 0.0));
}

#[test]
fn a_fuzzy_mirror_adds_the_sample() {
    let m = Material::metal(v(0.7, 0.6, 0.5), s(0.5));
    let rec = record(m, v(0.0, 1.0, 0.0), true);
    let ray_in = Ray::new(v(0.0, 5.0, 3.0), v(3.0, -4.0, 0.0));
    let (_, ray) = scattered(m.scatter(&ray_in, &rec, &sample(0.25, 0.5, -0.5, 0.5)));
    assert_eq!(t3(ray.direction()), (0.6 + 0.5 * 0.25, 0.8 + 0.5 * 0.5, 0.0 + 0.5 * -0.5));
}

#[test]
fn a_mirror_swallows_what_would_go_into_it() {
    let m = Material::metal(v(0.7, 0.6, 0.5), s(1.0));
    let rec = record(m, v(0.0, 1.0, 0.0), true);
    let ray_in = Ray::new(v(0.0, 5.0, 3.0), v(3.0, -4.0, 0.0));
    // reflected (0.6, 0.8, 0) plus (0, -0.9, 0) points into the surface
    let outcome = m.scatter(&ray_in, &rec, &sample(0.0, -0.9, 0.0, 0.5));
    assert!(matches!(outcome, ScatterOutcome::Absorbed));
    // and what runs along it
    let outcome = m.scatter(&ray_in, &rec, &sample(0.0, -0.8, 0.0, 0.5));
    assert!(matches!(outcome, ScatterOutcome::Absorbed));
}

#[test]
fn fuzz_is_held_between_zero_and_one() {
    let cases = [(-3.0, 0.0), (0.0, 0.0), (0.25, 0.25), (1.0, 1.0), (7.5, 1.0), (f64::NAN, 0.0)];
    for &(given, kept) in cases.iter() {
        match Material::metal(v(1.0, 1.0, 1.0), s(given)) {
            Material::Metal { fuzz, .. } => assert_eq!(f(fuzz), kept),
            _ => panic!("not a metal"),
        }
    }
}

#[test]
fn glass_mirrors_light_that_cannot_pass() {
    // from inside glass at a flat angle: 1.5^2 * sin^2 > 1
    let m = Material::dielectric(s(1.5));
    let normal = v(0.0, 1.0, 0.0);
    let rec = record(m, normal, false);
    let dir = v(4.0, -3.0, 0.0);
    let unit = Vec3::unit_vector(dir);
    assert!(unit.total_reflection(normal, s(1.5)));
    let ray_in = Ray::new(v(0.0, 5.0, 3.0), dir);
    for &chance in [0.0, 0.3, 0.999999].iter() {
        let (attenuation, ray) = scattered(m.scatter(&ray_in, &rec, &sample(0.1, 0.2, 0.3, chance)));
        assert_eq!(t3(attenuation), (1.0, 1.0, 1.0));
        assert_eq!(t3(ray.origin()), (1.0, 2.0, 3.0));
        assert_eq!(ray.direction(), unit.reflect(normal));
        let d = t3(ray.direction());
        assert!(!d.0.is_nan() && !d.1.is_nan() && !d.2.is_nan());
        assert_eq!(d, (0.8, 0.6, 0.0));
    }
}

#[test]
fn glass_bends_light_by_snells_law() {
    let m = Material::dielectric(s(1.5));
    let normal = v(0.0, 1.0, 0.0);
    let rec = record(m, normal, true);
    let dir = v(3.0, -4.0, 0.0);
    let ray_in = Ray::new(v(0.0, 5.0, 3.0), dir);
    // a chance of nearly one: above every reflectance, so the ray is bent
    let (attenuation, ray) = scattered(m.scatter(&ray_in, &rec, &sample(0.1, 0.2, 0.3, 0.999)));
    assert_eq!(t3(attenuation), (1.0, 1.0, 1.0));
    let eta = 1.0 / 1.5;
    let (ux, uy) = (0.6f64, -0.8f64);
    let cos = (-ux * 0.0 + -uy * 1.0 + -0.0 * 0.0f64).min(1.0);
    let sin2 = 1.0 - cos * cos;
    let under = 1.0 - eta * eta * sin2;
    let across = (eta * (ux + cos * 0.0), eta * (uy + cos * 1.0));
    let along = (-under.sqrt() * 0.0, -under.sqrt() * 1.0);
    let d = t3(ray.direction());
    assert_eq!(d.0.to_bits(), (across.0 + along.0).to_bits());
    assert_eq!(d.1.to_bits(), (across.1 + along.1).to_bits());
    // sines in the ratio of the indices
    let len = (d.0 * d.0 + d.1 * d.1 + d.2 * d.2).sqrt();
    assert!((d.0 / len - 0.6 / 1.5).abs() < 1e-12);
    assert!(d.1 < 0.0);
    // a chance of zero: below the reflectance, so the ray is mirrored
    let (_, mirrored) = scattered(m.scatter(&ray_in, &rec, &sample(0.1, 0.2, 0.3, 0.0)));
    assert_eq!(t3(mirrored.direction()), (0.6, 0.8, 0.0));
}

#[test]
fn refraction_straight_through() {
    let unit = v(0.0, -1.0, 0.0);
    let normal = v(0.0, 1.0, 0.0);
    assert!(!unit.total_reflection(normal, s(1.0)));
    let out = unit.refract(normal, s(1.0));
    assert_eq!(t3(out), (0.0, -1.0, 0.0));
    assert!(!unit.total_reflection(normal, s(1.5)));
    assert_eq!(t3(unit.refract(normal, s(1.5))), (0.0, -1.0, 0.0));
}

#[test]
fn schlick_reflectance() {
    // head on, glass mirrors ((1 - 1.5) / (1 + 1.5))^2 = 4 %
    let r = f(reflectance(s(1.0), s(1.5)));
    assert_eq!(r.to_bits(), (((1.0f64 - 1.5) / (1.0 + 1.5)) * ((1.0 - 1.5) / (1.0 + 1.5))).to_bits());
    assert!((r - 0.04).abs() < 1e-15);
    // at a grazing angle all is mirrored
    assert_eq!(f(reflectance(s(0.0), s(1.5))), 1.0);
    let cos = 0.3f64;
    let r0 = ((1.0f64 - 1.5) / (1.0 + 1.5)) * ((1.0 - 1.5) / (1.0 + 1.5));
    let x = 1.0 - cos;
    let want = r0 + (1.0 - r0) * (((x * x) * (x * x)) * x);
    assert_eq!(f(reflectance(s(cos), s(1.5))).to_bits(), want.to_bits());
}

#[test]
fn near_zero() {
    assert!(v(0.0, 0.0, 0.0).near_zero());
    assert!(v(9e-9, -9e-9, 1e-300).near_zero());
    assert!(!v(1e-8, 0.0, 0.0).near_zero());
    assert!(!v(0.0, -1e-7, 0.0).near_zero());
    assert!(!v(f64::NAN, 0.0, 0.0).near_zero());
}
