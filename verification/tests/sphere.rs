use rtrcrs::hittable_list::HittableList;
use rtrcrs::material::Material;
use rtrcrs::ray::Ray;
use rtrcrs::sphere::Sphere;
use rtrcrs::{Scalar, Vec3};

fn s(x: f64) -> Scalar {
    Scalar::from_bits(x.to_bits())
}

fn f(x: Scalar) -> f64 {
    f64::from_bits(x.to_bits())
}

fn v(x: f64, y: f64, z: f64) -> Vec3 {
    Vec3::new(s(x), s(y), s(z))
}

fn t3(a: Vec3) -> (f64, f64, f64) {
    (f(a.x), f(a.y), f(a.z))
}

fn matt() -> Material {
    Material::lambertian(v(0.5, 0.5, 0.5))
}

#[test]
fn a_ray_meets_a_sphere_head_on() {
    let sphere = Sphere::new(v(0.0, 0.0, -1.0), s(0.5), matt());
    let ray = Ray::new(v(0.0, 0.0, 0.0), v(0.0, 0.0, -1.0));
    let rec = sphere.hit(&ray, s(0.001), s(f64::INFINITY)).unwrap();
    assert_eq!(f(rec.t), 0.5);
    assert_eq!(t3(rec.point), (0.0, 0.0, -0.5));
    assert_eq!(t3(rec.normal), (0.0, 0.0, 1.0));
    assert!(rec.front_face);
}

#[test]
fn from_inside_the_far_root_counts_and_the_normal_is_turned() {
    let sphere = Sphere::new(v(0.0, 0.0, 0.0), s(2.0), matt());
    let ray = Ray::new(v(0.0, 0.0, 0.0), v(1.0, 0.0, 0.0));
    let rec = sphere.hit(&ray, s(0.001), s(f64::INFINITY)).unwrap();
    assert_eq!(f(rec.t), 2.0);
    assert_eq!(t3(rec.point), (2.0, 0.0, 0.0));
    assert!(!rec.front_face);
    assert_eq!(t3(rec.normal), (-1.0, -0.0, -0.0));
}

#[test]
fn a_ray_that_passes_by_meets_nothing() {
    let sphere = Sphere::new(v(0.0, 0.0, -1.0), s(0.5), matt());
    let ray = Ray::new(v(0.0, 0.0, 0.0), v(0.0, 1.0, 0.0));
    assert!(sphere.hit(&ray, s(0.001), s(f64::INFINITY)).is_none());
    // behind the ray
    let back = Ray::new(v(0.0, 0.0, 0.0), v(0.0, 0.0, 1.0));
    assert!(sphere.hit(&back, s(0.001), s(f64::INFINITY)).is_none());
}

#[test]
fn the_bounds_are_left_out() {
    let sphere = Sphere::new(v(0.0, 0.0, -1.0), s(0.5), matt());
    let ray = Ray::new(v(0.0, 0.0, 0.0), v(0.0, 0.0, -1.0));
    // roots at 0.5 and 1.5
    assert_eq!(f(sphere.hit(&ray, s(0.0), s(10.0)).unwrap().t), 0.5);
    assert_eq!(f(sphere.hit(&ray, s(0.5), s(10.0)).unwrap().t), 1.5);
    assert_eq!(f(sphere.hit(&ray, s(0.5), s(1.5000001)).unwrap().t), 1.5);
    assert!(sphere.hit(&ray, s(0.5), s(1.5)).is_none());
    assert!(sphere.hit(&ray, s(0.0), s(0.5)).is_none());
    assert!(sphere.hit(&ray, s(1.5), s(10.0)).is_none());
    assert!(sphere.hit(&ray, s(f64::NAN), s(10.0)).is_none());
}

#[test]
fn a_ray_without_direction_meets_nothing() {
    let sphere = Sphere::new(v(0.0, 0.0, -1.0), s(0.5), matt());
    let ray = Ray::new(v(0.0, 0.0, 0.0), v(0.0, 0.0, 0.0));
    assert!(sphere.hit(&ray, s(0.001), s(f64::INFINITY)).is_none());
}

#[test]
fn points_met_lie_on_the_sphere_and_in_the_range() {
    let spheres = [
        (0.0, 0.0, -1.0, 0.5),
        (0.0, -100.5, -1.0, 100.0),
        (4.0, 1.0, 0.0, 1.0),
        (-4.0, 1.0, 0.0, 1.0),
        (0.0, -1000.0, 0.0, 1000.0),
    ];
    let mut state: u64 = 0x1234_5678_9ABC_DEF1;
    let mut next = move || {
        state ^= state << 13;
        state ^= state >> 7;
        state ^= state << 17;
        (state >> 11) as f64 / 9007199254740992.0 * 2.0 - 1.0
    };
    let mut met = 0;
    for _ in 0..400 {
        let origin = (13.0 * next(), 2.0 + next(), 3.0 * next());
        let dir = (next(), next() * 0.5, next());
        let ray = Ray::new(v(origin.0, origin.1, origin.2), v(dir.0, dir.1, dir.2));
        for &(cx, cy, cz, r) in spheres.iter() {
            let sphere = Sphere::new(v(cx, cy, cz), s(r), matt());
            let (t_min, t_max) = (0.001, 1e6);
            if let Some(rec) = sphere.hit(&ray, s(t_min), s(t_max)) {
                met += 1;
                let t = f(rec.t);
                assert!(t_min < t && t < t_max);
                let (px, py, pz) = t3(rec.point);
                let d = ((px - cx).powi(2) + (py - cy).powi(2) + (pz - cz).powi(2)).sqrt();
                assert!((d - r).abs() <= 1e-6 * r.max(1.0), "{} against {}", d, r);
                // the normal has length one and stands against the ray
                let (nx, ny, nz) = t3(rec.normal);
                assert!(((nx * nx + ny * ny + nz * nz).sqrt() - 1.0).abs() < 1e-6);
                assert!(dir.0 * nx + dir.1 * ny + dir.2 * nz <= 0.0);
                assert_eq!(rec.point, ray.at(rec.t));
            }
        }
    }
    assert!(met > 100);
}

#[test]
fn hit_follows_the_formula() {
    let (cx, cy, cz, r) = (0.3, -0.2, -2.0, 0.7);
    let (ox, oy, oz) = (0.1, 0.05, 0.5);
    let (dx, dy, dz) = (0.02, -0.03, -1.1);
    let sphere = Sphere::new(v(cx, cy, cz), s(r), matt());
    let ray = Ray::new(v(ox, oy, oz), v(dx, dy, dz));
    let rec = sphere.hit(&ray, s(0.001), s(f64::INFINITY)).unwrap();
    let oc = (ox - cx, oy - cy, oz - cz);
    let a = dx * dx + dy * dy + dz * dz;
    let h = oc.0 * dx + oc.1 * dy + oc.2 * dz;
    let k = (oc.0 * oc.0 + oc.1 * oc.1 + oc.2 * oc.2) - r * r;
    let disc = h * h - a * k;
    let t = (-h - disc.sqrt()) / a;
    assert_eq!(f(rec.t).to_bits(), t.to_bits());
    let p = (ox + dx * t, oy + dy * t, oz + dz * t);
    assert_eq!(t3(rec.point), p);
    let n = ((p.0 - cx) / r, (p.1 - cy) / r, (p.2 - cz) / r);
    assert_eq!(t3(rec.normal), n);
}

#[test]
fn the_nearest_surface_is_returned() {
    let mut world = HittableList::new();
    let ray = Ray::new(v(0.0, 0.0, 0.0), v(0.0, 0.0, -1.0));
    assert!(world.hit(&ray, s(0.001), s(f64::INFINITY)).is_none());
    world.add(Sphere::new(v(0.0, 0.0, -5.0), s(1.0), Material::dielectric(s(1.5))));
    world.add(Sphere::new(v(0.0, 0.0, -2.0), s(0.5), matt()));
    world.add(Sphere::new(v(0.0, 0.0, -9.0), s(1.0), Material::metal(v(1.0, 1.0, 1.0), s(0.0))));
    world.add(Sphere::new(v(0.0, 5.0, -2.0), s(0.5), matt()));
    assert_eq!(world.objects.len(), 4);
    let rec = world.hit(&ray, s(0.001), s(f64::INFINITY)).unwrap();
    assert_eq!(f(rec.t), 1.5);
    assert!(matches!(rec.material, Material::Lambertian { .. }));
    // past the first, the next one
    let rec = world.hit(&ray, s(2.6), s(f64::INFINITY)).unwrap();
    assert_eq!(f(rec.t), 4.0);
    assert!(matches!(rec.material, Material::Dielectric { .. }));
    // a range that ends before the first surface
    assert!(world.hit(&ray, s(0.001), s(1.5)).is_none());
    let away = Ray::new(v(0.0, 0.0, 0.0), v(1.0, 0.0, 0.0));
    assert!(world.hit(&away, s(0.001), s(f64::INFINITY)).is_none());
}

#[test]
fn of_two_surfaces_at_one_distance_the_first_is_returned() {
    let mut world = HittableList::default();
    world.add(Sphere::new(v(0.0, 0.0, -2.0), s(0.5), Material::dielectric(s(1.5))));
    world.add(Sphere::new(v(0.0, 0.0, -2.0), s(0.5), matt()));
    let ray = Ray::new(v(0.0, 0.0, 0.0), v(0.0, 0.0, -1.0));
    let rec = world.hit(&ray, s(0.001), s(f64::INFINITY)).unwrap();
    assert!(matches!(rec.material, Material::Dielectric { .. }));
}
