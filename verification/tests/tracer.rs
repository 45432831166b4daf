use rtrcrs::camera::Camera;
use rtrcrs::hittable_list::HittableList;
use rtrcrs::material::{Material, Sample};
use rtrcrs::ppm::picture;
use rtrcrs::random::Generator;
use rtrcrs::ray::Ray;
use rtrcrs::render::{pixel_bytes, pixel_color, PixelSample};
use rtrcrs::sphere::Sphere;
use rtrcrs::tracer::trace;
use rtrcrs::{Scalar, Vec3};

fn s(x: f64) -> Scalar {
    Scalar::from_bits(x.to_bits())
}

fn f(x: Scalar) -> f64 {
    f64::from_bits(x.to_bits())
}

fn v(x: f64, y: f64, z: f64) -> Vec3 {
    Vec3::new(s(x), s(y), s(z))
}

fn t3(a: Vec3) -> (f64, f64, f64) {
    (f(a.x), f(a.y), f(a.z))
}

fn samples(n: usize) -> Vec<Sample> {
    let mut g = Generator::new(7);
    g.samples(n)
}

fn scene() -> HittableList {
    let mut world = HittableList::new();
    world.add(Sphere::new(v(0.0, -1000.0, 0.0), s(1000.0), Material::lambertian(v(0.5, 0.5, 0.5))));
    world.add(Sphere::new(v(0.0, 1.0, 0.0), s(1.0), Material::dielectric(s(1.5))));
    world.add(Sphere::new(v(-4.0, 1.0, 0.0), s(1.0), Material::lambertian(v(0.4, 0.2, 0.1))));
    world.add(Sphere::new(v(4.0, 1.0, 0.0), s(1.0), Material::metal(v(0.7, 0.6, 0.5), s(0.0))));
    world
}

fn camera(aperture: f64) -> Camera {
    let half_height = (20.0f64.to_radians() / 2.0).tan();
    Camera::new(
        &v(13.0, 2.0, 3.0),
        &v(0.0, 0.0, 0.0),
        &v(0.0, 1.0, 0.0),
        s(half_height),
        s(16.0 / 9.0),
        s(aperture),
        s(10.0),
    )
}

#[test]
fn no_depth_no_light() {
    let world = scene();
    let empty = HittableList::new();
    let rays = [
        Ray::new(v(13.0, 2.0, 3.0), v(-13.0, -2.0, -3.0)),
        Ray::new(v(0.0, 0.0, 0.0), v(0.0, 1.0, 0.0)),
        Ray::new(v(0.0, 5.0, 0.0), v(0.0, -1.0, 0.0)),
    ];
    for ray in rays.iter() {
        assert_eq!(t3(trace(ray, &world, 0, &samples(0))), (0.0, 0.0, 0.0));
        assert_eq!(t3(trace(ray, &world, 0, &samples(3))), (0.0, 0.0, 0.0));
        assert_eq!(t3(trace(ray, &empty, 0, &samples(3))), (0.0, 0.0, 0.0));
    }
}

#[test]
fn an_empty_scene_shows_the_background() {
    let empty = HittableList::new();
    let rays = [
        Ray::new(v(13.0, 2.0, 3.0), v(-13.0, -2.0, -3.0)),
        Ray::new(v(0.0, 0.0, 0.0), v(0.0, 1.0, 0.0)),
        Ray::new(v(3.0, 2.0, 1.0), v(2.0, 3.0, 5.0)),
    ];
    for ray in rays.iter() {
        for depth in 1..4 {
            let c = trace(ray, &empty, depth, &samples(depth));
            let b = ray.color();
            assert_eq!(c.x.to_bits(), b.x.to_bits());
            assert_eq!(c.y.to_bits(), b.y.to_bits());
            assert_eq!(c.z.to_bits(), b.z.to_bits());
        }
    }
    let c = trace(&rays[2], &empty, 50, &samples(50));
    assert_eq!(t3(c), (0.6283339341519281, 0.7770003604911568, 1.0));
}

#[test]
fn a_ray_that_misses_shows_the_background() {
    let world = scene();
    let up = Ray::new(v(0.0, 5.0, 0.0), v(0.0, 1.0, 0.0));
    assert_eq!(t3(trace(&up, &world, 5, &samples(5))), (0.5, 0.7, 1.0));
}

#[test]
fn one_mirror_dims_the_background_by_its_albedo() {
    let mut world = HittableList::new();
    world.add(Sphere::new(v(0.0, 0.0, -3.0), s(1.0), Material::metal(v(0.5, 0.25, 1.0), s(0.0))));
    // straight at the mirror and straight back, level: halfway white and blue
    let ray = Ray::new(v(0.0, 0.0, 0.0), v(0.0, 0.0, -1.0));
    let c = trace(&ray, &world, 5, &samples(5));
    assert_eq!(t3(c), (0.5 * 0.75, 0.25 * 0.85, 1.0));
    // with one surface of depth only the mirror is seen, and what follows is dark
    let c = trace(&ray, &world, 1, &samples(1));
    assert_eq!(t3(c), (0.0, 0.0, 0.0));
}

#[test]
fn light_is_followed_no_farther_than_there_is_chance() {
    let mut world = HittableList::new();
    world.add(Sphere::new(v(0.0, 0.0, -3.0), s(1.0), Material::metal(v(0.5, 0.25, 1.0), s(0.0))));
    let ray = Ray::new(v(0.0, 0.0, 0.0), v(0.0, 0.0, -1.0));
    assert_eq!(t3(trace(&ray, &world, 5, &samples(0))), (0.0, 0.0, 0.0));
    assert_eq!(t3(trace(&ray, &world, 5, &samples(1))), (0.5 * 0.75, 0.25 * 0.85, 1.0));
    // a ray that meets nothing needs no chance
    let up = Ray::new(v(0.0, 0.0, 0.0), v(0.0, 1.0, 0.0));
    assert_eq!(t3(trace(&up, &world, 5, &samples(0))), (0.5, 0.7, 1.0));
}

#[test]
fn a_swallowed_ray_is_dark() {
    let mut world = HittableList::new();
    world.add(Sphere::new(v(0.0, 0.0, -3.0), s(1.0), Material::metal(v(0.5, 0.25, 1.0), s(1.0))));
    let ray = Ray::new(v(0.0, 0.0, 0.0), v(0.0, 0.0, -1.0));
    let chance = vec![Sample { in_sphere: v(0.0, 0.0, -0.999), chance: s(0.5) }];
    assert_eq!(t3(trace(&ray, &world, 1, &chance)), (0.0, 0.0, 0.0));
}

#[test]
fn tracing_is_determined_by_its_samples() {
    let world = scene();
    let ray = Ray::new(v(13.0, 2.0, 3.0), v(-13.0, -1.5, -3.0));
    let a = trace(&ray, &world, 10, &samples(10));
    let b = trace(&ray, &world, 10, &samples(10));
    assert_eq!(t3(a), t3(b));
    let (x, y, z) = t3(a);
    assert!(x.is_finite() && y.is_finite() && z.is_finite());
    assert!(x >= 0.0 && y >= 0.0 && z >= 0.0);
}

#[test]
fn camera_ray_through_the_viewport() {
    let cam = camera(0.0);
    let half_height = (20.0f64.to_radians() / 2.0).tan();
    // the basis, worked out with the machine's numbers
    let from = (13.0, 2.0, 3.0);
    let len = (13.0f64 * 13.0 + 2.0 * 2.0 + 3.0 * 3.0).sqrt();
    let w = (13.0 / len, 2.0 / len, 3.0 / len);
    assert_eq!(t3(cam.w), w);
    assert_eq!(t3(cam.origin), from);
    assert_eq!(f(cam.lens_radius), 0.0);
    // the middle of the image looks at the target
    let ray = cam.get_ray(s(0.5), s(0.5), v(0.3, -0.4, 0.0));
    assert_eq!(t3(ray.origin()), from);
    let d = t3(ray.direction());
    let scale = -10.0 / len;
    assert!((d.0 - 13.0 * scale).abs() < 1e-12);
    assert!((d.1 - 2.0 * scale).abs() < 1e-12);
    assert!((d.2 - 3.0 * scale).abs() < 1e-12);
    // the corners lie half the viewport away from the middle
    let corner = cam.get_ray(s(0.0), s(0.0), v(0.0, 0.0, 0.0));
    let c = t3(corner.direction());
    let (ux, uy, uz) = t3(cam.u);
    let (vx, vy, vz) = t3(cam.v);
    let half_w = 10.0 * (16.0 / 9.0) * half_height;
    let half_h = 10.0 * half_height;
    let want = (
        13.0 * scale - half_w * ux - half_h * vx,
        2.0 * scale - half_w * uy - half_h * vy,
        3.0 * scale - half_w * uz - half_h * vz,
    );
    assert!((c.0 - want.0).abs() < 1e-12);
    assert!((c.1 - want.1).abs() < 1e-12);
    assert!((c.2 - want.2).abs() < 1e-12);
    // the basis is orthonormal
    assert!((ux * w.0 + uy * w.1 + uz * w.2).abs() < 1e-15);
    assert!((vx * w.0 + vy * w.1 + vz * w.2).abs() < 1e-15);
    assert!((ux * vx + uy * vy + uz * vz).abs() < 1e-15);
    assert!(((vx * vx + vy * vy + vz * vz).sqrt() - 1.0).abs() < 1e-15);
}

#[test]
fn an_open_lens_moves_the_origin_and_keeps_the_focus() {
    let cam = camera(2.0);
    assert_eq!(f(cam.lens_radius), 1.0);
    let sharp = camera(0.0).get_ray(s(0.25), s(0.75), v(0.0, 0.0, 0.0));
    let ray = cam.get_ray(s(0.25), s(0.75), v(0.5, -0.25, 0.0));
    let o = t3(ray.origin());
    let (ux, uy, uz) = t3(cam.u);
    let (vx, vy, vz) = t3(cam.v);
    assert!((o.0 - (13.0 + 0.5 * ux - 0.25 * vx)).abs() < 1e-12);
    assert!((o.1 - (2.0 + 0.5 * uy - 0.25 * vy)).abs() < 1e-12);
    assert!((o.2 - (3.0 + 0.5 * uz - 0.25 * vz)).abs() < 1e-12);
    // both rays pass the same point of the plane in focus
    let p = t3(ray.at(s(1.0)));
    let q = t3(sharp.at(s(1.0)));
    assert!((p.0 - q.0).abs() < 1e-12 && (p.1 - q.1).abs() < 1e-12 && (p.2 - q.2).abs() < 1e-12);
}

fn pixel_samples(g: &mut Generator, n: usize, depth: usize) -> Vec<PixelSample> {
    let mut out = Vec::new();
    for _ in 0..n {
        let du = g.uniform();
        let dv = g.uniform();
        let lens = g.in_unit_disk();
        let bounces = g.samples(depth);
        out.push(PixelSample { du, dv, lens, bounces });
    }
    out
}

#[test]
fn a_pixel_of_an_empty_scene() {
    let cam = camera(0.0);
    let empty = HittableList::new();
    let one = |du: f64, dv: f64| PixelSample { du: s(du), dv: s(dv), lens: v(0.0, 0.0, 0.0), bounces: samples(3) };
    let picks = vec![one(0.25, 0.5), one(0.75, 0.125)];
    let c = pixel_color(&cam, &empty, 3, 2, 8, 4, 3, &picks);
    let a = cam.get_ray(s((3.0 + 0.25) / 7.0), s((2.0 + 0.5) / 3.0), v(0.0, 0.0, 0.0)).color();
    let b = cam.get_ray(s((3.0 + 0.75) / 7.0), s((2.0 + 0.125) / 3.0), v(0.0, 0.0, 0.0)).color();
    let mean = |p: f64, q: f64| ((0.0 + p + q) / 2.0).sqrt().max(0.0).min(0.999);
    assert_eq!(f(c.x).to_bits(), mean(f(a.x), f(b.x)).to_bits());
    assert_eq!(f(c.y).to_bits(), mean(f(a.y), f(b.y)).to_bits());
    assert_eq!(f(c.z).to_bits(), mean(f(a.z), f(b.z)).to_bits());
    // without samples there is nothing to average, and the pixel is dark
    let none: Vec<PixelSample> = Vec::new();
    assert_eq!(t3(pixel_color(&cam, &empty, 3, 2, 8, 4, 3, &none)), (0.0, 0.0, 0.0));
}

#[test]
fn bytes_of_a_color() {
    assert_eq!(pixel_bytes(v(0.0, 0.5, 0.999)), (0, 127, 255));
    assert_eq!(pixel_bytes(v(1.0, 0.25, 0.004)), (255, 63, 1));
    assert_eq!(pixel_bytes(v(-1.0, f64::NAN, f64::INFINITY)), (0, 0, 255));
    for i in 0..1000 {
        let c = i as f64 / 999.0 * 0.999;
        let want = (c * 255.9) as u8;
        assert_eq!(pixel_bytes(v(c, c, c)), (want, want, want));
    }
}

#[test]
fn a_small_picture_from_end_to_end() {
    let (width, height, per_pixel, depth) = (12u32, 7u32, 3usize, 6usize);
    let cam = camera(0.1);
    let world = scene();
    let mut g = Generator::new(2024);
    let mut stream: Vec<u8> = Vec::new();
    let mut colours = std::collections::BTreeSet::new();
    for j in (0..height).rev() {
        for i in 0..width {
            let picks = pixel_samples(&mut g, per_pixel, depth);
            let c = pixel_color(&cam, &world, i, j, width, height, depth, &picks);
            let (x, y, z) = t3(c);
            assert!(x.is_finite() && y.is_finite() && z.is_finite());
            assert!((0.0..=0.999).contains(&x));
            assert!((0.0..=0.999).contains(&y));
            assert!((0.0..=0.999).contains(&z));
            let (r, gr, b) = pixel_bytes(c);
            assert_eq!((r, gr, b), ((x * 255.9) as u8, (y * 255.9) as u8, (z * 255.9) as u8));
            colours.insert((r, gr, b));
            stream.push(r);
            stream.push(gr);
            stream.push(b);
        }
    }
    assert_eq!(stream.len(), (3 * width * height) as usize);
    let text = picture(width, height, &stream).unwrap();
    let text = String::from_utf8(text).unwrap();
    let mut lines = text.lines();
    assert_eq!(lines.next().unwrap().as_bytes(), [b'P', b'3']);
    assert_eq!(lines.next(), Some("12 7"));
    assert_eq!(lines.next(), Some("255"));
    let mut count = 0;
    for (line, pixel) in lines.zip(stream.chunks(3)) {
        let numbers: Vec<u8> = line.split(' ').map(|n| n.parse().unwrap()).collect();
        assert_eq!(numbers, pixel);
        count += 1;
    }
    assert_eq!(count, width * height);
    assert_eq!(text.lines().count() as u32, 3 + width * height);
    // sky above, ground below, and more than a few colors in between
    assert!(colours.len() > 10);
    let top_left = &stream[0..3];
    assert!(top_left[2] > top_left[0]);
}
