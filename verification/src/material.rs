//! Materials: how a surface scatters the light that falls on it.
use crate::color::Color;
use crate::ray::Ray;
use crate::scalar::Scalar;
use crate::sphere::HitRecord;
use crate::vec3::Vec3;
use vstd::prelude::*;

verus! {

/// The material of a surface.
#[derive(Clone, Copy, Debug)]
pub enum Material {
    /// A matt surface that scatters in all directions and tints by `albedo`.
    Lambertian { albedo: Color },
    /// A mirror that tints by `albedo`; `fuzz`, from 0 to 1, blurs the mirror image.
    Metal { albedo: Color, fuzz: Scalar },
    /// A clear medium such as glass or water that bends and mirrors light.
    Dielectric { refractive_index: Scalar },
}

/// What becomes of a ray on a surface.
#[derive(Clone, Copy, Debug)]
pub enum ScatterOutcome {
    /// The light is swallowed.
    Absorbed,
    /// The light goes on along `ray`, each channel dimmed by `attenuation`.
    Scattered { attenuation: Color, ray: Ray },
}

/// The chance that enters one scattering: a point drawn evenly from the inside of
/// the unit sphere, and a number drawn evenly from 0 up to 1.
#[derive(Clone, Copy, Debug)]
pub struct Sample {
    pub in_sphere: Vec3,
    pub chance: Scalar,
}

/// The fifth power, as `((x * x) * (x * x)) * x`.
pub open spec fn fifth_power_spec(x: Scalar) -> Scalar {
    x.times(x).times(x.times(x)).times(x)
}

/// Schlick's estimate of the share of light that a clear surface mirrors:
/// `r0 + (1 - r0) * (1 - cosine)^5`, where `r0` is `((1 - index) / (1 + index))^2`.
pub open spec fn reflectance_spec(cosine: Scalar, index: Scalar) -> Scalar {
    let one = Scalar::of_int(1);
    let root = one.minus(index).over(one.plus(index));
    let r0 = root.times(root);
    r0.plus(one.minus(r0).times(fifth_power_spec(one.minus(cosine))))
}

/// Schlick's estimate of the share of light that a clear surface mirrors.
pub fn reflectance(cosine: Scalar, index: Scalar) -> (r: Scalar)
    ensures
        r == reflectance_spec(cosine, index),
{
    let one = Scalar::one();
    let root = (one - index) / (one + index);
    let r0 = root * root;
    let x = one - cosine;
    let fifth = ((x * x) * (x * x)) * x;
    r0 + (one - r0) * fifth
}

impl Material {
    /// A matt material of the given tint.
    pub fn lambertian(albedo: Color) -> (m: Material)
        ensures
            m == (Material::Lambertian { albedo }),
    {
        Material::Lambertian { albedo }
    }

    /// A metal; the fuzz is held between 0 and 1.
    pub fn metal(albedo: Color, fuzz: Scalar) -> (m: Material)
        ensures
            m == (Material::Metal {
                albedo,
                fuzz: fuzz.max_spec(Scalar::of_int(0)).min_spec(Scalar::of_int(1)),
            }),
    {
        Material::Metal { albedo, fuzz: fuzz.max(Scalar::zero_value()).min(Scalar::one()) }
    }

    /// A clear material of the given refractive index.
    pub fn dielectric(refractive_index: Scalar) -> (m: Material)
        ensures
            m == (Material::Dielectric { refractive_index }),
    {
        Material::Dielectric { refractive_index }
    }

    /// The direction in which a matt surface scatters: the normal plus a random
    /// unit vector, or the normal itself where the two all but cancel.
    pub open spec fn diffuse_direction_spec(normal: Vec3, sample: Sample) -> Vec3 {
        let direction = normal.plus(Vec3::unit_vector_spec(sample.in_sphere));
        if direction.near_zero_spec() {
            normal
        } else {
            direction
        }
    }

    /// The direction in which a metal mirrors: the unit direction of the ray
    /// reflected, plus `fuzz` times a random point of the unit sphere.
    pub open spec fn mirror_direction_spec(incoming: Vec3, normal: Vec3, fuzz: Scalar, sample: Sample)
        -> Vec3 {
        Vec3::unit_vector_spec(incoming).reflect_spec(normal).plus(fuzz.scale(sample.in_sphere))
    }

    /// The ratio of refractive indices at a clear surface: air has 1, so from
    /// outside it is one over the medium's index, from inside the index itself.
    pub open spec fn eta_ratio_spec(refractive_index: Scalar, front_face: bool) -> Scalar {
        if front_face {
            Scalar::of_int(1).over(refractive_index)
        } else {
            refractive_index
        }
    }

    /// Whether a clear surface mirrors the ray: always where the light cannot
    /// pass, and else with the chance that Schlick's estimate gives.
    pub open spec fn mirrors_spec(unit: Vec3, normal: Vec3, eta_ratio: Scalar, sample: Sample)
        -> bool {
        unit.total_reflection_spec(normal, eta_ratio) || sample.chance.less_than(
            reflectance_spec(unit.cos_theta_spec(normal), eta_ratio),
        )
    }

    /// What becomes of the ray `ray_in` that meets a surface of this material as
    /// `rec` records, with the chance that `sample` holds.
    /// - A matt surface scatters along `diffuse_direction_spec`, dimmed by its albedo.
    /// - A metal scatters along `mirror_direction_spec`, dimmed by its albedo, if
    ///   that direction leaves the surface, and swallows the ray otherwise.
    /// - A clear surface mirrors or bends the ray, undimmed.
    #[verifier::opaque]
    pub open spec fn scatter_spec(self, ray_in: Ray, rec: HitRecord, sample: Sample)
        -> ScatterOutcome {
        match self {
            Material::Lambertian { albedo } => ScatterOutcome::Scattered {
                attenuation: albedo,
                ray: Ray::from_view((rec.point, Material::diffuse_direction_spec(rec.normal, sample))),
            },
            Material::Metal { albedo, fuzz } => {
                let direction = Material::mirror_direction_spec(ray_in@.1, rec.normal, fuzz, sample);
                if Scalar::of_int(0).less_than(direction.dot_spec(rec.normal)) {
                    ScatterOutcome::Scattered {
                        attenuation: albedo,
                        ray: Ray::from_view((rec.point, direction)),
                    }
                } else {
                    ScatterOutcome::Absorbed
                }
            },
            Material::Dielectric { refractive_index } => {
                let eta_ratio = Material::eta_ratio_spec(refractive_index, rec.front_face);
                let unit = Vec3::unit_vector_spec(ray_in@.1);
                let direction = if Material::mirrors_spec(unit, rec.normal, eta_ratio, sample) {
                    unit.reflect_spec(rec.normal)
                } else {
                    unit.refract_spec(rec.normal, eta_ratio)
                };
                ScatterOutcome::Scattered {
                    attenuation: crate::ray::white(),
                    ray: Ray::from_view((rec.point, direction)),
                }
            },
        }
    }

    /// What holds of every scattering: a scattered ray starts where the surface
    /// was met; a matt or a clear surface never swallows; a metal scatters only
    /// away from the surface; and a clear surface that light cannot pass mirrors
    /// it.
    pub proof fn lemma_scatter(self, ray_in: Ray, rec: HitRecord, sample: Sample)
        ensures
            self.scatter_spec(ray_in, rec, sample) matches ScatterOutcome::Scattered { ray, .. }
                ==> ray@.0 == rec.point,
            self is Lambertian ==> self.scatter_spec(ray_in, rec, sample) is Scattered,
            self is Dielectric ==> self.scatter_spec(ray_in, rec, sample) is Scattered,
            self is Metal ==> (self.scatter_spec(ray_in, rec, sample) matches ScatterOutcome::Scattered {
                ray,
                ..
            } ==> Scalar::of_int(0).less_than(ray@.1.dot_spec(rec.normal))),
            self matches Material::Dielectric { refractive_index } ==> ({
                let eta_ratio = Material::eta_ratio_spec(refractive_index, rec.front_face);
                let unit = Vec3::unit_vector_spec(ray_in@.1);
                unit.total_reflection_spec(rec.normal, eta_ratio) ==> (self.scatter_spec(
                    ray_in,
                    rec,
                    sample,
                ) matches ScatterOutcome::Scattered { ray, .. } && ray@.1 == unit.reflect_spec(
                    rec.normal,
                ))
            }),
    {
        reveal(Material::scatter_spec);
        Ray::lemma_from_view((rec.point, Material::diffuse_direction_spec(rec.normal, sample)));
        match self {
            Material::Lambertian { albedo } => {},
            Material::Metal { albedo, fuzz } => {
                Ray::lemma_from_view(
                    (rec.point, Material::mirror_direction_spec(ray_in@.1, rec.normal, fuzz, sample)),
                );
            },
            Material::Dielectric { refractive_index } => {
                let eta_ratio = Material::eta_ratio_spec(refractive_index, rec.front_face);
                let unit = Vec3::unit_vector_spec(ray_in@.1);
                Ray::lemma_from_view((rec.point, unit.reflect_spec(rec.normal)));
                Ray::lemma_from_view((rec.point, unit.refract_spec(rec.normal, eta_ratio)));
            },
        }
    }

    /// What becomes of the ray on the surface. A scattered ray starts where the
    /// surface was met; a matt or a clear surface never swallows; a metal
    /// scatters only away from the surface; and a clear surface that light
    /// cannot pass mirrors it and bends nothing.
    pub fn scatter(&self, ray_in: &Ray, rec: &HitRecord, sample: &Sample) -> (r: ScatterOutcome)
        ensures
            r == self.scatter_spec(*ray_in, *rec, *sample),
            r matches ScatterOutcome::Scattered { ray, .. } ==> ray@.0 == rec.point,
            self is Lambertian || self is Dielectric ==> r is Scattered,
            self is Metal ==> (r matches ScatterOutcome::Scattered { ray, .. } ==> Scalar::of_int(
                0,
            ).less_than(ray@.1.dot_spec(rec.normal))),
            *self matches Material::Dielectric { refractive_index } ==> ({
                let eta_ratio = Material::eta_ratio_spec(refractive_index, rec.front_face);
                let unit = Vec3::unit_vector_spec(ray_in@.1);
                unit.total_reflection_spec(rec.normal, eta_ratio) ==> (r matches ScatterOutcome::Scattered {
                    ray,
                    ..
                } && ray@.1 == unit.reflect_spec(rec.normal))
            }),
    {
        reveal(Material::scatter_spec);
        proof {
            self.lemma_scatter(*ray_in, *rec, *sample);
        }
        match *self {
            Material::Lambertian { albedo } => {
                let direction = rec.normal + Vec3::unit_vector(sample.in_sphere);
                let direction = if direction.near_zero() {
                    rec.normal
                } else {
                    direction
                };
                ScatterOutcome::Scattered { attenuation: albedo, ray: Ray::new(rec.point, direction) }
            },
            Material::Metal { albedo, fuzz } => {
                let reflected = Vec3::unit_vector(ray_in.direction()).reflect(rec.normal);
                let direction = reflected + fuzz * sample.in_sphere;
                if Scalar::zero_value().lt(direction.dot(rec.normal)) {
                    ScatterOutcome::Scattered {
                        attenuation: albedo,
                        ray: Ray::new(rec.point, direction),
                    }
                } else {
                    ScatterOutcome::Absorbed
                }
            },
            Material::Dielectric { refractive_index } => {
                let one = Scalar::one();
                let eta_ratio = if rec.front_face {
                    one / refractive_index
                } else {
                    refractive_index
                };
                let unit = Vec3::unit_vector(ray_in.direction());
                let direction = if unit.total_reflection(rec.normal, eta_ratio) {
                    unit.reflect(rec.normal)
                } else if sample.chance.lt(reflectance(unit.cos_theta(rec.normal), eta_ratio)) {
                    unit.reflect(rec.normal)
                } else {
                    unit.refract(rec.normal, eta_ratio)
                };
                ScatterOutcome::Scattered {
                    attenuation: Vec3::new(one, one, one),
                    ray: Ray::new(rec.point, direction),
                }
            },
        }
    }
}

} // verus!
