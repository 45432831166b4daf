//! The path integrator: the light that arrives along a ray.
use crate::color::Color;
use crate::grid::INFINITY_ORDINAL;
use crate::hittable_list::{closest_spec, HittableList};
use crate::material::{Sample, ScatterOutcome};
use crate::power::lemma_exp2_values;
use crate::ray::Ray;
use crate::scalar::{lemma_literal_rounded, Scalar};
use crate::sphere::Sphere;
use crate::vec3::Vec3;
use vstd::prelude::*;

verus! {

/// No light: (0, 0, 0).
pub open spec fn black() -> Color {
    Vec3 { x: Scalar::of_int(0), y: Scalar::of_int(0), z: Scalar::of_int(0) }
}

/// How far along a ray a surface must lie to count as met: 0.001. A scattered
/// ray starts on a surface, and rounding would let it meet that surface again at
/// once.
pub fn nearest_distance() -> (r: Scalar)
    ensures
        r == Scalar::of_ratio(1, 1000),
{
    proof {
        lemma_exp2_values();
        vstd::arithmetic::power2::lemma2_to64_rest();
        assert(crate::power::exp2(62) == 0x4000_0000_0000_0000);
        lemma_literal_rounded(0x10_624D_D2F1_A9FC, -62, 1, 1000);
    }
    Scalar::from_bits(0x3F50_624D_D2F1_A9FC)
}

/// The light that arrives along `ray` in the scene `objects`, followed over at
/// most `depth` surfaces, with `samples[0]` as the chance of the first
/// scattering, `samples[1]` of the second, and so on.
/// - With no depth left there is no light.
/// - A ray that meets nothing farther than 0.001 brings the background's color.
/// - A ray that meets a surface when no chance is left brings no light.
/// - A ray that a surface swallows brings no light.
/// - A ray that a surface scatters brings the light of the scattered ray, each
///   channel dimmed by the surface's attenuation.
pub open spec fn trace_spec(ray: Ray, objects: Seq<Sphere>, depth: nat, samples: Seq<Sample>)
    -> Color
    decreases depth,
{
    if depth == 0 {
        black()
    } else {
        match closest_spec(
            objects,
            ray,
            Scalar::of_ratio(1, 1000),
            Scalar::signed(false, INFINITY_ORDINAL as int),
        ) {
            None => ray.color_spec(),
            Some(rec) => if samples.len() == 0 {
                black()
            } else {
                match rec.material.scatter_spec(ray, rec, samples[0]) {
                    ScatterOutcome::Absorbed => black(),
                    ScatterOutcome::Scattered { attenuation, ray: scattered } => attenuation.times(
                        trace_spec(scattered, objects, (depth - 1) as nat, samples.skip(1)),
                    ),
                }
            },
        }
    }
}

/// The light `light` dimmed by each of `dims` in turn, the last of them first.
pub open spec fn dimmed(dims: Seq<Color>, light: Color) -> Color
    decreases dims.len(),
{
    if dims.len() == 0 {
        light
    } else {
        dimmed(dims.drop_last(), dims.last().times(light))
    }
}

/// The light that arrives along `ray`, followed over at most `depth` surfaces.
/// `samples` holds the chance of each scattering in turn; light is followed no
/// farther than there is chance for. With no depth there is no light, and in a
/// scene without surfaces the light is the background's.
pub fn trace(ray: &Ray, world: &HittableList, depth: usize, samples: &Vec<Sample>) -> (c: Color)
    ensures
        c == trace_spec(*ray, world@, depth as nat, samples@),
        depth == 0 ==> c == black(),
        depth > 0 && world@.len() == 0 ==> c == ray.color_spec(),
{
    let zero = Scalar::zero_value();
    let ghost whole = trace_spec(*ray, world@, depth as nat, samples@);
    // The way down: from surface to surface, keeping how each one dims the light.
    let mut dims: Vec<Color> = Vec::new();
    let mut current: Ray = *ray;
    let mut left: usize = depth;
    let mut first: usize = 0;
    let mut light: Color = Vec3::new(zero, zero, zero);
    let mut done: bool = false;
    proof {
        assert(samples@.skip(0) == samples@);
    }
    while !done
        invariant
            first <= samples.len(),
            !done ==> light == black(),
            !done ==> whole == dimmed(
                dims@,
                trace_spec(current, world@, left as nat, samples@.skip(first as int)),
            ),
            done ==> whole == dimmed(dims@, light),
        decreases left + (if done { 0int } else { 1int }),
    {
        if left == 0 {
            done = true;
        } else {
            match world.hit(&current, nearest_distance(), Scalar::infinity()) {
                None => {
                    light = current.color();
                    done = true;
                },
                Some(rec) => {
                    if first >= samples.len() {
                        done = true;
                    } else {
                        match rec.material.scatter(&current, &rec, &samples[first]) {
                            ScatterOutcome::Absorbed => {
                                done = true;
                            },
                            ScatterOutcome::Scattered { attenuation, ray: scattered } => {
                                proof {
                                    assert(samples@.skip(first as int).skip(1) == samples@.skip(
                                        first + 1,
                                    ));
                                    assert(dims@.push(attenuation).drop_last() == dims@);
                                }
                                dims.push(attenuation);
                                current = scattered;
                                left = left - 1;
                                first = first + 1;
                            },
                        }
                    }
                },
            }
        }
    }
    // The way back: the light at the end, dimmed by each surface in turn.
    let mut k: usize = dims.len();
    proof {
        assert(dims@.take(k as int) == dims@);
    }
    while k > 0
        invariant
            k <= dims.len(),
            whole == dimmed(dims@.take(k as int), light),
        decreases k,
    {
        proof {
            assert(dims@.take(k as int).drop_last() == dims@.take(k - 1));
        }
        k = k - 1;
        light = dims[k] * light;
    }
    light
}

} // verus!
