//! Rays: half-lines from an origin along a direction.
use crate::color::Color;
use crate::power::lemma_exp2_values;
use crate::scalar::{lemma_literal_rounded, Scalar};
use crate::vec3::Vec3;
use vstd::prelude::*;
use vstd::std_specs::cmp::PartialEqSpecImpl;

verus! {

/// A point in space.
pub type Point3 = Vec3;

/// A ray: the points `origin + t * direction`.
#[derive(Debug, Copy, Clone)]
pub struct Ray {
    orig: Point3,
    dir: Vec3,
}

impl View for Ray {
    type V = (Point3, Vec3);

    /// The origin and the direction.
    closed spec fn view(&self) -> (Point3, Vec3) {
        (self.orig, self.dir)
    }
}

/// The color of the sky straight overhead: (0.5, 0.7, 1).
pub open spec fn sky_blue() -> Color {
    Vec3 { x: Scalar::of_ratio(1, 2), y: Scalar::of_ratio(7, 10), z: Scalar::of_int(1) }
}

/// White: (1, 1, 1).
pub open spec fn white() -> Color {
    Vec3 { x: Scalar::of_int(1), y: Scalar::of_int(1), z: Scalar::of_int(1) }
}

fn seven_tenths() -> (r: Scalar)
    ensures
        r == Scalar::of_ratio(7, 10),
{
    proof {
        lemma_exp2_values();
        lemma_literal_rounded(0x16_6666_6666_6666, -53, 7, 10);
    }
    Scalar::from_bits(0x3FE6_6666_6666_6666)
}

impl Ray {
    /// The ray with the given origin and direction.
    pub closed spec fn from_view(v: (Point3, Vec3)) -> Ray {
        Ray { orig: v.0, dir: v.1 }
    }

    /// A ray is its origin and its direction, and nothing else.
    pub broadcast proof fn lemma_from_view(v: (Point3, Vec3))
        ensures
            (#[trigger] Ray::from_view(v))@ == v,
    {
    }

    /// The ray from `orig` along `dir`.
    pub fn new(orig: Point3, dir: Vec3) -> (r: Ray)
        ensures
            r@ == (orig, dir),
            r == Ray::from_view((orig, dir)),
    {
        Ray { orig, dir }
    }

    /// Where the ray starts.
    pub fn origin(&self) -> (p: Point3)
        ensures
            p == self@.0,
    {
        self.orig
    }

    /// The direction of the ray, of any length.
    pub fn direction(&self) -> (d: Vec3)
        ensures
            d == self@.1,
    {
        self.dir
    }

    /// The point at parameter `t`: the origin plus `t` times the direction.
    pub open spec fn at_spec(self, t: Scalar) -> Point3 {
        self@.0.plus(self@.1.scaled(t))
    }

    /// The point of the ray at parameter `t`.
    pub fn at(&self, t: Scalar) -> (p: Point3)
        ensures
            p == self.at_spec(t),
    {
        self.orig + self.dir * t
    }

    /// The color of the background in the ray's direction: white and sky blue
    /// blended by `t`, half of one more than the height of the unit direction:
    /// `(1 - t) * white + t * sky_blue`.
    pub open spec fn color_spec(self) -> Color {
        let unit = Vec3::unit_vector_spec(self@.1);
        let t = Scalar::of_ratio(1, 2).times(unit.y.plus(Scalar::of_int(1)));
        Scalar::of_int(1).minus(t).scale(white()).plus(t.scale(sky_blue()))
    }

    /// The color of the background in the ray's direction.
    pub fn color(self) -> (c: Color)
        ensures
            c == self.color_spec(),
    {
        let one = Scalar::one();
        let unit = Vec3::unit_vector(self.dir);
        let t = Scalar::half() * (unit.y() + one);
        (one - t) * Vec3::new(one, one, one) + t * Vec3::new(Scalar::half(), seven_tenths(), one)
    }
}

impl PartialEqSpecImpl for Ray {
    open spec fn obeys_eq_spec() -> bool {
        true
    }

    /// Equality of origin and direction as values.
    open spec fn eq_spec(&self, other: &Ray) -> bool {
        self@.0.same_value(other@.0) && self@.1.same_value(other@.1)
    }
}

impl PartialEq for Ray {
    fn eq(&self, other: &Ray) -> (r: bool) {
        self.orig == other.orig && self.dir == other.dir
    }
}

} // verus!
