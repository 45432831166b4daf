//! Vectors of three scalars.
use crate::power::{lemma_exp2_add, lemma_exp2_values};
use crate::scalar::{lemma_literal_rounded, Scalar};
use core::ops::Neg;
use vstd::prelude::*;
use vstd::std_specs::cmp::PartialEqSpecImpl;

verus! {

/// A vector, a point or a color: three scalars.
#[derive(Clone, Copy, Debug)]
pub struct Vec3 {
    pub x: Scalar,
    pub y: Scalar,
    pub z: Scalar,
}

impl Vec3 {
    /// The vector with the given components.
    pub fn new(x: Scalar, y: Scalar, z: Scalar) -> (v: Vec3)
        ensures
            v.x == x,
            v.y == y,
            v.z == z,
    {
        Vec3 { x, y, z }
    }

    /// The first component.
    pub fn x(&self) -> (r: Scalar)
        ensures
            r == self.x,
    {
        self.x
    }

    /// The second component.
    pub fn y(&self) -> (r: Scalar)
        ensures
            r == self.y,
    {
        self.y
    }

    /// The third component.
    pub fn z(&self) -> (r: Scalar)
        ensures
            r == self.z,
    {
        self.z
    }

    /// The dot product, its three products summed from left to right.
    pub open spec fn dot_spec(self, other: Vec3) -> Scalar {
        self.x.times(other.x).plus(self.y.times(other.y)).plus(self.z.times(other.z))
    }

    /// The dot product.
    pub fn dot(self, other: Vec3) -> (r: Scalar)
        ensures
            r == self.dot_spec(other),
    {
        self.x * other.x + self.y * other.y + self.z * other.z
    }

    /// The cross product.
    pub open spec fn cross_spec(self, other: Vec3) -> Vec3 {
        Vec3 {
            x: self.y.times(other.z).minus(self.z.times(other.y)),
            y: self.z.times(other.x).minus(self.x.times(other.z)),
            z: self.x.times(other.y).minus(self.y.times(other.x)),
        }
    }

    /// The cross product.
    pub fn cross(self, other: Vec3) -> (r: Vec3)
        ensures
            r == self.cross_spec(other),
    {
        Vec3 {
            x: self.y * other.z - self.z * other.y,
            y: self.z * other.x - self.x * other.z,
            z: self.x * other.y - self.y * other.x,
        }
    }

    /// The dot product of the vector with itself.
    pub open spec fn length_squared_spec(self) -> Scalar {
        self.dot_spec(self)
    }

    /// The square of the length.
    pub fn length_squared(self) -> (r: Scalar)
        ensures
            r == self.length_squared_spec(),
    {
        self.dot(self)
    }

    /// The square root of `length_squared_spec`.
    pub open spec fn length_spec(self) -> Scalar {
        self.length_squared_spec().sqrt_spec()
    }

    /// The length.
    pub fn length(self) -> (r: Scalar)
        ensures
            r == self.length_spec(),
    {
        self.length_squared().sqrt()
    }

    /// Each component over the vector's length. Of the zero vector, whose length
    /// is zero, no component is a number.
    pub open spec fn unit_vector_spec(v: Vec3) -> Vec3 {
        v.over(v.length_spec())
    }

    /// The vector of length one in the direction of `v`.
    pub fn unit_vector(v: Vec3) -> (r: Vec3)
        ensures
            r == Vec3::unit_vector_spec(v),
    {
        v / v.length()
    }

    /// The vector mirrored at the plane with normal `n`: `v - 2 * dot(v, n) * n`.
    pub open spec fn reflect_spec(self, n: Vec3) -> Vec3 {
        self.minus(n.scaled(Scalar::of_int(2).times(self.dot_spec(n))))
    }

    /// The vector mirrored at the plane with normal `n`.
    pub fn reflect(self, n: Vec3) -> (r: Vec3)
        ensures
            r == self.reflect_spec(n),
    {
        let two = Scalar::from_i32(2);
        self - n * (two * self.dot(n))
    }
}

impl Vec3 {
    /// The sum, component by component.
    pub open spec fn plus(self, rhs: Vec3) -> Vec3 {
        Vec3 { x: self.x.plus(rhs.x), y: self.y.plus(rhs.y), z: self.z.plus(rhs.z) }
    }

    /// The difference, component by component.
    pub open spec fn minus(self, rhs: Vec3) -> Vec3 {
        Vec3 { x: self.x.minus(rhs.x), y: self.y.minus(rhs.y), z: self.z.minus(rhs.z) }
    }

    /// Each component with its sign turned.
    pub open spec fn negated(self) -> Vec3 {
        Vec3 { x: self.x.negated(), y: self.y.negated(), z: self.z.negated() }
    }

    /// Each component times the scalar.
    pub open spec fn scaled(self, rhs: Scalar) -> Vec3 {
        Vec3 { x: self.x.times(rhs), y: self.y.times(rhs), z: self.z.times(rhs) }
    }

    /// The product, component by component.
    pub open spec fn times(self, rhs: Vec3) -> Vec3 {
        Vec3 { x: self.x.times(rhs.x), y: self.y.times(rhs.y), z: self.z.times(rhs.z) }
    }

    /// Each component over the scalar.
    pub open spec fn over(self, rhs: Scalar) -> Vec3 {
        Vec3 { x: self.x.over(rhs), y: self.y.over(rhs), z: self.z.over(rhs) }
    }

    /// The quotient, component by component.
    pub open spec fn divided(self, rhs: Vec3) -> Vec3 {
        Vec3 { x: self.x.over(rhs.x), y: self.y.over(rhs.y), z: self.z.over(rhs.z) }
    }
}

/// The size under which a component counts as zero: 1e-8.
pub fn negligible() -> (r: Scalar)
    ensures
        r == Scalar::of_ratio(1, 100_000_000),
{
    proof {
        lemma_exp2_values();
        lemma_exp2_add(64, 15);
        vstd::arithmetic::power2::lemma2_to64();
        assert(crate::power::exp2(79) == 0x8000_0000_0000_0000_0000);
        lemma_literal_rounded(0x15_798E_E230_8C3A, -79, 1, 100_000_000);
    }
    Scalar::from_bits(0x3E45_798E_E230_8C3A)
}

impl Vec3 {
    /// Whether every component is smaller in size than 1e-8.
    pub open spec fn near_zero_spec(self) -> bool {
        let eps = Scalar::of_ratio(1, 100_000_000);
        self.x.abs_spec().less_than(eps) && self.y.abs_spec().less_than(eps)
            && self.z.abs_spec().less_than(eps)
    }

    /// Whether every component is smaller in size than 1e-8.
    pub fn near_zero(self) -> (r: bool)
        ensures
            r == self.near_zero_spec(),
    {
        let eps = negligible();
        self.x.abs().lt(eps) && self.y.abs().lt(eps) && self.z.abs().lt(eps)
    }

    /// The cosine of the angle at which the unit vector `self` falls on a surface
    /// with unit normal `n`, at most 1: the lesser of `dot(-self, n)` and 1.
    pub open spec fn cos_theta_spec(self, n: Vec3) -> Scalar {
        self.negated().dot_spec(n).min_spec(Scalar::of_int(1))
    }

    /// The cosine of the angle at which the vector falls on a surface.
    pub fn cos_theta(self, n: Vec3) -> (r: Scalar)
        ensures
            r == self.cos_theta_spec(n),
    {
        self.neg().dot(n).min(Scalar::one())
    }

    /// What Snell's law takes the root of: `1 - eta^2 * sin^2`, where `sin^2` is
    /// `1 - cos^2`.
    pub open spec fn snell_spec(self, n: Vec3, eta_ratio: Scalar) -> Scalar {
        let cos = self.cos_theta_spec(n);
        let sin2 = Scalar::of_int(1).minus(cos.times(cos));
        Scalar::of_int(1).minus(eta_ratio.times(eta_ratio).times(sin2))
    }

    /// Whether light cannot pass the surface: `eta^2 * sin^2 > 1`, so that Snell's
    /// law has no solution and all of it is mirrored.
    pub open spec fn total_reflection_spec(self, n: Vec3, eta_ratio: Scalar) -> bool {
        let cos = self.cos_theta_spec(n);
        let sin2 = Scalar::of_int(1).minus(cos.times(cos));
        Scalar::of_int(1).less_than(eta_ratio.times(eta_ratio).times(sin2))
    }

    /// Whether light along the vector cannot pass the surface.
    pub fn total_reflection(self, n: Vec3, eta_ratio: Scalar) -> (r: bool)
        ensures
            r == self.total_reflection_spec(n, eta_ratio),
    {
        let one = Scalar::one();
        let cos = self.cos_theta(n);
        let sin2 = one - cos * cos;
        one.lt(eta_ratio * eta_ratio * sin2)
    }

    /// The unit vector `self` bent on entering a medium, at a surface with unit
    /// normal `n`, where `eta_ratio` is the refractive index on the side it comes
    /// from over that on the side it enters: the part across the normal,
    /// `eta * (self + cos * n)`, less `sqrt(1 - eta^2 * sin^2) * n` along it.
    pub open spec fn refract_spec(self, n: Vec3, eta_ratio: Scalar) -> Vec3 {
        let cos = self.cos_theta_spec(n);
        let across = eta_ratio.scale(self.plus(cos.scale(n)));
        let along = self.snell_spec(n, eta_ratio).sqrt_spec().negated().scale(n);
        across.plus(along)
    }

    /// Refraction by Snell's law. It is for light that can pass: where all of it
    /// is mirrored there is nothing to compute, and the caller reflects instead.
    pub fn refract(self, n: Vec3, eta_ratio: Scalar) -> (r: Vec3)
        requires
            !self.total_reflection_spec(n, eta_ratio),
        ensures
            r == self.refract_spec(n, eta_ratio),
    {
        let one = Scalar::one();
        let cos = self.cos_theta(n);
        let sin2 = one - cos * cos;
        let under_root = one - eta_ratio * eta_ratio * sin2;
        let across = eta_ratio * (self + cos * n);
        let along = under_root.sqrt().neg() * n;
        across + along
    }
}

impl Vec3 {
    /// Equality of the three components as values.
    pub open spec fn same_value(self, other: Vec3) -> bool {
        self.x.same_value(other.x) && self.y.same_value(other.y) && self.z.same_value(other.z)
    }
}

impl Scalar {
    /// The scalar times each component.
    pub open spec fn scale(self, rhs: Vec3) -> Vec3 {
        Vec3 { x: self.times(rhs.x), y: self.times(rhs.y), z: self.times(rhs.z) }
    }
}

impl vstd::std_specs::ops::AddSpecImpl for Vec3 {
    open spec fn obeys_add_spec() -> bool {
        true
    }

    open spec fn add_req(self, rhs: Vec3) -> bool {
        true
    }

    open spec fn add_spec(self, rhs: Vec3) -> Vec3 {
        self.plus(rhs)
    }
}

impl core::ops::Add for Vec3 {
    type Output = Vec3;

    fn add(self, rhs: Vec3) -> (r: Vec3) {
        Vec3 { x: self.x + rhs.x, y: self.y + rhs.y, z: self.z + rhs.z }
    }
}

impl vstd::std_specs::ops::SubSpecImpl for Vec3 {
    open spec fn obeys_sub_spec() -> bool {
        true
    }

    open spec fn sub_req(self, rhs: Vec3) -> bool {
        true
    }

    open spec fn sub_spec(self, rhs: Vec3) -> Vec3 {
        self.minus(rhs)
    }
}

impl core::ops::Sub for Vec3 {
    type Output = Vec3;

    fn sub(self, rhs: Vec3) -> (r: Vec3) {
        Vec3 { x: self.x - rhs.x, y: self.y - rhs.y, z: self.z - rhs.z }
    }
}

impl vstd::std_specs::ops::NegSpecImpl for Vec3 {
    open spec fn obeys_neg_spec() -> bool {
        true
    }

    open spec fn neg_req(self) -> bool {
        true
    }

    open spec fn neg_spec(self) -> Vec3 {
        self.negated()
    }
}

impl core::ops::Neg for Vec3 {
    type Output = Vec3;

    fn neg(self) -> (r: Vec3) {
        Vec3 {
            x: core::ops::Neg::neg(self.x),
            y: core::ops::Neg::neg(self.y),
            z: core::ops::Neg::neg(self.z),
        }
    }
}

impl vstd::std_specs::ops::MulSpecImpl<Scalar> for Vec3 {
    open spec fn obeys_mul_spec() -> bool {
        true
    }

    open spec fn mul_req(self, rhs: Scalar) -> bool {
        true
    }

    open spec fn mul_spec(self, rhs: Scalar) -> Vec3 {
        self.scaled(rhs)
    }
}

impl core::ops::Mul<Scalar> for Vec3 {
    type Output = Vec3;

    fn mul(self, rhs: Scalar) -> (r: Vec3) {
        Vec3 { x: self.x * rhs, y: self.y * rhs, z: self.z * rhs }
    }
}

impl vstd::std_specs::ops::MulSpecImpl<Vec3> for Scalar {
    open spec fn obeys_mul_spec() -> bool {
        true
    }

    open spec fn mul_req(self, rhs: Vec3) -> bool {
        true
    }

    open spec fn mul_spec(self, rhs: Vec3) -> Vec3 {
        self.scale(rhs)
    }
}

impl core::ops::Mul<Vec3> for Scalar {
    type Output = Vec3;

    fn mul(self, rhs: Vec3) -> (r: Vec3) {
        Vec3 { x: self * rhs.x, y: self * rhs.y, z: self * rhs.z }
    }
}

impl vstd::std_specs::ops::MulSpecImpl<Vec3> for Vec3 {
    open spec fn obeys_mul_spec() -> bool {
        true
    }

    open spec fn mul_req(self, rhs: Vec3) -> bool {
        true
    }

    open spec fn mul_spec(self, rhs: Vec3) -> Vec3 {
        self.times(rhs)
    }
}

impl core::ops::Mul<Vec3> for Vec3 {
    type Output = Vec3;

    fn mul(self, rhs: Vec3) -> (r: Vec3) {
        Vec3 { x: self.x * rhs.x, y: self.y * rhs.y, z: self.z * rhs.z }
    }
}

impl vstd::std_specs::ops::DivSpecImpl<Scalar> for Vec3 {
    open spec fn obeys_div_spec() -> bool {
        true
    }

    open spec fn div_req(self, rhs: Scalar) -> bool {
        true
    }

    open spec fn div_spec(self, rhs: Scalar) -> Vec3 {
        self.over(rhs)
    }
}

impl core::ops::Div<Scalar> for Vec3 {
    type Output = Vec3;

    fn div(self, rhs: Scalar) -> (r: Vec3) {
        Vec3 { x: self.x / rhs, y: self.y / rhs, z: self.z / rhs }
    }
}

impl vstd::std_specs::ops::DivSpecImpl<Vec3> for Vec3 {
    open spec fn obeys_div_spec() -> bool {
        true
    }

    open spec fn div_req(self, rhs: Vec3) -> bool {
        true
    }

    open spec fn div_spec(self, rhs: Vec3) -> Vec3 {
        self.divided(rhs)
    }
}

impl core::ops::Div<Vec3> for Vec3 {
    type Output = Vec3;

    fn div(self, rhs: Vec3) -> (r: Vec3) {
        Vec3 { x: self.x / rhs.x, y: self.y / rhs.y, z: self.z / rhs.z }
    }
}

impl PartialEqSpecImpl for Vec3 {
    open spec fn obeys_eq_spec() -> bool {
        true
    }

    open spec fn eq_spec(&self, other: &Vec3) -> bool {
        self.same_value(*other)
    }
}

impl PartialEq for Vec3 {
    fn eq(&self, other: &Vec3) -> (r: bool) {
        self.x.equals(other.x) && self.y.equals(other.y) && self.z.equals(other.z)
    }
}

} // verus!
