//! Spheres, and where a ray meets one.
use crate::material::Material;
use crate::ray::{Point3, Ray};
use crate::scalar::Scalar;
use crate::vec3::Vec3;
use core::ops::Neg;
use vstd::prelude::*;

verus! {

/// Where and how a ray meets a surface.
#[derive(Clone, Copy, Debug)]
pub struct HitRecord {
    /// The point of the ray at `t`.
    pub point: Point3,
    /// The surface normal at that point, turned against the ray.
    pub normal: Vec3,
    /// The parameter of the ray at which it meets the surface.
    pub t: Scalar,
    /// Whether the ray comes from outside the surface.
    pub front_face: bool,
    /// The material of the surface.
    pub material: Material,
}

/// Whether `t` lies strictly between `t_min` and `t_max`. What is not a number
/// lies nowhere.
pub open spec fn within(t: Scalar, t_min: Scalar, t_max: Scalar) -> bool {
    t_min.less_than(t) && t.less_than(t_max)
}

/// A sphere of one material.
#[derive(Clone, Copy, Debug)]
pub struct Sphere {
    pub center: Point3,
    pub radius: Scalar,
    pub material: Material,
}

impl Sphere {
    /// The sphere around `center` with the given radius and material.
    pub fn new(center: Point3, radius: Scalar, material: Material) -> (s: Sphere)
        ensures
            s.center == center,
            s.radius == radius,
            s.material == material,
    {
        Sphere { center, radius, material }
    }

    /// The ray's points `o + t d` on the sphere with center `c` and radius `r` are
    /// those with `a t^2 + 2 h t + k == 0`, where `a` is `d . d`.
    pub open spec fn a_spec(self, ray: Ray) -> Scalar {
        ray@.1.length_squared_spec()
    }

    /// `h` is `(o - c) . d`.
    pub open spec fn h_spec(self, ray: Ray) -> Scalar {
        ray@.0.minus(self.center).dot_spec(ray@.1)
    }

    /// `k` is `(o - c) . (o - c) - r^2`.
    pub open spec fn k_spec(self, ray: Ray) -> Scalar {
        ray@.0.minus(self.center).length_squared_spec().minus(self.radius.times(self.radius))
    }

    /// A quarter of the discriminant: `h^2 - a k`.
    pub open spec fn discriminant_spec(self, ray: Ray) -> Scalar {
        self.h_spec(ray).times(self.h_spec(ray)).minus(self.a_spec(ray).times(self.k_spec(ray)))
    }

    /// The root `(-h - sqrt(h^2 - a k)) / a`.
    pub open spec fn near_root_spec(self, ray: Ray) -> Scalar {
        self.h_spec(ray).negated().minus(self.discriminant_spec(ray).sqrt_spec()).over(
            self.a_spec(ray),
        )
    }

    /// The root `(-h + sqrt(h^2 - a k)) / a`.
    pub open spec fn far_root_spec(self, ray: Ray) -> Scalar {
        self.h_spec(ray).negated().plus(self.discriminant_spec(ray).sqrt_spec()).over(
            self.a_spec(ray),
        )
    }

    /// The normal at `p` that points away from the center: `(p - c) / r`.
    pub open spec fn outward_normal_spec(self, p: Point3) -> Vec3 {
        p.minus(self.center).over(self.radius)
    }

    /// The record of the ray meeting the sphere at `t`. The ray comes from outside
    /// if it runs against the outward normal; the normal of the record is the
    /// outward one then, and its opposite otherwise.
    #[verifier::opaque]
    pub open spec fn record_spec(self, ray: Ray, t: Scalar) -> HitRecord {
        let point = ray.at_spec(t);
        let outward = self.outward_normal_spec(point);
        let front_face = ray@.1.dot_spec(outward).less_than(Scalar::of_int(0));
        HitRecord {
            point,
            normal: if front_face {
                outward
            } else {
                outward.negated()
            },
            t,
            front_face,
            material: self.material,
        }
    }

    /// Where the ray meets the sphere strictly between `t_min` and `t_max`:
    /// nowhere if the discriminant is negative; else at the near root if that lies
    /// in the range; else at the far root if that does; else nowhere.
    #[verifier::opaque]
    pub open spec fn hit_spec(self, ray: Ray, t_min: Scalar, t_max: Scalar) -> Option<HitRecord> {
        if self.discriminant_spec(ray).less_than(Scalar::of_int(0)) {
            None
        } else if within(self.near_root_spec(ray), t_min, t_max) {
            Some(self.record_spec(ray, self.near_root_spec(ray)))
        } else if within(self.far_root_spec(ray), t_min, t_max) {
            Some(self.record_spec(ray, self.far_root_spec(ray)))
        } else {
            None
        }
    }

    /// What a record holds whatever the geometry.
    pub proof fn lemma_record(self, ray: Ray, t: Scalar)
        ensures
            self.record_spec(ray, t).t == t,
            self.record_spec(ray, t).point == ray.at_spec(t),
            self.record_spec(ray, t).material == self.material,
    {
        reveal(Sphere::record_spec);
    }

    /// The normal of a record never points along the ray: the ray's direction
    /// has no positive share along it. Where the ray comes from outside, the
    /// share is negative.
    pub proof fn lemma_normal_opposes(self, ray: Ray, t: Scalar)
        ensures
            !Scalar::of_int(0).less_than(ray@.1.dot_spec(self.record_spec(ray, t).normal)),
            self.record_spec(ray, t).front_face ==> ray@.1.dot_spec(
                self.record_spec(ray, t).normal,
            ).less_than(Scalar::of_int(0)),
    {
        reveal(Sphere::record_spec);
        let outward = self.outward_normal_spec(ray.at_spec(t));
        crate::laws::lemma_dot_opposite(ray@.1, outward);
        crate::scalar::lemma_zero_and_one();
    }

    /// A sphere is met at one of its two roots, strictly between the bounds.
    pub proof fn lemma_hit(self, ray: Ray, t_min: Scalar, t_max: Scalar)
        ensures
            self.hit_spec(ray, t_min, t_max) matches Some(rec) ==> within(rec.t, t_min, t_max)
                && rec == self.record_spec(ray, rec.t) && (rec.t == self.near_root_spec(ray)
                || rec.t == self.far_root_spec(ray)),
    {
        reveal(Sphere::hit_spec);
        self.lemma_record(ray, self.near_root_spec(ray));
        self.lemma_record(ray, self.far_root_spec(ray));
    }

    /// A sphere that is not met under one bound is not met under a lower one.
    pub proof fn lemma_miss_under_lower_bound(
        self,
        ray: Ray,
        t_min: Scalar,
        t_max: Scalar,
        lower: Scalar,
    )
        requires
            self.hit_spec(ray, t_min, t_max) is None,
            lower.less_than(t_max) || lower == t_max,
        ensures
            self.hit_spec(ray, t_min, lower) is None,
    {
        reveal(Sphere::hit_spec);
    }

    /// The far root is not less than the near one.
    pub proof fn lemma_roots_ordered(self, ray: Ray)
        ensures
            !self.far_root_spec(ray).less_than(self.near_root_spec(ray)),
    {
        let x = self.h_spec(ray).negated();
        let s = self.discriminant_spec(ray).sqrt_spec();
        let a = self.a_spec(ray);
        let n1 = x.plus(s.negated());
        let n2 = x.plus(s);
        crate::laws::lemma_negated(s);
        if s.nan() {
            crate::laws::lemma_nan_spreads(x, s);
            crate::laws::lemma_nan_spreads(n2, a);
        } else {
            crate::laws::lemma_sqrt_nonnegative(self.discriminant_spec(ray));
            crate::laws::lemma_plus_monotone(x, s.negated(), s);
            if n1.nan() {
                crate::laws::lemma_nan_spreads(n1, a);
            } else if n2.nan() {
                crate::laws::lemma_nan_spreads(n2, a);
            } else {
                crate::laws::lemma_length_squared_sign(ray@.1);
                crate::laws::lemma_over_monotone(n1, n2, a);
            }
        }
    }

    /// Where a sphere is met, it is not met nearer: asked again under the
    /// distance of the point returned, it is not met at all.
    pub proof fn lemma_hit_is_nearest(self, ray: Ray, t_min: Scalar, t_max: Scalar)
        ensures
            self.hit_spec(ray, t_min, t_max) matches Some(rec) ==> self.hit_spec(
                ray,
                t_min,
                rec.t,
            ) is None,
    {
        reveal(Sphere::hit_spec);
        self.lemma_roots_ordered(ray);
        self.lemma_record(ray, self.near_root_spec(ray));
        self.lemma_record(ray, self.far_root_spec(ray));
    }

    fn record(&self, ray: &Ray, t: Scalar) -> (rec: HitRecord)
        ensures
            rec == self.record_spec(*ray, t),
    {
        reveal(Sphere::record_spec);
        let point = ray.at(t);
        let outward = (point - self.center) / self.radius;
        let front_face = ray.direction().dot(outward).lt(Scalar::zero_value());
        HitRecord {
            point,
            normal: if front_face {
                outward
            } else {
                outward.neg()
            },
            t,
            front_face,
            material: self.material,
        }
    }

    /// Where the ray meets the sphere strictly between `t_min` and `t_max`, if it
    /// does: the nearer of the two such points. The point recorded is the ray's
    /// point at the distance recorded, the normal recorded stands against the
    /// ray, and under the distance recorded the ray does not meet the sphere.
    pub fn hit(&self, ray: &Ray, t_min: Scalar, t_max: Scalar) -> (r: Option<HitRecord>)
        ensures
            r == self.hit_spec(*ray, t_min, t_max),
            r matches Some(rec) ==> within(rec.t, t_min, t_max) && rec.point == ray.at_spec(rec.t)
                && rec.material == self.material && !Scalar::of_int(0).less_than(
                ray@.1.dot_spec(rec.normal),
            ) && self.hit_spec(*ray, t_min, rec.t) is None,
    {
        reveal(Sphere::hit_spec);
        reveal(Sphere::record_spec);
        proof {
            self.lemma_hit(*ray, t_min, t_max);
            self.lemma_hit_is_nearest(*ray, t_min, t_max);
            self.lemma_normal_opposes(*ray, self.near_root_spec(*ray));
            self.lemma_normal_opposes(*ray, self.far_root_spec(*ray));
        }
        let oc = ray.origin() - self.center;
        let a = ray.direction().length_squared();
        let h = oc.dot(ray.direction());
        let k = oc.length_squared() - self.radius * self.radius;
        let discriminant = h * h - a * k;
        if discriminant.lt(Scalar::zero_value()) {
            return None;
        }
        let root = discriminant.sqrt();
        let near = (h.neg() - root) / a;
        if t_min.lt(near) && near.lt(t_max) {
            return Some(self.record(ray, near));
        }
        let far = (h.neg() + root) / a;
        if t_min.lt(far) && far.lt(t_max) {
            return Some(self.record(ray, far));
        }
        None
    }
}

} // verus!
