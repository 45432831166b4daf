//! The camera: from a place on the image to the ray that lights it.
use crate::ray::{Point3, Ray};
use crate::scalar::Scalar;
use crate::vec3::Vec3;
use vstd::prelude::*;

verus! {

/// A camera with a thin lens. All of it follows from the seven values that
/// `Camera::new` takes, and none of it changes afterwards.
#[derive(Clone, Copy, Debug)]
pub struct Camera {
    /// Where the camera stands.
    pub origin: Point3,
    /// The corner of the image at the lower left, on the plane that is in focus.
    pub lower_left_corner: Point3,
    /// From the left edge of the image to the right one, on that plane.
    pub horizontal: Vec3,
    /// From the lower edge of the image to the upper one, on that plane.
    pub vertical: Vec3,
    /// The unit vector to the camera's right.
    pub u: Vec3,
    /// The unit vector upwards as the camera sees it.
    pub v: Vec3,
    /// The unit vector from what the camera looks at to the camera.
    pub w: Vec3,
    /// Half the aperture.
    pub lens_radius: Scalar,
}

impl Camera {
    /// The camera that stands at `lookfrom` and looks at `lookat`, with `vup`
    /// pointing upwards. `half_height` is the tangent of half the vertical field
    /// of view: half the height of the image at distance 1. The image is
    /// `aspect_ratio` times as wide as high, the lens is `aperture` wide, and
    /// what lies `focus_dist` away is in focus.
    pub open spec fn new_spec(
        lookfrom: Point3,
        lookat: Point3,
        vup: Vec3,
        half_height: Scalar,
        aspect_ratio: Scalar,
        aperture: Scalar,
        focus_dist: Scalar,
    ) -> Camera {
        let viewport_height = Scalar::of_int(2).times(half_height);
        let viewport_width = aspect_ratio.times(viewport_height);
        let w = Vec3::unit_vector_spec(lookfrom.minus(lookat));
        let u = Vec3::unit_vector_spec(vup.cross_spec(w));
        let v = w.cross_spec(u);
        let horizontal = focus_dist.times(viewport_width).scale(u);
        let vertical = focus_dist.times(viewport_height).scale(v);
        let two = Scalar::of_int(2);
        Camera {
            origin: lookfrom,
            lower_left_corner: lookfrom.minus(horizontal.over(two)).minus(vertical.over(two)).minus(
                focus_dist.scale(w),
            ),
            horizontal,
            vertical,
            u,
            v,
            w,
            lens_radius: aperture.over(two),
        }
    }

    /// The camera with the given place, aim, field of view and lens.
    pub fn new(
        lookfrom: &Point3,
        lookat: &Point3,
        vup: &Vec3,
        half_height: Scalar,
        aspect_ratio: Scalar,
        aperture: Scalar,
        focus_dist: Scalar,
    ) -> (c: Camera)
        ensures
            c == Camera::new_spec(
                *lookfrom,
                *lookat,
                *vup,
                half_height,
                aspect_ratio,
                aperture,
                focus_dist,
            ),
    {
        let two = Scalar::from_i32(2);
        let viewport_height = two * half_height;
        let viewport_width = aspect_ratio * viewport_height;
        let w = Vec3::unit_vector(*lookfrom - *lookat);
        let u = Vec3::unit_vector(vup.cross(w));
        let v = w.cross(u);
        let horizontal = (focus_dist * viewport_width) * u;
        let vertical = (focus_dist * viewport_height) * v;
        Camera {
            origin: *lookfrom,
            lower_left_corner: *lookfrom - horizontal / two - vertical / two - focus_dist * w,
            horizontal,
            vertical,
            u,
            v,
            w,
            lens_radius: aperture / two,
        }
    }

    /// Where on the lens the ray starts, seen from its middle: the point `lens`
    /// of the unit disk, scaled to the lens and laid into the camera's plane.
    pub open spec fn offset_spec(self, lens: Vec3) -> Vec3 {
        let rd = self.lens_radius.scale(lens);
        self.u.scaled(rd.x).plus(self.v.scaled(rd.y))
    }

    /// The ray for the place `(s, t)` of the image, both from 0 to 1, `s` from
    /// the left and `t` from below: from the point of the lens that `lens` picks
    /// to the point of the plane in focus that `(s, t)` picks.
    pub open spec fn get_ray_spec(self, s: Scalar, t: Scalar, lens: Vec3) -> Ray {
        let offset = self.offset_spec(lens);
        Ray::from_view(
            (
                self.origin.plus(offset),
                self.lower_left_corner.plus(s.scale(self.horizontal)).plus(
                    t.scale(self.vertical),
                ).minus(self.origin).minus(offset),
            ),
        )
    }

    /// The ray for the place `(s, t)` of the image, through the point `lens` of the lens.
    pub fn get_ray(&self, s: Scalar, t: Scalar, lens: Vec3) -> (r: Ray)
        ensures
            r == self.get_ray_spec(s, t, lens),
    {
        let rd = self.lens_radius * lens;
        let offset = self.u * rd.x() + self.v * rd.y();
        Ray::new(
            self.origin + offset,
            self.lower_left_corner + s * self.horizontal + t * self.vertical - self.origin
                - offset,
        )
    }
}

} // verus!
