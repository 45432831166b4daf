//! A small path tracer whose arithmetic is carried out on binary64 bit patterns
//! in integer code, so that every operation has a proved, exactly rounded result.
//!
//! The numbers:
//! - `grid` lays the nonnegative binary64 numbers out on the number line and says
//!   what rounding to the nearest of them, ties to even, means;
//! - `round` rounds a significand that an operation has computed;
//! - `scalar` is the number type, with `sum`, `product`, `quotient`, `root` and
//!   `order` for its arithmetic and its comparisons;
//! - `laws` holds what is true of that arithmetic in general;
//! - `power` holds the powers of two that all of this is counted in.
//!
//! The tracer:
//! - `vec3`, `ray` and `color` are the geometry;
//! - `sphere` and `hittable_list` find where a ray meets a scene;
//! - `material` scatters a ray that has met a surface;
//! - `tracer` follows a ray through the scene, `camera` casts the rays, `render`
//!   turns them into the color of a pixel, and `ppm` writes the picture;
//! - `random` is the source of the chance that scattering and sampling take.
//!
//! Chance is always handed in as values, so that every function here is
//! determined by its arguments.
pub mod camera;
pub mod color;
pub mod grid;
pub mod hittable_list;
pub mod laws;
pub mod material;
pub mod order;
pub mod power;
pub mod ppm;
pub mod product;
pub mod quotient;
pub mod random;
pub mod ray;
pub mod render;
pub mod root;
pub mod round;
pub mod scalar;
pub mod sphere;
pub mod sum;
pub mod tracer;
pub mod vec3;

pub use color::Color;
pub use scalar::Scalar;
pub use vec3::Vec3;
