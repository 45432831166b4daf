//! Colors, and the step from summed samples to the color of a pixel.
use crate::grid::lemma_order;
use crate::power::lemma_exp2_values;
use crate::scalar::{lemma_literal_rounded, Scalar};
use crate::vec3::Vec3;
use vstd::prelude::*;

verus! {

/// A color: red, green and blue in `x`, `y` and `z`.
pub type Color = Vec3;

/// The largest value of a channel, 0.999: times 256 it is still below 256.
pub fn channel_limit() -> (r: Scalar)
    ensures
        r == Scalar::of_ratio(999, 1000),
        r.bits == 0x3FEF_F7CE_D916_872B,
{
    proof {
        lemma_exp2_values();
        lemma_literal_rounded(0x1F_F7CE_D916_872B, -53, 999, 1000);
    }
    Scalar::from_bits(0x3FEF_F7CE_D916_872B)
}

/// One channel of a pixel from the sum of that channel over the samples, whose
/// number is `count`: the square root of the mean, held between 0 and 0.999.
/// What is not a number becomes 0.
pub open spec fn channel_spec(sum: Scalar, count: Scalar) -> Scalar {
    sum.over(count).sqrt_spec().max_spec(Scalar::of_int(0)).min_spec(Scalar::of_ratio(999, 1000))
}

/// One channel of a pixel from the sum of that channel over the samples.
pub open spec fn sample_spec(sum: Scalar, samples_per_pixel: int) -> Scalar {
    channel_spec(sum, Scalar::of_int(samples_per_pixel))
}

/// Whether a scalar is a number from 0 to 0.999.
pub open spec fn is_channel(c: Scalar) -> bool {
    &&& !c.nan()
    &&& !c.less_than(Scalar::of_int(0))
    &&& !Scalar::of_ratio(999, 1000).less_than(c)
}

fn channel(sum: Scalar, count: Scalar) -> (r: Scalar)
    ensures
        r == channel_spec(sum, count),
        is_channel(r),
{
    let zero = Scalar::zero_value();
    let limit = channel_limit();
    proof {
        lemma_order(limit.ordinal(), 0);
    }
    (sum / count).sqrt().max(zero).min(limit)
}

/// The color of a pixel from the sum of its samples, channel by channel.
pub open spec fn anti_aliased_spec(color: Color, samples_per_pixel: int) -> Color {
    Vec3 {
        x: sample_spec(color.x, samples_per_pixel),
        y: sample_spec(color.y, samples_per_pixel),
        z: sample_spec(color.z, samples_per_pixel),
    }
}

fn mean_color(color: Color, count: Scalar) -> (r: Color)
    ensures
        r.x == channel_spec(color.x, count),
        r.y == channel_spec(color.y, count),
        r.z == channel_spec(color.z, count),
        is_channel(r.x),
        is_channel(r.y),
        is_channel(r.z),
{
    Vec3::new(channel(color.x, count), channel(color.y, count), channel(color.z, count))
}

/// The color of a pixel from the sum of its samples: each channel is the square
/// root of its mean over the samples, held between 0 and 0.999.
pub fn anti_aliased(color: Color, samples_per_pixel: i32) -> (r: Color)
    ensures
        r == anti_aliased_spec(color, samples_per_pixel as int),
        is_channel(r.x),
        is_channel(r.y),
        is_channel(r.z),
{
    mean_color(color, Scalar::from_i32(samples_per_pixel))
}

/// As `anti_aliased`, for any number of samples that a list can hold.
pub fn anti_aliased_over(color: Color, samples: usize) -> (r: Color)
    ensures
        r == anti_aliased_spec(color, samples as int),
        is_channel(r.x),
        is_channel(r.y),
        is_channel(r.z),
{
    mean_color(color, Scalar::from_u64(samples as u64))
}

} // verus!
