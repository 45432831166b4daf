//! From rays to pictures: the color of a pixel as the mean of the light along
//! rays through it, the rows of an image, and the image.
use crate::camera::Camera;
use crate::color::{anti_aliased_over, anti_aliased_spec, is_channel, Color};
use crate::hittable_list::HittableList;
use crate::material::Sample;
use crate::ppm::{body_spec, header_spec, picture, picture_spec};
use crate::power::lemma_exp2_values;
use crate::random::{disk_point_from, samples_from, scramble, unit_of, Generator, TRIES};
use crate::scalar::{lemma_literal_rounded, Scalar};
use crate::sphere::Sphere;
use crate::tracer::{black, trace, trace_spec};
use crate::vec3::Vec3;
use vstd::prelude::*;

verus! {

/// The chance that enters one ray through a pixel.
pub struct PixelSample {
    /// Where in the pixel the ray passes, from 0 up to 1 from its left edge.
    pub du: Scalar,
    /// Where in the pixel the ray passes, from 0 up to 1 from its lower edge.
    pub dv: Scalar,
    /// Where on the lens the ray starts: a point of the unit disk.
    pub lens: Vec3,
    /// The chance of each scattering along the way.
    pub bounces: Vec<Sample>,
}

/// A `PixelSample` as a value: the same, with the chances of the scatterings as
/// a sequence.
pub struct PixelChance {
    pub du: Scalar,
    pub dv: Scalar,
    pub lens: Vec3,
    pub bounces: Seq<Sample>,
}

impl View for PixelSample {
    type V = PixelChance;

    open spec fn view(&self) -> PixelChance {
        PixelChance { du: self.du, dv: self.dv, lens: self.lens, bounces: self.bounces@ }
    }
}

/// The samples as values.
pub open spec fn chances(samples: Seq<PixelSample>) -> Seq<PixelChance> {
    Seq::new(samples.len(), |k: int| samples[k]@)
}

/// The light along the ray that `sample` picks through the pixel in column `i`
/// and row `j`, rows counted from below, of an image `width` by `height`: the
/// ray for the place `((i + du) / (width - 1), (j + dv) / (height - 1))`.
pub open spec fn radiance_spec(
    camera: Camera,
    objects: Seq<Sphere>,
    i: int,
    j: int,
    width: int,
    height: int,
    depth: nat,
    sample: PixelChance,
) -> Color {
    let s = Scalar::of_int(i).plus(sample.du).over(Scalar::of_int(width - 1));
    let t = Scalar::of_int(j).plus(sample.dv).over(Scalar::of_int(height - 1));
    trace_spec(camera.get_ray_spec(s, t, sample.lens), objects, depth, sample.bounces)
}

/// The light of all samples, summed in their order from no light.
pub open spec fn total_spec(
    camera: Camera,
    objects: Seq<Sphere>,
    i: int,
    j: int,
    width: int,
    height: int,
    depth: nat,
    samples: Seq<PixelChance>,
) -> Color
    decreases samples.len(),
{
    if samples.len() == 0 {
        black()
    } else {
        total_spec(camera, objects, i, j, width, height, depth, samples.drop_last()).plus(
            radiance_spec(camera, objects, i, j, width, height, depth, samples.last()),
        )
    }
}

/// The color of a pixel: the light of all its samples, made a color by
/// `anti_aliased_spec`.
pub open spec fn pixel_spec(
    camera: Camera,
    objects: Seq<Sphere>,
    i: int,
    j: int,
    width: int,
    height: int,
    depth: nat,
    samples: Seq<PixelChance>,
) -> Color {
    anti_aliased_spec(
        total_spec(camera, objects, i, j, width, height, depth, samples),
        samples.len() as int,
    )
}

/// The color of the pixel in column `i` and row `j`, rows counted from below:
/// the light along one ray for each sample, summed, and made a color by
/// `anti_aliased`. Whatever the scene, every channel of the color is a number
/// from 0 to 0.999.
pub fn pixel_color(
    camera: &Camera,
    world: &HittableList,
    i: u32,
    j: u32,
    width: u32,
    height: u32,
    depth: usize,
    samples: &Vec<PixelSample>,
) -> (c: Color)
    ensures
        c == pixel_spec(
            *camera,
            world@,
            i as int,
            j as int,
            width as int,
            height as int,
            depth as nat,
            chances(samples@),
        ),
        is_channel(c.x),
        is_channel(c.y),
        is_channel(c.z),
{
    let zero = Scalar::zero_value();
    let mut total = Vec3::new(zero, zero, zero);
    let across = Scalar::from_i64(width as i64 - 1);
    let upward = Scalar::from_i64(height as i64 - 1);
    let column = Scalar::from_u32(i);
    let row = Scalar::from_u32(j);
    let mut k: usize = 0;
    while k < samples.len()
        invariant
            k <= samples.len(),
            across == Scalar::of_int(width - 1),
            upward == Scalar::of_int(height - 1),
            column == Scalar::of_int(i as int),
            row == Scalar::of_int(j as int),
            total == total_spec(
                *camera,
                world@,
                i as int,
                j as int,
                width as int,
                height as int,
                depth as nat,
                chances(samples@).take(k as int),
            ),
        decreases samples.len() - k,
    {
        let sample = &samples[k];
        let s = (column + sample.du) / across;
        let t = (row + sample.dv) / upward;
        let ray = camera.get_ray(s, t, sample.lens);
        proof {
            let all = chances(samples@);
            assert(all.take(k + 1).drop_last() == all.take(k as int));
            assert(all.take(k + 1).last() == samples@[k as int]@);
        }
        total = total + trace(&ray, world, depth, &sample.bounces);
        k = k + 1;
    }
    proof {
        assert(chances(samples@).take(k as int) == chances(samples@));
    }
    anti_aliased_over(total, samples.len())
}

/// The factor from a channel to its byte: 255.9.
pub fn byte_scale() -> (r: Scalar)
    ensures
        r == Scalar::of_ratio(2559, 10),
{
    proof {
        lemma_exp2_values();
        vstd::arithmetic::power2::lemma2_to64_rest();
        assert(crate::power::exp2(45) == 0x2000_0000_0000);
        lemma_literal_rounded(0x1F_FCCC_CCCC_CCCD, -45, 2559, 10);
    }
    Scalar::from_bits(0x406F_FCCC_CCCC_CCCD)
}

/// The three bytes of a color: of each channel times 255.9 the whole part.
pub open spec fn pixel_bytes_spec(color: Color) -> (u8, u8, u8) {
    let scale = Scalar::of_ratio(2559, 10);
    (
        color.x.times(scale).to_u8_spec(),
        color.y.times(scale).to_u8_spec(),
        color.z.times(scale).to_u8_spec(),
    )
}

/// The three bytes of a color.
pub fn pixel_bytes(color: Color) -> (bytes: (u8, u8, u8))
    ensures
        bytes == pixel_bytes_spec(color),
{
    let scale = byte_scale();
    ((color.x * scale).to_u8(), (color.y * scale).to_u8(), (color.z * scale).to_u8())
}

/// The chance of one ray through a pixel drawn from state `x`, with the chance
/// of `depth` scatterings, and the state after it.
pub open spec fn pixel_chance_from(x: u64, depth: nat) -> (PixelChance, u64) {
    let x1 = scramble(x);
    let x2 = scramble(x1);
    let (lens, x3) = disk_point_from(x2, TRIES as nat);
    let (bounces, x4) = samples_from(x3, depth);
    (PixelChance { du: unit_of(x1), dv: unit_of(x2), lens, bounces }, x4)
}

/// The chance of `n` rays through a pixel drawn from state `x`, and the state
/// after them.
pub open spec fn pixel_chances_from(x: u64, n: nat, depth: nat) -> (Seq<PixelChance>, u64)
    decreases n,
{
    if n == 0 {
        (Seq::empty(), x)
    } else {
        let (front, x1) = pixel_chances_from(x, (n - 1) as nat, depth);
        let (last, x2) = pixel_chance_from(x1, depth);
        (front.push(last), x2)
    }
}

/// Draws the chance of one ray through a pixel.
pub fn draw_pixel_sample(generator: &mut Generator, depth: usize) -> (s: PixelSample)
    ensures
        (s@, final(generator).state) == pixel_chance_from(old(generator).state, depth as nat),
        s.bounces.len() == depth,
{
    let du = generator.uniform();
    let dv = generator.uniform();
    let lens = generator.in_unit_disk();
    let bounces = generator.samples(depth);
    PixelSample { du, dv, lens, bounces }
}

/// Draws the chance of `n` rays through a pixel.
pub fn draw_pixel_samples(generator: &mut Generator, n: usize, depth: usize) -> (v: Vec<
    PixelSample,
>)
    ensures
        (chances(v@), final(generator).state) == pixel_chances_from(
            old(generator).state,
            n as nat,
            depth as nat,
        ),
        v.len() == n,
        forall|k: int| 0 <= k < v.len() ==> (#[trigger] v[k]).bounces.len() == depth,
{
    let mut v: Vec<PixelSample> = Vec::new();
    let mut i: usize = 0;
    proof {
        assert(chances(v@) == Seq::<PixelChance>::empty());
    }
    while i < n
        invariant
            i <= n,
            v.len() == i,
            (chances(v@), generator.state) == pixel_chances_from(
                old(generator).state,
                i as nat,
                depth as nat,
            ),
            forall|k: int| 0 <= k < v.len() ==> (#[trigger] v[k]).bounces.len() == depth,
        decreases n - i,
    {
        let ghost before = v@;
        let s = draw_pixel_sample(generator, depth);
        let ghost drawn = s@;
        v.push(s);
        proof {
            assert(chances(v@) == chances(before).push(drawn));
        }
        i = i + 1;
    }
    v
}

/// What an image is rendered with.
#[derive(Clone, Copy, Debug)]
pub struct Settings {
    /// The number of columns.
    pub width: u32,
    /// The number of rows.
    pub height: u32,
    /// The number of rays through every pixel.
    pub samples_per_pixel: u32,
    /// The number of surfaces over which light is followed.
    pub max_depth: usize,
    /// What the chance of the whole image is drawn from.
    pub seed: u64,
}

/// The seed of a row: every row has a generator of its own, so that rows can be
/// rendered in any order, and side by side.
pub open spec fn row_seed_spec(seed: u64, row: nat) -> u64 {
    seed ^ (((row + 1) * 0x9E37_79B9_7F4A_7C15) % 0x1_0000_0000_0000_0000) as u64
}

/// The state in which the generator with the given seed starts.
pub open spec fn start_of(seed: u64) -> u64 {
    if seed == 0 {
        0x9E37_79B9_7F4A_7C15
    } else {
        seed
    }
}

/// The seed of a row.
pub fn row_seed(seed: u64, row: u32) -> (r: u64)
    ensures
        r == row_seed_spec(seed, row as nat),
{
    let mixed: u128 = ((row as u128) + 1) * 0x9E37_79B9_7F4A_7C15u128;
    seed ^ ((mixed % 0x1_0000_0000_0000_0000u128) as u64)
}

/// The bytes of the first `columns` pixels of row `row`, rows counted from
/// below, drawn from state `x`, and the state after them: for every pixel from
/// the left the chance of its rays is drawn, and the three bytes of its color
/// are written.
pub open spec fn row_prefix_spec(
    camera: Camera,
    objects: Seq<Sphere>,
    settings: Settings,
    row: nat,
    x: u64,
    columns: nat,
) -> (Seq<u8>, u64)
    decreases columns,
{
    if columns == 0 {
        (Seq::empty(), x)
    } else {
        let (front, x1) = row_prefix_spec(camera, objects, settings, row, x, (columns - 1) as nat);
        let (samples, x2) = pixel_chances_from(
            x1,
            settings.samples_per_pixel as nat,
            settings.max_depth as nat,
        );
        let color = pixel_spec(
            camera,
            objects,
            columns - 1,
            row as int,
            settings.width as int,
            settings.height as int,
            settings.max_depth as nat,
            samples,
        );
        let bytes = pixel_bytes_spec(color);
        (front.push(bytes.0).push(bytes.1).push(bytes.2), x2)
    }
}

/// The bytes of row `row`, from the generator of that row.
pub open spec fn row_spec(camera: Camera, objects: Seq<Sphere>, settings: Settings, row: nat)
    -> Seq<u8> {
    row_prefix_spec(
        camera,
        objects,
        settings,
        row,
        start_of(row_seed_spec(settings.seed, row)),
        settings.width as nat,
    ).0
}

/// A row has three bytes for every pixel.
pub proof fn lemma_row_length(
    camera: Camera,
    objects: Seq<Sphere>,
    settings: Settings,
    row: nat,
    x: u64,
    columns: nat,
)
    ensures
        row_prefix_spec(camera, objects, settings, row, x, columns).0.len() == 3 * columns,
    decreases columns,
{
    if columns > 0 {
        lemma_row_length(camera, objects, settings, row, x, (columns - 1) as nat);
    }
}

/// The bytes of one row of the image, from left to right, three to a pixel.
pub fn render_row(camera: &Camera, world: &HittableList, settings: &Settings, row: u32) -> (bytes:
    Vec<u8>)
    ensures
        bytes@ == row_spec(*camera, world@, *settings, row as nat),
        bytes@.len() == 3 * settings.width,
{
    let mut generator = Generator::new(row_seed(settings.seed, row));
    let ghost start = generator.state;
    let mut bytes: Vec<u8> = Vec::new();
    let mut column: u32 = 0;
    while column < settings.width
        invariant
            column <= settings.width,
            (bytes@, generator.state) == row_prefix_spec(
                *camera,
                world@,
                *settings,
                row as nat,
                start,
                column as nat,
            ),
        decreases settings.width - column,
    {
        let samples = draw_pixel_samples(
            &mut generator,
            settings.samples_per_pixel as usize,
            settings.max_depth,
        );
        let color = pixel_color(
            camera,
            world,
            column,
            row,
            settings.width,
            settings.height,
            settings.max_depth,
            &samples,
        );
        let (r, g, b) = pixel_bytes(color);
        bytes.push(r);
        bytes.push(g);
        bytes.push(b);
        column = column + 1;
    }
    proof {
        lemma_row_length(*camera, world@, *settings, row as nat, start, settings.width as nat);
    }
    bytes
}

/// The bytes of the uppermost `rows` rows of the image, the uppermost first.
pub open spec fn image_prefix_spec(
    camera: Camera,
    objects: Seq<Sphere>,
    settings: Settings,
    rows: nat,
) -> Seq<u8>
    decreases rows,
{
    if rows == 0 {
        Seq::empty()
    } else {
        image_prefix_spec(camera, objects, settings, (rows - 1) as nat) + row_spec(
            camera,
            objects,
            settings,
            (settings.height - rows) as nat,
        )
    }
}

/// The bytes of the image: its rows from the uppermost to the lowest.
pub open spec fn image_spec(camera: Camera, objects: Seq<Sphere>, settings: Settings) -> Seq<u8> {
    image_prefix_spec(camera, objects, settings, settings.height as nat)
}

/// An image has three bytes for every pixel.
pub proof fn lemma_image_length(
    camera: Camera,
    objects: Seq<Sphere>,
    settings: Settings,
    rows: nat,
)
    requires
        rows <= settings.height,
    ensures
        image_prefix_spec(camera, objects, settings, rows).len() == 3 * (settings.width * rows),
    decreases rows,
{
    let w = settings.width as int;
    if rows > 0 {
        lemma_image_length(camera, objects, settings, (rows - 1) as nat);
        let row = (settings.height - rows) as nat;
        lemma_row_length(
            camera,
            objects,
            settings,
            row,
            start_of(row_seed_spec(settings.seed, row)),
            settings.width as nat,
        );
        assert(w * rows == w * (rows - 1) + w) by (nonlinear_arith);
    } else {
        assert(w * rows == 0) by (nonlinear_arith)
            requires
                rows == 0,
        ;
    }
}

/// The bytes of the image, three to a pixel, rows from the top and pixels from
/// the left. Every row is rendered as `render_row` renders it, so that the
/// image is the same in whatever order, and by whomever, its rows are rendered.
pub fn render(camera: &Camera, world: &HittableList, settings: &Settings) -> (bytes: Vec<u8>)
    ensures
        bytes@ == image_spec(*camera, world@, *settings),
        bytes@.len() == 3 * (settings.width * settings.height),
{
    let mut bytes: Vec<u8> = Vec::new();
    let mut done: u32 = 0;
    while done < settings.height
        invariant
            done <= settings.height,
            bytes@ == image_prefix_spec(*camera, world@, *settings, done as nat),
        decreases settings.height - done,
    {
        let row = settings.height - 1 - done;
        let mut line = render_row(camera, world, settings, row);
        let ghost before = bytes@;
        let ghost added = line@;
        bytes.append(&mut line);
        proof {
            assert(bytes@ == before + added);
        }
        done = done + 1;
    }
    proof {
        lemma_image_length(*camera, world@, *settings, settings.height as nat);
    }
    bytes
}

/// The image as a plain-text picture: the header with the width and the height
/// of the settings, and a line for each of the image's pixels.
pub fn render_picture(camera: &Camera, world: &HittableList, settings: &Settings) -> (text: Vec<u8>)
    ensures
        text@ == picture_spec(
            settings.width as nat,
            settings.height as nat,
            image_spec(*camera, world@, *settings),
        ),
        text@ == header_spec(settings.width as nat, settings.height as nat) + body_spec(
            image_spec(*camera, world@, *settings),
            (settings.width * settings.height) as nat,
        ),
{
    let image = render(camera, world, settings);
    match picture(settings.width, settings.height, &image) {
        Some(text) => text,
        None => Vec::new(),
    }
}

} // verus!
