//! A source of chance: a small generator of numbers that a seed determines.
use crate::material::Sample;
use crate::power::{exp2, lemma_exp2_add, lemma_exp2_values, lemma_scale_lt};
use crate::scalar::Scalar;
use crate::vec3::Vec3;
use vstd::prelude::*;

verus! {

/// How often a point is drawn from the cube before one inside the sphere is
/// given up: an even source fails that often less than once in 10^20 times.
pub const TRIES: u32 = 64;

/// A generator of pseudo-random numbers. Each worker has one of its own.
#[derive(Clone, Copy, Debug)]
pub struct Generator {
    pub state: u64,
}

/// The state after `x`: three shifts and exclusive-ors.
pub open spec fn scramble(x: u64) -> u64 {
    let a = x ^ (x << 13);
    let b = a ^ (a >> 7);
    b ^ (b << 17)
}

/// The number from 0 up to 1 that a state stands for: its upper 53 bits over 2^53.
pub open spec fn unit_of(x: u64) -> Scalar {
    Scalar::of_ratio((x >> 11) as int, exp2(53))
}

/// The number from `min` up to `max` that a state stands for.
pub open spec fn range_of(x: u64, min: Scalar, max: Scalar) -> Scalar {
    min.plus(max.minus(min).times(unit_of(x)))
}

/// The point of the cube from -1 to 1 that three states in a row, the last of
/// them `x3`, stand for.
pub open spec fn cube_point_of(x1: u64, x2: u64, x3: u64) -> Vec3 {
    let low = Scalar::of_int(-1);
    let high = Scalar::of_int(1);
    Vec3 { x: range_of(x1, low, high), y: range_of(x2, low, high), z: range_of(x3, low, high) }
}

/// Whether a point of the cube is taken for one inside the unit sphere: it lies
/// inside, and not so near the middle that it has no direction.
pub open spec fn accepted(p: Vec3) -> bool {
    Scalar::of_ratio(1, 100_000_000).less_than(p.length_squared_spec())
        && p.length_squared_spec().less_than(Scalar::of_int(1))
}

/// The point inside the unit sphere drawn from state `x` in at most `tries`
/// tries, and the state after it. When every try fails the point is (1/2, 0, 0).
pub open spec fn sphere_point_from(x: u64, tries: nat) -> (Vec3, u64)
    decreases tries,
{
    if tries == 0 {
        (Vec3 { x: Scalar::of_ratio(1, 2), y: Scalar::of_int(0), z: Scalar::of_int(0) }, x)
    } else {
        let x1 = scramble(x);
        let x2 = scramble(x1);
        let x3 = scramble(x2);
        let p = cube_point_of(x1, x2, x3);
        if accepted(p) {
            (p, x3)
        } else {
            sphere_point_from(x3, (tries - 1) as nat)
        }
    }
}

/// The point of the square from -1 to 1, with `z` zero, that two states in a
/// row stand for.
pub open spec fn square_point_of(x1: u64, x2: u64) -> Vec3 {
    let low = Scalar::of_int(-1);
    let high = Scalar::of_int(1);
    Vec3 { x: range_of(x1, low, high), y: range_of(x2, low, high), z: Scalar::of_int(0) }
}

/// The point inside the unit disk drawn from state `x` in at most `tries` tries,
/// and the state after it. When every try fails the point is the middle.
pub open spec fn disk_point_from(x: u64, tries: nat) -> (Vec3, u64)
    decreases tries,
{
    if tries == 0 {
        (Vec3 { x: Scalar::of_int(0), y: Scalar::of_int(0), z: Scalar::of_int(0) }, x)
    } else {
        let x1 = scramble(x);
        let x2 = scramble(x1);
        let p = square_point_of(x1, x2);
        if p.length_squared_spec().less_than(Scalar::of_int(1)) {
            (p, x2)
        } else {
            disk_point_from(x2, (tries - 1) as nat)
        }
    }
}

/// The chance of one scattering drawn from state `x`, and the state after it.
pub open spec fn sample_from(x: u64) -> (Sample, u64) {
    let (in_sphere, x1) = sphere_point_from(x, TRIES as nat);
    let x2 = scramble(x1);
    (Sample { in_sphere, chance: unit_of(x2) }, x2)
}

/// The chances of `n` scatterings in a row drawn from state `x`, and the state
/// after them.
pub open spec fn samples_from(x: u64, n: nat) -> (Seq<Sample>, u64)
    decreases n,
{
    if n == 0 {
        (Seq::empty(), x)
    } else {
        let (front, x1) = samples_from(x, (n - 1) as nat);
        let (last, x2) = sample_from(x1);
        (front.push(last), x2)
    }
}

impl Generator {
    /// The generator that starts from `seed`. A state of zero would never change,
    /// so a seed of zero is replaced.
    pub fn new(seed: u64) -> (g: Generator)
        ensures
            g.state == if seed == 0 {
                0x9E37_79B9_7F4A_7C15
            } else {
                seed
            },
    {
        Generator {
            state: if seed == 0 {
                0x9E37_79B9_7F4A_7C15
            } else {
                seed
            },
        }
    }

    /// Moves to the next state and returns it.
    pub fn next(&mut self) -> (x: u64)
        ensures
            x == scramble(old(self).state),
            final(self).state == x,
    {
        let x = self.state;
        let a = x ^ (x << 13);
        let b = a ^ (a >> 7);
        let c = b ^ (b << 17);
        self.state = c;
        c
    }

    /// A number from 0 up to 1, 1 left out.
    pub fn uniform(&mut self) -> (r: Scalar)
        ensures
            final(self).state == scramble(old(self).state),
            r == unit_of(final(self).state),
            r.finite(),
            !r.negative(),
            r.less_than(Scalar::of_int(1)),
    {
        let x = self.next();
        let upper = x >> 11;
        proof {
            assert(x >> 11 < 0x20_0000_0000_0000) by (bit_vector);
            lemma_exp2_values();
            lemma_exp2_add(53, 1021);
            crate::power::lemma_exp2_pos(1021);
            lemma_scale_lt(upper as int, exp2(53), exp2(1021));
            crate::scalar::lemma_zero_and_one();
        }
        Scalar::dyadic(upper, 53)
    }

    /// A number from `min` up to `max`.
    pub fn range(&mut self, min: Scalar, max: Scalar) -> (r: Scalar)
        ensures
            final(self).state == scramble(old(self).state),
            r == range_of(final(self).state, min, max),
    {
        let u = self.uniform();
        min + (max - min) * u
    }

    /// A point inside the unit sphere: points of the cube around it are drawn
    /// until one lies inside, `TRIES` times at most.
    pub fn in_unit_sphere(&mut self) -> (p: Vec3)
        ensures
            (p, final(self).state) == sphere_point_from(old(self).state, TRIES as nat),
    {
        let low = Scalar::from_i32(-1);
        let high = Scalar::one();
        let tiny = crate::vec3::negligible();
        let mut left: u32 = TRIES;
        while left > 0
            invariant
                left <= TRIES,
                low == Scalar::of_int(-1),
                high == Scalar::of_int(1),
                tiny == Scalar::of_ratio(1, 100_000_000),
                sphere_point_from(self.state, left as nat) == sphere_point_from(
                    old(self).state,
                    TRIES as nat,
                ),
            decreases left,
        {
            let x = self.range(low, high);
            let y = self.range(low, high);
            let z = self.range(low, high);
            let p = Vec3::new(x, y, z);
            let size = p.length_squared();
            if tiny.lt(size) && size.lt(high) {
                return p;
            }
            left = left - 1;
        }
        Vec3::new(Scalar::half(), Scalar::zero_value(), Scalar::zero_value())
    }

    /// A point inside the unit disk, with `z` zero: points of the square around
    /// it are drawn until one lies inside, `TRIES` times at most.
    pub fn in_unit_disk(&mut self) -> (p: Vec3)
        ensures
            (p, final(self).state) == disk_point_from(old(self).state, TRIES as nat),
    {
        let low = Scalar::from_i32(-1);
        let high = Scalar::one();
        let zero = Scalar::zero_value();
        let mut left: u32 = TRIES;
        while left > 0
            invariant
                left <= TRIES,
                low == Scalar::of_int(-1),
                high == Scalar::of_int(1),
                zero == Scalar::of_int(0),
                disk_point_from(self.state, left as nat) == disk_point_from(
                    old(self).state,
                    TRIES as nat,
                ),
            decreases left,
        {
            let x = self.range(low, high);
            let y = self.range(low, high);
            let p = Vec3::new(x, y, zero);
            if p.length_squared().lt(high) {
                return p;
            }
            left = left - 1;
        }
        Vec3::new(zero, zero, zero)
    }

    /// The chance of one scattering.
    pub fn sample(&mut self) -> (s: Sample)
        ensures
            (s, final(self).state) == sample_from(old(self).state),
    {
        let in_sphere = self.in_unit_sphere();
        let chance = self.uniform();
        Sample { in_sphere, chance }
    }

    /// The chances of `n` scatterings in a row.
    pub fn samples(&mut self, n: usize) -> (v: Vec<Sample>)
        ensures
            (v@, final(self).state) == samples_from(old(self).state, n as nat),
            v@.len() == n,
    {
        let mut v: Vec<Sample> = Vec::new();
        let mut i: usize = 0;
        while i < n
            invariant
                i <= n,
                v@.len() == i,
                (v@, self.state) == samples_from(old(self).state, i as nat),
            decreases n - i,
        {
            let s = self.sample();
            v.push(s);
            i = i + 1;
        }
        v
    }
}

} // verus!
