//! The scalar type: a binary64 number held as its bit pattern.
use crate::grid::{
    encodable, is_nearest, lemma_neighbours, lemma_order, magnitude_at, nearest, ordinal_of,
    HIDDEN_BIT, INFINITY_ORDINAL,
};
use crate::power::{distance, exp2, lemma_exp2_add, lemma_exp2_pos, lemma_exp2_values};
use crate::round::{
    lemma_bracket_rounds, lemma_nearest_exact, lemma_nearest_is, lemma_nearest_same_ratio,
    round_to_ordinal,
};
use vstd::prelude::*;
use vstd::std_specs::cmp::PartialEqSpecImpl;

verus! {

/// The bit that holds the sign.
pub const SIGN_BIT: u64 = 0x8000_0000_0000_0000;

/// The bit pattern that every operation without a numeric result returns.
pub const NAN_BITS: u64 = 0x7FF8_0000_0000_0000;

/// A binary64 floating-point number, held as its 64-bit pattern: a sign bit above
/// the position of its magnitude among the nonnegative numbers. Positions above
/// that of infinity are not numbers.
#[derive(Clone, Copy, Debug)]
pub struct Scalar {
    pub bits: u64,
}

/// What a scalar stands for: a finite number, which is a whole number of units
/// of 2^-1074 with a sign, one also on zero; an infinity; or nothing.
pub enum Number {
    NotANumber,
    Infinity { negative: bool },
    Finite { negative: bool, units: int },
}

impl View for Scalar {
    type V = Number;

    open spec fn view(&self) -> Number {
        if self.nan() {
            Number::NotANumber
        } else if self.infinite() {
            Number::Infinity { negative: self.negative() }
        } else {
            Number::Finite { negative: self.negative(), units: self.magnitude() }
        }
    }
}

impl Scalar {
    /// The position of the magnitude among the nonnegative numbers.
    pub open spec fn ordinal(self) -> int {
        (self.bits % SIGN_BIT) as int
    }

    /// Whether the sign bit is set; it may be set on zero and on what is not a number.
    pub open spec fn negative(self) -> bool {
        self.bits >= SIGN_BIT
    }

    /// Whether the scalar is not a number.
    pub open spec fn nan(self) -> bool {
        self.ordinal() > INFINITY_ORDINAL
    }

    /// Whether the scalar is an infinity.
    pub open spec fn infinite(self) -> bool {
        self.ordinal() == INFINITY_ORDINAL
    }

    /// Whether the scalar is a number other than an infinity.
    pub open spec fn finite(self) -> bool {
        self.ordinal() < INFINITY_ORDINAL
    }

    /// Whether the scalar is zero, of either sign.
    pub open spec fn zero(self) -> bool {
        self.ordinal() == 0
    }

    /// The absolute value in units of 2^-1074, for what is finite or infinite;
    /// infinity counts as 2^1024.
    pub open spec fn magnitude(self) -> int {
        magnitude_at(self.ordinal())
    }

    /// The value in units of 2^-1074, with its sign.
    pub open spec fn signed_magnitude(self) -> int {
        if self.negative() {
            -self.magnitude()
        } else {
            self.magnitude()
        }
    }

    /// The scalar with the given sign and position.
    pub open spec fn signed(negative: bool, ordinal: int) -> Scalar {
        Scalar {
            bits: if negative {
                (ordinal + SIGN_BIT) as u64
            } else {
                ordinal as u64
            },
        }
    }

    /// The one result that is not a number.
    pub open spec fn not_a_number() -> Scalar {
        Scalar { bits: NAN_BITS }
    }

    /// The scalar with the given bit pattern.
    pub fn from_bits(bits: u64) -> (r: Scalar)
        ensures
            r.bits == bits,
    {
        Scalar { bits }
    }

    /// The bit pattern of the scalar.
    pub fn to_bits(self) -> (bits: u64)
        ensures
            bits == self.bits,
    {
        self.bits
    }

    /// The position of the magnitude: the bit pattern without its sign.
    pub fn position(self) -> (m: u64)
        ensures
            m == self.ordinal(),
            m < SIGN_BIT,
    {
        self.bits % SIGN_BIT
    }

    /// Whether the sign bit is set.
    pub fn is_sign_negative(self) -> (r: bool)
        ensures
            r == self.negative(),
    {
        self.bits >= SIGN_BIT
    }

    /// Whether the scalar is not a number.
    pub fn is_nan(self) -> (r: bool)
        ensures
            r == self.nan(),
    {
        self.position() > INFINITY_ORDINAL
    }

    /// Whether the scalar is an infinity.
    pub fn is_infinite(self) -> (r: bool)
        ensures
            r == self.infinite(),
    {
        self.position() == INFINITY_ORDINAL
    }

    /// Whether the scalar is a number other than an infinity.
    pub fn is_finite(self) -> (r: bool)
        ensures
            r == self.finite(),
    {
        self.position() < INFINITY_ORDINAL
    }

    /// Puts a sign and a position together.
    pub fn from_parts(negative: bool, ordinal: u64) -> (r: Scalar)
        requires
            ordinal < SIGN_BIT,
        ensures
            r == Scalar::signed(negative, ordinal as int),
            r.ordinal() == ordinal,
            r.negative() == negative,
    {
        if negative {
            Scalar { bits: ordinal + SIGN_BIT }
        } else {
            Scalar { bits: ordinal }
        }
    }

    /// What is not a number, in the one form that this library returns.
    pub fn make_nan() -> (r: Scalar)
        ensures
            r == Scalar::not_a_number(),
            r.nan(),
    {
        Scalar { bits: NAN_BITS }
    }
}

impl Scalar {
    /// The integer `n` as a scalar, rounded where it has more than 53 digits.
    pub open spec fn of_int(n: int) -> Scalar {
        Scalar::of_ratio(n, 1)
    }

    /// The fraction `p / q` as a scalar: what the decimal or rational constant
    /// `p / q` denotes. The denominator is positive.
    pub open spec fn of_ratio(p: int, q: int) -> Scalar
        recommends
            q > 0,
    {
        Scalar::signed(p < 0, nearest(distance(p), q))
    }

    /// Whether both are numbers and the first is the smaller one.
    pub open spec fn less_than(self, other: Scalar) -> bool {
        !self.nan() && !other.nan() && self.signed_magnitude() < other.signed_magnitude()
    }

    /// Whether both are numbers of the same value; the two zeros are.
    pub open spec fn same_value(self, other: Scalar) -> bool {
        !self.nan() && !other.nan() && self.signed_magnitude() == other.signed_magnitude()
    }

    /// The larger of two numbers, the first where they are of the same value;
    /// where one is not a number, the other.
    pub open spec fn max_spec(self, other: Scalar) -> Scalar {
        if self.nan() {
            other
        } else if other.nan() {
            self
        } else if self.less_than(other) {
            other
        } else {
            self
        }
    }

    /// The smaller of two numbers, the first where they are of the same value;
    /// where one is not a number, the other.
    pub open spec fn min_spec(self, other: Scalar) -> Scalar {
        if self.nan() {
            other
        } else if other.nan() {
            self
        } else if other.less_than(self) {
            other
        } else {
            self
        }
    }

    /// The same magnitude with the sign cleared.
    pub open spec fn abs_spec(self) -> Scalar {
        Scalar::signed(false, self.ordinal())
    }

    /// The integer `n` as a scalar, which is exact.
    pub fn from_i32(n: i32) -> (r: Scalar)
        ensures
            r == Scalar::of_int(n as int),
            r@ == (Number::Finite { negative: n < 0, units: distance(n as int) * exp2(1074) }),
            r.finite(),
            r.signed_magnitude() == n * exp2(1074),
    {
        let negative = n < 0;
        let wide: i64 = n as i64;
        let size: u128 = if negative {
            (-wide) as u128
        } else {
            wide as u128
        };
        let m = round_to_ordinal(size, 0, false);
        proof {
            lemma_exp2_values();
            assert(size * exp2(2200) == size * exp2(0int + 2200) * 1) by (nonlinear_arith);
            lemma_bracket_rounds(m as int, size as int, 0, false, size as int, 1);
            assert(size * exp2(0int + 1074) == size * exp2(1074));
            assert((-(size as int)) * exp2(1074) == -(size * exp2(1074))) by (nonlinear_arith);
        }
        Scalar::from_parts(negative, m)
    }

    /// The integer `n` as a scalar, rounded where it has more than 53 digits.
    pub fn from_i64(n: i64) -> (r: Scalar)
        ensures
            r == Scalar::of_int(n as int),
    {
        let negative = n < 0;
        let wide: i128 = n as i128;
        let size: u128 = if negative {
            (-wide) as u128
        } else {
            wide as u128
        };
        let m = round_to_ordinal(size, 0, false);
        proof {
            assert(size * exp2(2200) == size * exp2(0int + 2200) * 1) by (nonlinear_arith);
            lemma_bracket_rounds(m as int, size as int, 0, false, size as int, 1);
        }
        Scalar::from_parts(negative, m)
    }

    /// The integer `n` as a scalar, rounded where it has more than 53 digits.
    pub fn from_u64(n: u64) -> (r: Scalar)
        ensures
            r == Scalar::of_int(n as int),
    {
        let m = round_to_ordinal(n as u128, 0, false);
        proof {
            assert(n * exp2(2200) == n * exp2(0int + 2200) * 1) by (nonlinear_arith);
            lemma_bracket_rounds(m as int, n as int, 0, false, n as int, 1);
        }
        Scalar::from_parts(false, m)
    }

    /// The integer `n` as a scalar, which is exact.
    pub fn from_u32(n: u32) -> (r: Scalar)
        ensures
            r == Scalar::of_int(n as int),
            r@ == (Number::Finite { negative: false, units: n * exp2(1074) }),
            r.finite(),
            !r.negative(),
            r.magnitude() == n * exp2(1074),
    {
        let m = round_to_ordinal(n as u128, 0, false);
        proof {
            lemma_exp2_values();
            assert(n * exp2(2200) == n * exp2(0int + 2200) * 1) by (nonlinear_arith);
            lemma_bracket_rounds(m as int, n as int, 0, false, n as int, 1);
            assert(n * exp2(0int + 1074) == n * exp2(1074));
        }
        Scalar::from_parts(false, m)
    }

    /// The number `k / 2^bits`, which is exact for `k` below 2^53.
    pub fn dyadic(k: u64, bits: u32) -> (r: Scalar)
        requires
            k < 0x20_0000_0000_0000,
            bits <= 1074,
        ensures
            r == Scalar::of_ratio(k as int, exp2(bits as int)),
            r@ == (Number::Finite { negative: false, units: k * exp2(1074 - bits) }),
            r.finite(),
            !r.negative(),
            r.magnitude() == k * exp2(1074 - bits),
    {
        let e: i32 = -(bits as i32);
        let m = round_to_ordinal(k as u128, e, false);
        proof {
            lemma_exp2_values();
            lemma_exp2_pos(bits as int);
            lemma_exp2_add(2200 - bits, bits as int);
            assert(k * exp2(2200) == k * exp2(e + 2200) * exp2(bits as int)) by (nonlinear_arith)
                requires
                    exp2(e + 2200) * exp2(bits as int) == exp2(2200),
            ;
            lemma_bracket_rounds(m as int, k as int, e as int, false, k as int, exp2(bits as int));
        }
        Scalar::from_parts(false, m)
    }

    /// The whole part of the number as a byte: 0 for what is negative or not a
    /// number, 255 for what is 255 or more.
    pub open spec fn to_u8_spec(self) -> u8 {
        if self.nan() || self.negative() {
            0
        } else if self.magnitude() >= 255 * exp2(1074) {
            255
        } else {
            (self.magnitude() / exp2(1074)) as u8
        }
    }

    /// The whole part of the number as a byte, held between 0 and 255.
    pub fn to_u8(self) -> (r: u8)
        ensures
            r == self.to_u8_spec(),
    {
        let m = self.position();
        if m > INFINITY_ORDINAL || self.is_sign_negative() {
            return 0;
        }
        proof {
            lemma_exp2_values();
            lemma_exp2_pos(1074);
            lemma_neighbours(HIDDEN_BIT as int, -52);
            lemma_order(m as int, ordinal_of(HIDDEN_BIT as int, -52));
            lemma_neighbours(HIDDEN_BIT as int, 0);
            lemma_order(m as int, ordinal_of(HIDDEN_BIT as int, 0));
            lemma_exp2_add(52, 1022);
            lemma_exp2_add(52, 1074);
        }
        // below one: positions under that of 1
        if m < 0x3FF0_0000_0000_0000 {
            proof {
                assert(self.magnitude() < exp2(1074));
                vstd::arithmetic::div_mod::lemma_basic_div(self.magnitude(), exp2(1074));
            }
            return 0;
        }
        // 2^52 and above: positions from that of 2^52
        if m >= 0x4330_0000_0000_0000 {
            proof {
                assert(self.magnitude() >= HIDDEN_BIT * exp2(1074));
                assert(HIDDEN_BIT * exp2(1074) >= 255 * exp2(1074)) by (nonlinear_arith)
                    requires
                        exp2(1074) >= 0,
                ;
            }
            return 255;
        }
        let (s, e) = crate::round::unpack(m);
        proof {
            // the position lies between those of 1 and 2^52, so -52 <= e < 0
            assert(-52 <= e < 0) by {
                let h = HIDDEN_BIT as int;
                assert(m as int == h * (m as int / h) + (m as int % h));
            }
        }
        let d: u128 = crate::power::two_pow((-e) as u32);
        proof {
            lemma_exp2_pos(-e);
        }
        let whole: u128 = (s as u128) / d;
        proof {
            lemma_exp2_pos(e + 1074);
            lemma_exp2_add(e + 1074, -e);
            let a = exp2(e + 1074);
            vstd::arithmetic::div_mod::lemma_div_multiples_vanish_quotient(a, s as int, d as int);
            assert(s * a == a * s) by (nonlinear_arith);
            assert(a * d == exp2(1074));
            assert(self.magnitude() / exp2(1074) == whole);
            if self.magnitude() >= 255 * exp2(1074) {
                vstd::arithmetic::div_mod::lemma_div_is_ordered(
                    255 * exp2(1074),
                    self.magnitude(),
                    exp2(1074),
                );
                vstd::arithmetic::div_mod::lemma_div_multiples_vanish(255, exp2(1074));
            }
            if whole >= 255 {
                assert(self.magnitude() >= 255 * exp2(1074)) by {
                    vstd::arithmetic::div_mod::lemma_fundamental_div_mod(
                        self.magnitude(),
                        exp2(1074),
                    );
                    assert(exp2(1074) * whole >= exp2(1074) * 255) by (nonlinear_arith)
                        requires
                            whole >= 255,
                            exp2(1074) >= 0,
                    ;
                }
            }
        }
        if whole >= 255 {
            255
        } else {
            whole as u8
        }
    }

    /// The position with its sign, zero for either zero: numbers are ordered as
    /// their keys are.
    fn key(self) -> (k: i128)
        requires
            !self.nan(),
        ensures
            k == if self.negative() {
                -self.ordinal()
            } else {
                self.ordinal()
            },
    {
        let m = self.position();
        if self.is_sign_negative() {
            -(m as i128)
        } else {
            m as i128
        }
    }

    /// Whether both are numbers and the first is the smaller one.
    pub fn lt(self, other: Scalar) -> (r: bool)
        ensures
            r == self.less_than(other),
    {
        if self.is_nan() || other.is_nan() {
            return false;
        }
        proof {
            lemma_order(self.ordinal(), other.ordinal());
            lemma_order(self.ordinal(), 0);
            lemma_order(other.ordinal(), 0);
        }
        self.key() < other.key()
    }

    /// Whether both are numbers and the first is not the greater one.
    pub fn le(self, other: Scalar) -> (r: bool)
        ensures
            r == (self.less_than(other) || self.same_value(other)),
    {
        if self.is_nan() || other.is_nan() {
            return false;
        }
        proof {
            lemma_order(self.ordinal(), other.ordinal());
            lemma_order(self.ordinal(), 0);
            lemma_order(other.ordinal(), 0);
        }
        self.key() <= other.key()
    }

    /// Whether both are numbers of the same value.
    pub fn equals(self, other: Scalar) -> (r: bool)
        ensures
            r == self.same_value(other),
    {
        if self.is_nan() || other.is_nan() {
            return false;
        }
        proof {
            lemma_order(self.ordinal(), other.ordinal());
            lemma_order(self.ordinal(), 0);
            lemma_order(other.ordinal(), 0);
        }
        self.key() == other.key()
    }

    /// The larger of two numbers; where one is not a number, the other.
    pub fn max(self, other: Scalar) -> (r: Scalar)
        ensures
            r == self.max_spec(other),
    {
        if self.is_nan() {
            other
        } else if other.is_nan() {
            self
        } else if self.lt(other) {
            other
        } else {
            self
        }
    }

    /// The smaller of two numbers; where one is not a number, the other.
    pub fn min(self, other: Scalar) -> (r: Scalar)
        ensures
            r == self.min_spec(other),
    {
        if self.is_nan() {
            other
        } else if other.is_nan() {
            self
        } else if other.lt(self) {
            other
        } else {
            self
        }
    }

    /// The same magnitude with the sign cleared.
    pub fn abs(self) -> (r: Scalar)
        ensures
            r == self.abs_spec(),
    {
        Scalar::from_parts(false, self.position())
    }

    /// Zero, with the positive sign.
    pub fn zero_value() -> (r: Scalar)
        ensures
            r == Scalar::of_int(0),
            r.bits == 0,
    {
        proof {
            lemma_nearest_exact(0);
            lemma_order(0, 0);
            lemma_exp2_pos(1074);
            assert(0 * 1 == 0 * exp2(1074)) by (nonlinear_arith);
            lemma_nearest_same_ratio(0, exp2(1074), 0, 1);
        }
        Scalar { bits: 0 }
    }

    /// One.
    pub fn one() -> (r: Scalar)
        ensures
            r == Scalar::of_int(1),
    {
        proof {
            lemma_exp2_values();
            lemma_literal_exact(0x10_0000_0000_0000, -52, 1, 1);
        }
        Scalar { bits: 0x3FF0_0000_0000_0000 }
    }

    /// Positive infinity.
    pub fn infinity() -> (r: Scalar)
        ensures
            r == Scalar::signed(false, INFINITY_ORDINAL as int),
            r.infinite(),
            !r.negative(),
    {
        Scalar { bits: INFINITY_ORDINAL }
    }

    /// One half.
    pub fn half() -> (r: Scalar)
        ensures
            r == Scalar::of_ratio(1, 2),
    {
        proof {
            lemma_exp2_values();
            lemma_literal_exact(0x10_0000_0000_0000, -53, 1, 2);
        }
        Scalar { bits: 0x3FE0_0000_0000_0000 }
    }
}

/// A scalar is the only one of its sign and position.
pub proof fn lemma_parts_determine(x: Scalar, y: Scalar)
    requires
        x.negative() == y.negative(),
        x.ordinal() == y.ordinal(),
    ensures
        x == y,
{
    let a = x.bits;
    let b = y.bits;
    assert(a >= SIGN_BIT ==> a == a % SIGN_BIT + SIGN_BIT);
    assert(a < SIGN_BIT ==> a == a % SIGN_BIT);
    assert(b >= SIGN_BIT ==> b == b % SIGN_BIT + SIGN_BIT);
    assert(b < SIGN_BIT ==> b == b % SIGN_BIT);
    assert(a == b);
}

/// A number is the only scalar that stands for it.
pub proof fn lemma_view_determines(x: Scalar, y: Scalar)
    requires
        x@ == y@,
        !x.nan(),
    ensures
        x == y,
{
    assert(!y.nan());
    if x.infinite() {
        assert(y.infinite());
        assert(x.negative() == y.negative());
    } else {
        assert(y.finite());
        assert(x.negative() == y.negative());
        assert(x.magnitude() == y.magnitude());
        lemma_order(x.ordinal(), y.ordinal());
    }
    lemma_parts_determine(x, y);
}

/// What the scalars zero and one are.
pub proof fn lemma_zero_and_one()
    ensures
        Scalar::of_int(0).bits == 0,
        Scalar::of_int(0).magnitude() == 0,
        Scalar::of_int(1).bits == 0x3FF0_0000_0000_0000,
        Scalar::of_int(1).magnitude() == exp2(1074),
{
    lemma_exp2_values();
    lemma_nearest_exact(0);
    lemma_order(0, 0);
    lemma_exp2_pos(1074);
    assert(0 * 1 == 0 * exp2(1074)) by (nonlinear_arith);
    lemma_nearest_same_ratio(0, exp2(1074), 0, 1);
    lemma_literal_exact(0x10_0000_0000_0000, -52, 1, 1);
    lemma_neighbours(0x10_0000_0000_0000, -52);
    lemma_exp2_add(52, 1022);
}

impl PartialEqSpecImpl for Scalar {
    open spec fn obeys_eq_spec() -> bool {
        true
    }

    /// Equality of values: what is not a number equals nothing, the two zeros
    /// equal each other.
    open spec fn eq_spec(&self, other: &Scalar) -> bool {
        self.same_value(*other)
    }
}

impl PartialEq for Scalar {
    fn eq(&self, other: &Scalar) -> (r: bool) {
        self.equals(*other)
    }
}

/// The number with significand `s` and exponent `e <= 0` is the fraction `p / q`
/// if `s * q == p * 2^-e`.
pub proof fn lemma_literal_exact(s: int, e: int, p: int, q: int)
    requires
        encodable(s, e),
        s < 2 * HIDDEN_BIT,
        e <= 0,
        q > 0,
        s * q == p * exp2(-e),
    ensures
        nearest(p, q) == ordinal_of(s, e),
{
    let m = ordinal_of(s, e);
    let w = exp2(e + 1074);
    let k = exp2(1074);
    lemma_neighbours(s, e);
    lemma_nearest_exact(m);
    lemma_exp2_add(-e, e + 1074);
    lemma_exp2_pos(1074);
    assert((s * w) * q == p * k) by (nonlinear_arith)
        requires
            s * q == p * exp2(-e),
            exp2(-e) * w == k,
    ;
    lemma_nearest_same_ratio(magnitude_at(m), k, p, q);
}

/// The number with significand `s` and exponent `e <= 0`, where `s` is neither the
/// least nor the greatest significand, is the fraction `p / q` rounded if `p / q`
/// lies within half a unit of `s`, in units of `2^e`; a tie asks for an even `s`.
pub proof fn lemma_literal_rounded(s: int, e: int, p: int, q: int)
    requires
        encodable(s, e),
        HIDDEN_BIT < s < 2 * HIDDEN_BIT - 1,
        e <= 0,
        q > 0,
        (2 * s - 1) * q <= 2 * p * exp2(-e),
        2 * p * exp2(-e) <= (2 * s + 1) * q,
        s % 2 == 1 ==> (2 * s - 1) * q < 2 * p * exp2(-e),
        s % 2 == 1 ==> 2 * p * exp2(-e) < (2 * s + 1) * q,
    ensures
        nearest(p, q) == ordinal_of(s, e),
{
    let m = ordinal_of(s, e);
    let w = exp2(e + 1074);
    let k = exp2(1074);
    let d = exp2(-e);
    lemma_neighbours(s, e);
    lemma_exp2_add(-e, e + 1074);
    lemma_exp2_pos(1074);
    lemma_exp2_pos(e + 1074);
    let lo = magnitude_at(m - 1) + magnitude_at(m);
    let hi = magnitude_at(m) + magnitude_at(m + 1);
    assert(lo == (2 * s - 1) * w) by (nonlinear_arith)
        requires
            lo == (s - 1) * w + s * w,
    ;
    assert(hi == (2 * s + 1) * w) by (nonlinear_arith)
        requires
            hi == s * w + (s + 1) * w,
    ;
    assert(lo * q == ((2 * s - 1) * q) * w) by (nonlinear_arith)
        requires
            lo == (2 * s - 1) * w,
    ;
    assert(hi * q == ((2 * s + 1) * q) * w) by (nonlinear_arith)
        requires
            hi == (2 * s + 1) * w,
    ;
    assert(2 * p * k == (2 * p * d) * w) by (nonlinear_arith)
        requires
            d * w == k,
    ;
    crate::power::lemma_scale_le((2 * s - 1) * q, 2 * p * d, w);
    crate::power::lemma_scale_le(2 * p * d, (2 * s + 1) * q, w);
    if s % 2 == 1 {
        crate::power::lemma_scale_lt((2 * s - 1) * q, 2 * p * d, w);
        crate::power::lemma_scale_lt(2 * p * d, (2 * s + 1) * q, w);
    }
    assert(is_nearest(m, p, q));
    lemma_nearest_is(m, p, q);
}

} // verus!
