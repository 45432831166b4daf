//! Laws of the arithmetic: what holds of sums, products, quotients and roots
//! whatever their operands, beyond the value of each.
use crate::grid::{
    lemma_magnitude_increases, lemma_nearest_exists, lemma_nearest_monotone,
    lemma_nearest_root_exists, lemma_neighbours, lemma_order, lemma_ordinal_magnitude,
    gap_at, is_nearest, lemma_magnitude_step, magnitude_at, nearest, nearest_root, ordinal_of,
    HIDDEN_BIT, INFINITY_ORDINAL,
};
use crate::power::{
    distance, exp2, lemma_exp2_add, lemma_exp2_le, lemma_exp2_pos, lemma_exp2_succ,
    lemma_exp2_values, lemma_scale_le, lemma_scale_lt,
};
use crate::round::{lemma_nearest_exact, lemma_nearest_same_ratio};
use crate::quotient::lemma_nearest_zero;
use crate::scalar::{lemma_parts_determine, lemma_zero_and_one, Scalar};
use crate::vec3::Vec3;
use vstd::prelude::*;

verus! {

/// The sign and the position of a scalar that was put together from them.
pub proof fn lemma_signed(negative: bool, m: int)
    requires
        0 <= m <= INFINITY_ORDINAL,
    ensures
        Scalar::signed(negative, m).ordinal() == m,
        Scalar::signed(negative, m).negative() == negative,
        !Scalar::signed(negative, m).nan(),
        Scalar::signed(negative, m).magnitude() == magnitude_at(m),
        0 <= magnitude_at(m) <= magnitude_at(INFINITY_ORDINAL as int),
        m == 0 <==> magnitude_at(m) == 0,
{
    lemma_order(m, 0);
    lemma_magnitude_increases(m, INFINITY_ORDINAL as int);
}

/// The magnitude of a number lies between zero and that of infinity, and is that
/// of infinity for infinity alone.
pub proof fn lemma_magnitude_bounds(x: Scalar)
    requires
        !x.nan(),
    ensures
        0 <= x.magnitude() <= magnitude_at(INFINITY_ORDINAL as int),
        x.infinite() <==> x.magnitude() == magnitude_at(INFINITY_ORDINAL as int),
        x.zero() <==> x.magnitude() == 0,
{
    lemma_order(x.ordinal(), 0);
    lemma_order(x.ordinal(), INFINITY_ORDINAL as int);
}

/// The value that an exact value `t`, in units of 2^-1074, is rounded to.
pub open spec fn rounded_value(t: int) -> int {
    if t == 0 {
        0
    } else if t > 0 {
        magnitude_at(nearest(t, exp2(1074)))
    } else {
        -magnitude_at(nearest(-t, exp2(1074)))
    }
}

/// Rounding keeps the order of exact values of either sign.
pub proof fn lemma_rounded_value_monotone(t1: int, t2: int)
    requires
        t1 <= t2,
    ensures
        rounded_value(t1) <= rounded_value(t2),
{
    let k = exp2(1074);
    lemma_exp2_pos(1074);
    if t1 > 0 {
        lemma_scale_le(t1, t2, k);
        lemma_nearest_monotone(t1, k, t2, k);
        lemma_nearest_exists(t1, k);
        lemma_magnitude_increases(nearest(t1, k), nearest(t2, k));
    } else if t2 < 0 {
        lemma_scale_le(-t2, -t1, k);
        lemma_nearest_monotone(-t2, k, -t1, k);
        lemma_nearest_exists(-t2, k);
        lemma_magnitude_increases(nearest(-t2, k), nearest(-t1, k));
    } else {
        if t1 < 0 {
            lemma_nearest_exists(-t1, k);
            lemma_order(nearest(-t1, k), 0);
        }
        if t2 > 0 {
            lemma_nearest_exists(t2, k);
            lemma_order(nearest(t2, k), 0);
        }
    }
}

/// The sum of two finite numbers is their exact sum, rounded.
pub proof fn lemma_plus_finite(a: Scalar, b: Scalar)
    requires
        a.finite(),
        b.finite(),
    ensures
        !a.plus(b).nan(),
        a.plus(b).signed_magnitude() == rounded_value(a.signed_magnitude() + b.signed_magnitude()),
        a.plus(b).negative() == (if a.signed_magnitude() + b.signed_magnitude() == 0 {
            a.negative() && b.negative()
        } else {
            a.signed_magnitude() + b.signed_magnitude() < 0
        }),
{
    reveal(Scalar::plus);
    let total = a.signed_magnitude() + b.signed_magnitude();
    lemma_exp2_pos(1074);
    if total == 0 {
        lemma_signed(a.negative() && b.negative(), 0);
    } else {
        lemma_nearest_exists(distance(total), exp2(1074));
        lemma_signed(total < 0, nearest(distance(total), exp2(1074)));
    }
}

/// A sum grows with its second operand: if `b1 <= b2` then `x + b2` is not less
/// than `x + b1`.
pub proof fn lemma_plus_monotone(x: Scalar, b1: Scalar, b2: Scalar)
    requires
        !b1.nan(),
        !b2.nan(),
        b1.signed_magnitude() <= b2.signed_magnitude(),
    ensures
        !x.plus(b2).less_than(x.plus(b1)),
{
    reveal(Scalar::plus);
    let r1 = x.plus(b1);
    let r2 = x.plus(b2);
    lemma_magnitude_bounds(b1);
    lemma_magnitude_bounds(b2);
    if x.nan() || r1.nan() || r2.nan() {
    } else if x.infinite() {
    } else if b1.infinite() || b2.infinite() {
        lemma_magnitude_bounds(r1);
        lemma_magnitude_bounds(r2);
    } else {
        lemma_plus_finite(x, b1);
        lemma_plus_finite(x, b2);
        lemma_rounded_value_monotone(
            x.signed_magnitude() + b1.signed_magnitude(),
            x.signed_magnitude() + b2.signed_magnitude(),
        );
    }
}

/// A sum of two numbers without the sign bit has none either.
pub proof fn lemma_plus_nonnegative(a: Scalar, b: Scalar)
    requires
        !a.negative(),
        !b.negative(),
    ensures
        !a.plus(b).negative(),
{
    reveal(Scalar::plus);
    if a.nan() || b.nan() {
    } else if a.infinite() || b.infinite() {
    } else {
        lemma_magnitude_bounds(a);
        lemma_magnitude_bounds(b);
        lemma_plus_finite(a, b);
    }
}

/// A product has the sign bit where exactly one operand has it, unless it is not
/// a number; the square of a number never has it.
pub proof fn lemma_times_sign(x: Scalar, y: Scalar)
    ensures
        !x.times(y).nan() ==> x.times(y).negative() == (x.negative() != y.negative()),
        !x.times(x).negative(),
{
    reveal(Scalar::times);
    lemma_exp2_pos(2148);
    if !x.nan() && !y.nan() && !x.infinite() && !y.infinite() {
        lemma_nearest_exists(x.magnitude() * y.magnitude(), exp2(2148));
        lemma_signed(
            x.negative() != y.negative(),
            nearest(x.magnitude() * y.magnitude(), exp2(2148)),
        );
    } else {
        lemma_signed(x.negative() != y.negative(), INFINITY_ORDINAL as int);
    }
    if !x.nan() && !x.infinite() {
        lemma_nearest_exists(x.magnitude() * x.magnitude(), exp2(2148));
        lemma_signed(false, nearest(x.magnitude() * x.magnitude(), exp2(2148)));
    } else {
        lemma_signed(false, INFINITY_ORDINAL as int);
    }
}

/// A quotient by a number without the sign bit grows with the dividend: if
/// `n1 <= n2` then `n2 / d` is not less than `n1 / d`.
pub proof fn lemma_over_monotone(n1: Scalar, n2: Scalar, d: Scalar)
    requires
        !n1.nan(),
        !n2.nan(),
        n1.signed_magnitude() <= n2.signed_magnitude(),
        !d.negative(),
    ensures
        !n2.over(d).less_than(n1.over(d)),
{
    reveal(Scalar::over);
    let r1 = n1.over(d);
    let r2 = n2.over(d);
    lemma_magnitude_bounds(n1);
    lemma_magnitude_bounds(n2);
    if d.nan() || r1.nan() || r2.nan() {
    } else if d.infinite() || d.zero() || n1.infinite() || n2.infinite() {
        lemma_magnitude_bounds(r1);
        lemma_magnitude_bounds(r2);
        lemma_magnitude_bounds(d);
        lemma_signed(n1.negative(), 0);
        lemma_signed(n2.negative(), 0);
        lemma_signed(n1.negative(), INFINITY_ORDINAL as int);
        lemma_signed(n2.negative(), INFINITY_ORDINAL as int);
    } else {
        lemma_magnitude_bounds(d);
        let q = d.magnitude();
        let m1 = nearest(n1.magnitude(), q);
        let m2 = nearest(n2.magnitude(), q);
        lemma_nearest_exists(n1.magnitude(), q);
        lemma_nearest_exists(n2.magnitude(), q);
        lemma_signed(n1.negative(), m1);
        lemma_signed(n2.negative(), m2);
        lemma_nearest_zero(q);
        lemma_order(m1, 0);
        lemma_order(m2, 0);
        if !n1.negative() && !n2.negative() {
            lemma_scale_le(n1.magnitude(), n2.magnitude(), q);
            lemma_nearest_monotone(n1.magnitude(), q, n2.magnitude(), q);
            lemma_magnitude_increases(m1, m2);
        } else if n1.negative() && n2.negative() {
            lemma_scale_le(n2.magnitude(), n1.magnitude(), q);
            lemma_nearest_monotone(n2.magnitude(), q, n1.magnitude(), q);
            lemma_magnitude_increases(m2, m1);
        } else if !n1.negative() {
            // n2 is a negative zero, and n1 a zero with it
            assert(n1.magnitude() == 0 && n2.magnitude() == 0);
        }
    }
}

/// A square root that is a number is not negative.
pub proof fn lemma_sqrt_nonnegative(x: Scalar)
    ensures
        !x.sqrt_spec().nan() ==> x.sqrt_spec().signed_magnitude() >= 0,
{
    reveal(Scalar::sqrt_spec);
    lemma_exp2_pos(1074);
    if !x.nan() {
        lemma_magnitude_bounds(x);
        lemma_nearest_root_exists(x.magnitude(), exp2(1074));
        lemma_signed(false, nearest_root(x.magnitude(), exp2(1074)));
    }
}

/// Turning the sign turns the value, and keeps what is not a number so.
pub proof fn lemma_negated(x: Scalar)
    ensures
        x.negated().nan() == x.nan(),
        x.negated().magnitude() == x.magnitude(),
        x.negated().negative() == !x.negative(),
        x.negated().signed_magnitude() == -x.signed_magnitude(),
{
}

/// The squared length of a vector never has the sign bit.
pub proof fn lemma_length_squared_sign(v: Vec3)
    ensures
        !v.length_squared_spec().negative(),
{
    lemma_times_sign(v.x, v.x);
    lemma_times_sign(v.y, v.y);
    lemma_times_sign(v.z, v.z);
    lemma_plus_nonnegative(v.x.times(v.x), v.y.times(v.y));
    lemma_plus_nonnegative(v.x.times(v.x).plus(v.y.times(v.y)), v.z.times(v.z));
}

/// What is not a number stays so in sums and quotients.
pub proof fn lemma_nan_spreads(x: Scalar, y: Scalar)
    requires
        x.nan() || y.nan(),
    ensures
        x.plus(y).nan(),
        x.over(y).nan(),
        x.times(y).nan(),
{
    reveal(Scalar::plus);
    reveal(Scalar::over);
    reveal(Scalar::times);
}

/// Whether two scalars are opposite numbers, or both not numbers.
pub open spec fn opposite(x: Scalar, y: Scalar) -> bool {
    if x.nan() || y.nan() {
        x.nan() && y.nan()
    } else {
        x.signed_magnitude() == -y.signed_magnitude()
    }
}

/// Turning the sign of one factor turns the product.
pub proof fn lemma_times_opposite(a: Scalar, b: Scalar)
    ensures
        opposite(a.times(b.negated()), a.times(b)),
{
    reveal(Scalar::times);
    lemma_negated(b);
    lemma_exp2_pos(2148);
    if !a.nan() && !b.nan() {
        let m = if a.infinite() || b.infinite() {
            INFINITY_ORDINAL as int
        } else {
            nearest(a.magnitude() * b.magnitude(), exp2(2148))
        };
        lemma_nearest_exists(a.magnitude() * b.magnitude(), exp2(2148));
        lemma_signed(a.negative() != b.negative(), m);
        lemma_signed(a.negative() != !b.negative(), m);
    }
}

/// The sum of the opposites is the opposite of the sum.
pub proof fn lemma_plus_opposite(x1: Scalar, x2: Scalar, y1: Scalar, y2: Scalar)
    requires
        opposite(x1, y1),
        opposite(x2, y2),
    ensures
        opposite(x1.plus(x2), y1.plus(y2)),
{
    reveal(Scalar::plus);
    if x1.nan() || x2.nan() {
    } else {
        lemma_magnitude_bounds(x1);
        lemma_magnitude_bounds(x2);
        lemma_magnitude_bounds(y1);
        lemma_magnitude_bounds(y2);
        if x1.infinite() || x2.infinite() {
        } else {
            lemma_plus_finite(x1, x2);
            lemma_plus_finite(y1, y2);
        }
    }
}

/// Against the opposite vector the dot product is the opposite.
pub proof fn lemma_dot_opposite(d: Vec3, n: Vec3)
    ensures
        opposite(d.dot_spec(n.negated()), d.dot_spec(n)),
{
    lemma_times_opposite(d.x, n.x);
    lemma_times_opposite(d.y, n.y);
    lemma_times_opposite(d.z, n.z);
    lemma_plus_opposite(
        d.x.times(n.x.negated()),
        d.y.times(n.y.negated()),
        d.x.times(n.x),
        d.y.times(n.y),
    );
    lemma_plus_opposite(
        d.x.times(n.x.negated()).plus(d.y.times(n.y.negated())),
        d.z.times(n.z.negated()),
        d.x.times(n.x).plus(d.y.times(n.y)),
        d.z.times(n.z),
    );
}

/// Whether the scalar is the integer `n`, which is of a size that scalars hold
/// exactly: 2^53 at most.
pub open spec fn is_integer(x: Scalar, n: int) -> bool {
    &&& !x.nan()
    &&& -0x20_0000_0000_0000 <= n <= 0x20_0000_0000_0000
    &&& x.signed_magnitude() == n * exp2(1074)
}

proof fn lemma_bit_length(n: int) -> (j: int)
    requires
        n >= 1,
    ensures
        j >= 1,
        exp2(j - 1) <= n < exp2(j),
    decreases n,
{
    lemma_exp2_values();
    if n == 1 {
        1
    } else {
        let j = lemma_bit_length(n / 2);
        lemma_exp2_succ(j - 1);
        lemma_exp2_succ(j);
        j + 1
    }
}

/// Every integer up to 2^53 is the magnitude of a finite position.
pub proof fn lemma_integer_position(n: int) -> (m: int)
    requires
        0 <= n <= 0x20_0000_0000_0000,
    ensures
        0 <= m < INFINITY_ORDINAL,
        magnitude_at(m) == n * exp2(1074),
        n == 0 <==> m == 0,
{
    lemma_exp2_values();
    if n == 0 {
        lemma_neighbours(0, -1074);
        assert(0 * exp2(1074) == 0) by (nonlinear_arith);
        0
    } else if n == 0x20_0000_0000_0000 {
        lemma_ordinal_magnitude(n, 0);
        lemma_order(ordinal_of(n, 0), 0);
        ordinal_of(n, 0)
    } else {
        let j = lemma_bit_length(n);
        if j > 53 {
            lemma_exp2_le(53, j - 1);
        }
        let s = n * exp2(53 - j);
        let e = j - 53;
        lemma_exp2_pos(53 - j);
        lemma_exp2_add(j, 53 - j);
        lemma_exp2_add(j - 1, 53 - j);
        lemma_scale_lt(n, exp2(j), exp2(53 - j));
        lemma_scale_le(exp2(j - 1), n, exp2(53 - j));
        lemma_ordinal_magnitude(s, e);
        lemma_exp2_add(53 - j, e + 1074);
        assert(s * exp2(e + 1074) == n * exp2(1074)) by (nonlinear_arith)
            requires
                s == n * exp2(53 - j),
                exp2(53 - j) * exp2(e + 1074) == exp2(1074),
        ;
        lemma_order(ordinal_of(s, e), 0);
        lemma_exp2_pos(1074);
        assert(n * exp2(1074) > 0) by (nonlinear_arith)
            requires
                n > 0,
                exp2(1074) > 0,
        ;
        ordinal_of(s, e)
    }
}

/// An integer up to 2^53 in size is not changed by rounding.
pub proof fn lemma_rounded_integer(n: int)
    requires
        -0x20_0000_0000_0000 <= n <= 0x20_0000_0000_0000,
    ensures
        rounded_value(n * exp2(1074)) == n * exp2(1074),
{
    let k = exp2(1074);
    lemma_exp2_pos(1074);
    let size = distance(n);
    let m = lemma_integer_position(size);
    lemma_nearest_exact(m);
    if n > 0 {
        assert(n * k > 0) by (nonlinear_arith)
            requires
                n > 0,
                k > 0,
        ;
    } else if n < 0 {
        assert(n * k < 0 && -(n * k) == (-n) * k) by (nonlinear_arith)
            requires
                n < 0,
                k > 0,
        ;
    } else {
        assert(n * k == 0) by (nonlinear_arith)
            requires
                n == 0,
        ;
    }
}

/// Integers are finite.
pub proof fn lemma_integer_finite(x: Scalar, n: int)
    requires
        is_integer(x, n),
    ensures
        x.finite(),
        x.magnitude() == distance(n) * exp2(1074),
        n > 0 ==> !x.negative(),
        n < 0 ==> x.negative(),
{
    let k = exp2(1074);
    lemma_exp2_pos(1074);
    lemma_magnitude_bounds(x);
    lemma_neighbours(2 * HIDDEN_BIT, 971);
    lemma_exp2_values();
    lemma_exp2_add(53, 2045);
    lemma_exp2_add(53, 1074);
    lemma_exp2_le(1127, 2098);
    assert(distance(n) * k <= exp2(53) * k) by (nonlinear_arith)
        requires
            distance(n) <= exp2(53),
            k > 0,
    ;
    assert(n > 0 ==> n * k > 0) by (nonlinear_arith)
        requires
            k > 0,
    ;
    assert(n < 0 ==> n * k < 0 && -(n * k) == (-n) * k) by (nonlinear_arith)
        requires
            k > 0,
    ;
    assert(n == 0 ==> n * k == 0) by (nonlinear_arith);
    lemma_exp2_le(1127, 2097);
    lemma_exp2_succ(2097);
}

/// The sum of two integers is exact while it is 2^53 at most in size.
pub proof fn lemma_plus_integers(x: Scalar, y: Scalar, a: int, b: int)
    requires
        is_integer(x, a),
        is_integer(y, b),
        -0x20_0000_0000_0000 <= a + b <= 0x20_0000_0000_0000,
    ensures
        is_integer(x.plus(y), a + b),
{
    lemma_integer_finite(x, a);
    lemma_integer_finite(y, b);
    lemma_plus_finite(x, y);
    lemma_rounded_integer(a + b);
    assert(a * exp2(1074) + b * exp2(1074) == (a + b) * exp2(1074)) by (nonlinear_arith);
}

/// The product of two integers is exact while it is 2^53 at most in size.
pub proof fn lemma_times_integers(x: Scalar, y: Scalar, a: int, b: int)
    requires
        is_integer(x, a),
        is_integer(y, b),
        -0x20_0000_0000_0000 <= a * b <= 0x20_0000_0000_0000,
    ensures
        is_integer(x.times(y), a * b),
{
    reveal(Scalar::times);
    lemma_integer_finite(x, a);
    lemma_integer_finite(y, b);
    let k = exp2(1074);
    let kk = exp2(2148);
    lemma_exp2_pos(1074);
    lemma_exp2_pos(2148);
    lemma_exp2_add(1074, 1074);
    let size = distance(a * b);
    assert(size == distance(a) * distance(b)) by (nonlinear_arith)
        requires
            size == distance(a * b),
    ;
    let m = lemma_integer_position(size);
    lemma_nearest_exact(m);
    let p = x.magnitude() * y.magnitude();
    assert(magnitude_at(m) * kk == p * k) by (nonlinear_arith)
        requires
            magnitude_at(m) == distance(a) * distance(b) * k,
            p == (distance(a) * k) * (distance(b) * k),
            kk == k * k,
    ;
    lemma_nearest_same_ratio(magnitude_at(m), k, p, kk);
    lemma_signed(x.negative() != y.negative(), m);
    assert((a * b) * k == if (a < 0) != (b < 0) {
        -(size * k)
    } else {
        size * k
    }) by (nonlinear_arith)
        requires
            size == distance(a) * distance(b),
    ;
    if a == 0 || b == 0 {
        assert(size == 0) by (nonlinear_arith)
            requires
                size == distance(a) * distance(b),
                a == 0 || b == 0,
        ;
    }
}

/// The opposite of an integer.
pub proof fn lemma_negated_integer(x: Scalar, a: int)
    requires
        is_integer(x, a),
    ensures
        is_integer(x.negated(), -a),
{
    lemma_negated(x);
    assert((-a) * exp2(1074) == -(a * exp2(1074))) by (nonlinear_arith);
}

/// The integer `n` as a scalar is that integer.
pub proof fn lemma_of_int(n: int)
    requires
        -0x20_0000_0000_0000 <= n <= 0x20_0000_0000_0000,
    ensures
        is_integer(Scalar::of_int(n), n),
{
    let k = exp2(1074);
    lemma_exp2_pos(1074);
    let size = distance(n);
    let m = lemma_integer_position(size);
    lemma_nearest_exact(m);
    assert(magnitude_at(m) * 1 == size * k);
    lemma_nearest_same_ratio(magnitude_at(m), k, size, 1);
    lemma_signed(n < 0, m);
    assert(n < 0 ==> n * k == -(size * k)) by (nonlinear_arith)
        requires
            size == distance(n),
    ;
}

/// Whether the vector is the vector of integers `(a, b, c)`.
pub open spec fn is_integer_vector(v: Vec3, a: int, b: int, c: int) -> bool {
    is_integer(v.x, a) && is_integer(v.y, b) && is_integer(v.z, c)
}

/// The dot product of two vectors of integers up to 2^24 in size is exact.
pub proof fn lemma_dot_integers(v: Vec3, w: Vec3, a: int, b: int, c: int, d: int, e: int, f: int)
    requires
        is_integer_vector(v, a, b, c),
        is_integer_vector(w, d, e, f),
        -0x100_0000 <= a <= 0x100_0000,
        -0x100_0000 <= b <= 0x100_0000,
        -0x100_0000 <= c <= 0x100_0000,
        -0x100_0000 <= d <= 0x100_0000,
        -0x100_0000 <= e <= 0x100_0000,
        -0x100_0000 <= f <= 0x100_0000,
    ensures
        is_integer(v.dot_spec(w), a * d + b * e + c * f),
        -0x3_0000_0000_0000 <= a * d + b * e + c * f <= 0x3_0000_0000_0000,
{
    lemma_product_bound(a, d, 0x100_0000);
    lemma_product_bound(b, e, 0x100_0000);
    lemma_product_bound(c, f, 0x100_0000);
    lemma_times_integers(v.x, w.x, a, d);
    lemma_times_integers(v.y, w.y, b, e);
    lemma_times_integers(v.z, w.z, c, f);
    lemma_plus_integers(v.x.times(w.x), v.y.times(w.y), a * d, b * e);
    lemma_plus_integers(v.x.times(w.x).plus(v.y.times(w.y)), v.z.times(w.z), a * d + b * e, c * f);
}

proof fn lemma_product_bound(a: int, b: int, bound: int)
    requires
        -bound <= a <= bound,
        -bound <= b <= bound,
    ensures
        -(bound * bound) <= a * b <= bound * bound,
{
    assert(-(bound * bound) <= a * b <= bound * bound) by (nonlinear_arith)
        requires
            -bound <= a <= bound,
            -bound <= b <= bound,
    ;
}

/// The law of reflection, where nothing is rounded: for a vector `v` of integers
/// up to 2^24 in size and a unit vector `n` of integers, the share of the
/// reflected vector along `n` is the opposite of that of `v`.
pub proof fn lemma_reflection_law(v: Vec3, n: Vec3, a: int, b: int, c: int, d: int, e: int, f: int)
    requires
        is_integer_vector(v, a, b, c),
        is_integer_vector(n, d, e, f),
        -0x100_0000 <= a <= 0x100_0000,
        -0x100_0000 <= b <= 0x100_0000,
        -0x100_0000 <= c <= 0x100_0000,
        d * d + e * e + f * f == 1,
    ensures
        v.reflect_spec(n).dot_spec(n).same_value(v.dot_spec(n).negated()),
{
    assert(-1 <= d <= 1 && -1 <= e <= 1 && -1 <= f <= 1) by (nonlinear_arith)
        requires
            d * d + e * e + f * f == 1,
    ;
    let s = a * d + b * e + c * f;
    lemma_dot_integers(v, n, a, b, c, d, e, f);
    let dot = v.dot_spec(n);
    lemma_of_int(2);
    lemma_times_integers(Scalar::of_int(2), dot, 2, s);
    let twice = Scalar::of_int(2).times(dot);
    lemma_product_bound(d, 2 * s, 0x6_0000_0000_0000);
    lemma_product_bound(e, 2 * s, 0x6_0000_0000_0000);
    lemma_product_bound(f, 2 * s, 0x6_0000_0000_0000);
    assert(-0x6_0000_0000_0000 <= d * (2 * s) <= 0x6_0000_0000_0000) by (nonlinear_arith)
        requires
            -1 <= d <= 1,
            -0x3_0000_0000_0000 <= s <= 0x3_0000_0000_0000,
    ;
    assert(-0x6_0000_0000_0000 <= e * (2 * s) <= 0x6_0000_0000_0000) by (nonlinear_arith)
        requires
            -1 <= e <= 1,
            -0x3_0000_0000_0000 <= s <= 0x3_0000_0000_0000,
    ;
    assert(-0x6_0000_0000_0000 <= f * (2 * s) <= 0x6_0000_0000_0000) by (nonlinear_arith)
        requires
            -1 <= f <= 1,
            -0x3_0000_0000_0000 <= s <= 0x3_0000_0000_0000,
    ;
    lemma_times_integers(n.x, twice, d, 2 * s);
    lemma_times_integers(n.y, twice, e, 2 * s);
    lemma_times_integers(n.z, twice, f, 2 * s);
    let back = n.scaled(twice);
    lemma_negated_integer(back.x, d * (2 * s));
    lemma_negated_integer(back.y, e * (2 * s));
    lemma_negated_integer(back.z, f * (2 * s));
    lemma_plus_integers(v.x, back.x.negated(), a, -(d * (2 * s)));
    lemma_plus_integers(v.y, back.y.negated(), b, -(e * (2 * s)));
    lemma_plus_integers(v.z, back.z.negated(), c, -(f * (2 * s)));
    let r = v.reflect_spec(n);
    let ra = a - d * (2 * s);
    let rb = b - e * (2 * s);
    let rc = c - f * (2 * s);
    assert(is_integer_vector(r, ra, rb, rc));
    // the shares along n add up exactly
    assert(-0x6_0100_0000_0000 <= ra * d <= 0x6_0100_0000_0000) by (nonlinear_arith)
        requires
            -1 <= d <= 1,
            -0x6_0100_0000_0000 <= ra <= 0x6_0100_0000_0000,
    ;
    assert(-0x6_0100_0000_0000 <= rb * e <= 0x6_0100_0000_0000) by (nonlinear_arith)
        requires
            -1 <= e <= 1,
            -0x6_0100_0000_0000 <= rb <= 0x6_0100_0000_0000,
    ;
    assert(-0x6_0100_0000_0000 <= rc * f <= 0x6_0100_0000_0000) by (nonlinear_arith)
        requires
            -1 <= f <= 1,
            -0x6_0100_0000_0000 <= rc <= 0x6_0100_0000_0000,
    ;
    lemma_times_integers(r.x, n.x, ra, d);
    lemma_times_integers(r.y, n.y, rb, e);
    lemma_times_integers(r.z, n.z, rc, f);
    lemma_plus_integers(r.x.times(n.x), r.y.times(n.y), ra * d, rb * e);
    lemma_plus_integers(r.x.times(n.x).plus(r.y.times(n.y)), r.z.times(n.z), ra * d + rb * e, rc * f);
    assert(ra * d + rb * e + rc * f == -s) by (nonlinear_arith)
        requires
            ra == a - d * (2 * s),
            rb == b - e * (2 * s),
            rc == c - f * (2 * s),
            s == a * d + b * e + c * f,
            d * d + e * e + f * f == 1,
    ;
    lemma_negated_integer(dot, s);
}

/// An integer other than zero is one scalar only.
pub proof fn lemma_integer_unique(x: Scalar, y: Scalar, n: int)
    requires
        is_integer(x, n),
        is_integer(y, n),
        n != 0,
    ensures
        x == y,
{
    lemma_integer_finite(x, n);
    lemma_integer_finite(y, n);
    lemma_order(x.ordinal(), y.ordinal());
    lemma_parts_determine(x, y);
}

/// A sum does not depend on the order of its operands.
pub proof fn lemma_plus_commutes(a: Scalar, b: Scalar)
    ensures
        a.plus(b) == b.plus(a),
{
    reveal(Scalar::plus);
    if !a.nan() && !b.nan() && !a.infinite() && !b.infinite() {
        lemma_plus_finite(a, b);
        lemma_plus_finite(b, a);
    }
    if a.infinite() && b.infinite() && a.negative() == b.negative() {
        lemma_parts_determine(a, b);
    }
}

/// A product does not depend on the order of its factors.
pub proof fn lemma_times_commutes(a: Scalar, b: Scalar)
    ensures
        a.times(b) == b.times(a),
{
    reveal(Scalar::times);
    assert(a.magnitude() * b.magnitude() == b.magnitude() * a.magnitude()) by (nonlinear_arith);
}

/// A vector times a scalar is the scalar times the vector.
pub proof fn lemma_scale_commutes(s: Scalar, v: Vec3)
    ensures
        s.scale(v) == v.scaled(s),
{
    lemma_times_commutes(s, v.x);
    lemma_times_commutes(s, v.y);
    lemma_times_commutes(s, v.z);
}

/// The dot product does not depend on the order of its vectors.
pub proof fn lemma_dot_commutes(v: Vec3, w: Vec3)
    ensures
        v.dot_spec(w) == w.dot_spec(v),
{
    lemma_times_commutes(v.x, w.x);
    lemma_times_commutes(v.y, w.y);
    lemma_times_commutes(v.z, w.z);
}

/// Rounding is off by half a gap at most: the position that `p / q` rounds to
/// lies no farther from it than half the distance to the next position.
pub proof fn lemma_nearest_error(m: int, p: int, q: int)
    requires
        p >= 0,
        q > 0,
        is_nearest(m, p, q),
        m < INFINITY_ORDINAL,
    ensures
        2 * distance(magnitude_at(m) * q - p * exp2(1074)) <= gap_at(m) * q,
{
    let k = exp2(1074);
    let g = magnitude_at(m);
    lemma_exp2_pos(1074);
    lemma_magnitude_step(m);
    assert(2 * p * k == 2 * (p * k)) by (nonlinear_arith);
    assert((g + magnitude_at(m + 1)) * q == 2 * (g * q) + gap_at(m) * q) by (nonlinear_arith)
        requires
            magnitude_at(m + 1) == g + gap_at(m),
    ;
    if m > 0 {
        lemma_magnitude_step(m - 1);
        lemma_magnitude_increases(m - 1, m);
        lemma_scale_le(gap_at(m - 1), gap_at(m), q);
        assert((magnitude_at(m - 1) + g) * q == 2 * (g * q) - gap_at(m - 1) * q)
            by (nonlinear_arith)
            requires
                g == magnitude_at(m - 1) + gap_at(m - 1),
        ;
    } else {
        lemma_order(0, 0);
        assert(g * q == 0) by (nonlinear_arith)
            requires
                g == 0,
        ;
        assert(p * k >= 0) by (nonlinear_arith)
            requires
                p >= 0,
                k > 0,
        ;
        assert(gap_at(m) * q >= 0) by (nonlinear_arith)
            requires
                gap_at(m) >= 1,
                q > 0,
        ;
    }
}

/// One times a number is that number.
pub proof fn lemma_times_one(x: Scalar)
    requires
        !x.nan(),
    ensures
        x.times(Scalar::of_int(1)) == x,
        Scalar::of_int(1).times(x) == x,
{
    reveal(Scalar::times);
    lemma_zero_and_one();
    lemma_times_commutes(x, Scalar::of_int(1));
    lemma_exp2_pos(1074);
    lemma_exp2_add(1074, 1074);
    let one = Scalar::of_int(1);
    lemma_magnitude_bounds(one);
    lemma_magnitude_bounds(x);
    if !x.infinite() {
        let k = exp2(1074);
        lemma_nearest_exact(x.ordinal());
        assert(x.magnitude() * exp2(2148) == (x.magnitude() * k) * k) by (nonlinear_arith)
            requires
                exp2(2148) == k * k,
        ;
        lemma_exp2_pos(2148);
        lemma_nearest_same_ratio(x.magnitude(), k, x.magnitude() * k, exp2(2148));
    }
    lemma_parts_determine(x.times(one), x);
}

/// A number plus zero is that number; a negative zero plus zero is zero.
pub proof fn lemma_plus_zero(x: Scalar)
    requires
        !x.nan(),
    ensures
        x.plus(Scalar::of_int(0)).same_value(x),
        !x.zero() ==> x.plus(Scalar::of_int(0)) == x,
{
    reveal(Scalar::plus);
    lemma_zero_and_one();
    lemma_magnitude_bounds(x);
    if !x.infinite() {
        lemma_exp2_pos(1074);
        lemma_nearest_exact(x.ordinal());
        lemma_signed(x.negative(), x.ordinal());
        lemma_signed(false, 0);
        if !x.zero() {
            lemma_parts_determine(x.plus(Scalar::of_int(0)), x);
        }
    }
}

/// A finite number less itself is zero.
pub proof fn lemma_minus_self(x: Scalar)
    requires
        x.finite(),
    ensures
        x.minus(x) == Scalar::of_int(0),
{
    reveal(Scalar::plus);
    lemma_zero_and_one();
    lemma_negated(x);
    lemma_signed(false, 0);
    lemma_parts_determine(x.minus(x), Scalar::of_int(0));
}

} // verus!
