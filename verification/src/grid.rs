//! The nonnegative scalars as a grid on the number line.
//!
//! Read as an integer, the bit pattern of a nonnegative binary64 number is its
//! position among all of them in increasing order: position 0 is zero, position 1
//! the least positive number, and position `INFINITY_ORDINAL` stands for infinity.
//! This module gives each position its magnitude, measured in units of 2^-1074
//! (the least positive number), and says what it means to round a rational or the
//! square root of a rational to the nearest position, ties going to the even one.
use crate::power::{
    exp2, lemma_cancel_le, lemma_cancel_lt, lemma_exp2_le, lemma_exp2_pos,
    lemma_exp2_succ, lemma_exp2_values, lemma_scale_le, lemma_scale_lt, lemma_square_le,
};
use vstd::prelude::*;

verus! {

/// The position that stands for infinity: one past the largest finite magnitude.
pub const INFINITY_ORDINAL: u64 = 0x7FF0_0000_0000_0000;

/// Two to the power 52: the least significand of a normal number.
pub const HIDDEN_BIT: u64 = 0x10_0000_0000_0000;

/// The integer significand of the number at position `m`.
pub open spec fn significand_at(m: int) -> int {
    if m < HIDDEN_BIT {
        m
    } else {
        HIDDEN_BIT + m % (HIDDEN_BIT as int)
    }
}

/// The exponent of the unit in the last place of the number at position `m`.
pub open spec fn exponent_at(m: int) -> int {
    if m < HIDDEN_BIT {
        -1074
    } else {
        m / (HIDDEN_BIT as int) - 1075
    }
}

/// The distance from position `m` to position `m + 1`, in units of 2^-1074.
pub open spec fn gap_at(m: int) -> int {
    exp2(exponent_at(m) + 1074)
}

/// The magnitude of the number at position `m`, in units of 2^-1074.
pub open spec fn magnitude_at(m: int) -> int {
    significand_at(m) * gap_at(m)
}

/// Each position lies one gap above the one before it.
pub proof fn lemma_magnitude_step(m: int)
    requires
        m >= 0,
    ensures
        magnitude_at(m + 1) == magnitude_at(m) + gap_at(m),
        gap_at(m) >= 1,
        magnitude_at(m) >= 0,
{
    let h = HIDDEN_BIT as int;
    let s = significand_at(m);
    let g = gap_at(m);
    lemma_exp2_pos(exponent_at(m) + 1074);
    assert(s * g >= 0) by (nonlinear_arith)
        requires
            s >= 0,
            g >= 0,
    ;
    if m + 1 < h {
        assert((s + 1) * g == s * g + g) by (nonlinear_arith);
    } else if m + 1 == h {
        lemma_exp2_values();
        assert(exponent_at(m + 1) == -1074);
        assert(significand_at(m + 1) == h);
        assert((s + 1) * g == s * g + g) by (nonlinear_arith);
    } else if (m + 1) % h != 0 {
        assert((m + 1) / h == m / h && (m + 1) % h == m % h + 1) by {
            assert(m == h * (m / h) + m % h);
            assert(m + 1 == h * (m / h) + (m % h + 1));
            vstd::arithmetic::div_mod::lemma_fundamental_div_mod_converse(
                m + 1,
                h,
                m / h,
                m % h + 1,
            );
        }
        assert((s + 1) * g == s * g + g) by (nonlinear_arith);
    } else {
        assert((m + 1) / h == m / h + 1 && m % h == h - 1) by {
            assert(m + 1 == h * ((m + 1) / h) + 0);
            assert(m == h * ((m + 1) / h - 1) + (h - 1));
            vstd::arithmetic::div_mod::lemma_fundamental_div_mod_converse(
                m,
                h,
                (m + 1) / h - 1,
                h - 1,
            );
        }
        lemma_exp2_succ(exponent_at(m) + 1074);
        assert(significand_at(m + 1) == h);
        assert(s == 2 * h - 1);
        assert(gap_at(m + 1) == 2 * g);
        assert(h * (2 * g) == (2 * h - 1) * g + g) by (nonlinear_arith);
    }
}

/// Magnitudes grow with the position.
pub proof fn lemma_magnitude_increases(a: int, b: int)
    requires
        0 <= a <= b,
    ensures
        magnitude_at(a) <= magnitude_at(b),
        a < b ==> magnitude_at(a) < magnitude_at(b),
        gap_at(a) <= gap_at(b),
    decreases b - a,
{
    if a < b {
        lemma_magnitude_increases(a, b - 1);
        lemma_magnitude_step(b - 1);
        let h = HIDDEN_BIT as int;
        if b >= h {
            vstd::arithmetic::div_mod::lemma_div_is_ordered(b - 1, b, h);
            if b - 1 >= h {
                lemma_exp2_le(exponent_at(b - 1) + 1074, exponent_at(b) + 1074);
            } else {
                assert(b == h);
                assert(exponent_at(b) == -1074);
            }
        }
    }
}

/// The position of the number with significand `s` and exponent `e`. A significand
/// of 2^53 (or of 2^52 at the least exponent) is carried into the next exponent.
pub open spec fn ordinal_of(s: int, e: int) -> int {
    (e + 1074) * HIDDEN_BIT + s
}

/// Whether `s` and `e` are the significand and exponent of a finite number,
/// with the carried forms that `ordinal_of` accepts.
pub open spec fn encodable(s: int, e: int) -> bool {
    &&& -1074 <= e <= 971
    &&& 0 <= s <= 2 * HIDDEN_BIT
    &&& e > -1074 ==> s >= HIDDEN_BIT
}

/// The magnitude, the bounds and the gap of the position that `ordinal_of` gives.
pub proof fn lemma_ordinal_magnitude(s: int, e: int)
    requires
        encodable(s, e),
    ensures
        magnitude_at(ordinal_of(s, e)) == s * exp2(e + 1074),
        0 <= ordinal_of(s, e) <= INFINITY_ORDINAL,
        s < 2 * HIDDEN_BIT ==> ordinal_of(s, e) < INFINITY_ORDINAL,
        s < 2 * HIDDEN_BIT ==> gap_at(ordinal_of(s, e)) == exp2(e + 1074),
{
    let h = HIDDEN_BIT as int;
    let m = ordinal_of(s, e);
    let k = e + 1074;
    lemma_exp2_values();
    assert(k * h >= 0 && k * h <= 2045 * h) by (nonlinear_arith)
        requires
            0 <= k <= 2045,
            h > 0,
    ;
    if e == -1074 {
        assert(k * h == 0) by (nonlinear_arith)
            requires
                k == 0,
        ;
        if s == 2 * h {
            assert(m / h == 2 && m % h == 0);
            lemma_exp2_succ(0);
            assert(h * exp2(1) == (2 * h) * exp2(0)) by (nonlinear_arith)
                requires
                    exp2(1) == 2 * exp2(0),
            ;
        } else if s >= h {
            assert(m / h == 1 && m % h == s - h);
        }
    } else if s < 2 * h {
        assert(m == h * (k + 1) + (s - h)) by (nonlinear_arith)
            requires
                m == k * h + s,
        ;
        vstd::arithmetic::div_mod::lemma_fundamental_div_mod_converse(m, h, k + 1, s - h);
    } else {
        assert(m == h * (k + 2) + 0) by (nonlinear_arith)
            requires
                m == k * h + s,
                s == 2 * h,
        ;
        vstd::arithmetic::div_mod::lemma_fundamental_div_mod_converse(m, h, k + 2, 0);
        lemma_exp2_succ(k);
        assert(h * exp2(k + 1) == (2 * h) * exp2(k)) by (nonlinear_arith)
            requires
                exp2(k + 1) == 2 * exp2(k),
        ;
    }
}

/// What is known of the positions around the number with significand `s` and
/// exponent `e`, all in terms of `s` and of its unit `2^(e + 1074)`.
pub proof fn lemma_neighbours(s: int, e: int)
    requires
        encodable(s, e),
    ensures
        ({
            let m = ordinal_of(s, e);
            let w = exp2(e + 1074);
            &&& 0 <= m <= INFINITY_ORDINAL
            &&& w >= 1
            &&& m % 2 == s % 2
            &&& magnitude_at(m) == s * w
            &&& m > 0 ==> magnitude_at(m - 1) + magnitude_at(m) < 2 * (s * w)
            &&& magnitude_at(m) + magnitude_at(m + 1) > 2 * (s * w)
            &&& s >= 1 && encodable(s - 1, e) ==> magnitude_at(m - 1) == (s - 1) * w
            &&& encodable(s + 1, e) ==> magnitude_at(m + 1) == (s + 1) * w
        }),
{
    let m = ordinal_of(s, e);
    let h = HIDDEN_BIT as int;
    lemma_exp2_pos(e + 1074);
    lemma_ordinal_magnitude(s, e);
    assert(m % 2 == s % 2) by {
        let k = e + 1074;
        assert(k * h == 2 * (k * 0x8_0000_0000_0000)) by (nonlinear_arith)
            requires
                h == 2 * 0x8_0000_0000_0000,
        ;
    }
    if m > 0 {
        lemma_magnitude_step(m - 1);
    }
    lemma_magnitude_step(m);
    if s >= 1 && encodable(s - 1, e) {
        lemma_ordinal_magnitude(s - 1, e);
    }
    if encodable(s + 1, e) {
        lemma_ordinal_magnitude(s + 1, e);
    }
}

/// Whether the exact value `p / q` lies on or above the point halfway between
/// position `m` and the position below it (strictly above, where `strict`).
/// Position 0 has no such point: nothing that is rounded lies below it.
pub open spec fn above_lower_edge(m: int, p: int, q: int, strict: bool) -> bool {
    m > 0 ==> {
        let edge = (magnitude_at(m - 1) + magnitude_at(m)) * q;
        if strict {
            edge < 2 * p * exp2(1074)
        } else {
            edge <= 2 * p * exp2(1074)
        }
    }
}

/// Whether the exact value `p / q` lies on or below the point halfway between
/// position `m` and the position above it (strictly below, where `strict`).
/// The position of infinity has no such point.
pub open spec fn below_upper_edge(m: int, p: int, q: int, strict: bool) -> bool {
    m < INFINITY_ORDINAL ==> {
        let edge = (magnitude_at(m) + magnitude_at(m + 1)) * q;
        if strict {
            2 * p * exp2(1074) < edge
        } else {
            2 * p * exp2(1074) <= edge
        }
    }
}

/// Whether position `m` is the nonnegative rational `p / q` rounded to the nearest
/// position, a tie going to the even one: `p / q` is no farther from `m` than from
/// either neighbour, and where it is as far from a neighbour, `m` is even.
pub open spec fn is_nearest(m: int, p: int, q: int) -> bool {
    &&& 0 <= m <= INFINITY_ORDINAL
    &&& above_lower_edge(m, p, q, m % 2 == 1)
    &&& below_upper_edge(m, p, q, m % 2 == 1)
}

/// The position that `p / q` rounds to.
pub open spec fn nearest(p: int, q: int) -> int {
    choose|m: int| is_nearest(m, p, q)
}

/// A rational rounds to one position only.
pub proof fn lemma_nearest_unique(m1: int, m2: int, p: int, q: int)
    requires
        q > 0,
        is_nearest(m1, p, q),
        is_nearest(m2, p, q),
    ensures
        m1 == m2,
{
    if m1 < m2 {
        lemma_between_edges(m1, m2, p, q);
    } else if m2 < m1 {
        lemma_between_edges(m2, m1, p, q);
    }
}

/// No value lies at once below the upper edge of one position and above the lower
/// edge of a higher one.
pub proof fn lemma_between_edges(a: int, b: int, p: int, q: int)
    requires
        q > 0,
        0 <= a < b <= INFINITY_ORDINAL,
        below_upper_edge(a, p, q, a % 2 == 1),
        above_lower_edge(b, p, q, b % 2 == 1),
    ensures
        a == b,
{
    let x = 2 * p * exp2(1074);
    let up = magnitude_at(a) + magnitude_at(a + 1);
    let lo = magnitude_at(b - 1) + magnitude_at(b);
    lemma_magnitude_increases(a, b - 1);
    lemma_magnitude_increases(a + 1, b);
    assert(up <= lo);
    lemma_scale_le(up, lo, q);
    if a + 1 < b {
        lemma_scale_lt(up, lo, q);
    } else {
        assert(a % 2 == 1 || b % 2 == 1);
    }
}

/// The search behind `lemma_nearest_exists`: from a position whose lower edge the
/// value has passed, upwards to the first whose upper edge it has not.
proof fn lemma_nearest_from(m: int, p: int, q: int) -> (r: int)
    requires
        q > 0,
        0 <= m <= INFINITY_ORDINAL,
        above_lower_edge(m, p, q, m % 2 == 1),
    ensures
        is_nearest(r, p, q),
    decreases INFINITY_ORDINAL - m,
{
    if below_upper_edge(m, p, q, m % 2 == 1) {
        m
    } else {
        lemma_nearest_from(m + 1, p, q)
    }
}

/// Every nonnegative rational rounds to some position, so `nearest` names the
/// position that it rounds to.
pub proof fn lemma_nearest_exists(p: int, q: int)
    requires
        q > 0,
    ensures
        is_nearest(nearest(p, q), p, q),
{
    let m = lemma_nearest_from(0, p, q);
}

/// Rounding keeps the order: of two rationals the larger rounds to a position
/// that is not lower.
pub proof fn lemma_nearest_monotone(pa: int, qa: int, pb: int, qb: int)
    requires
        qa > 0,
        qb > 0,
        pa * qb <= pb * qa,
    ensures
        nearest(pa, qa) <= nearest(pb, qb),
{
    let m1 = nearest(pa, qa);
    let m2 = nearest(pb, qb);
    lemma_nearest_exists(pa, qa);
    lemma_nearest_exists(pb, qb);
    if m2 < m1 {
        let odd = m2 % 2 == 1;
        lemma_upper_edge_moves(m2, pb, qb, odd, pa, qa, odd);
        lemma_between_edges(m2, m1, pa, qa);
    }
}

/// If `pa / qa <= pb / qb` and the first lies above the lower edge of `m`, so does
/// the second; strictly, if the first does or if the two differ.
pub proof fn lemma_lower_edge_moves(
    m: int,
    pa: int,
    qa: int,
    strict_a: bool,
    pb: int,
    qb: int,
    strict_b: bool,
)
    requires
        m >= 0,
        qa > 0,
        qb > 0,
        above_lower_edge(m, pa, qa, strict_a),
        pa * qb <= pb * qa,
        strict_b ==> strict_a || pa * qb < pb * qa,
    ensures
        above_lower_edge(m, pb, qb, strict_b),
{
    if m > 0 {
        let g = magnitude_at(m - 1) + magnitude_at(m);
        let k = exp2(1074);
        lemma_exp2_pos(1074);
        lemma_magnitude_step(m - 1);
        lemma_magnitude_step(m);
        let x1 = 2 * pa * k;
        let x2 = 2 * pb * k;
        assert(x1 * qb <= x2 * qa) by (nonlinear_arith)
            requires
                pa * qb <= pb * qa,
                x1 == 2 * pa * k,
                x2 == 2 * pb * k,
                k >= 1,
        ;
        assert(pa * qb < pb * qa ==> x1 * qb < x2 * qa) by (nonlinear_arith)
            requires
                x1 == 2 * pa * k,
                x2 == 2 * pb * k,
                k >= 1,
        ;
        assert(g * qa <= x1);
        lemma_scale_le(g * qa, x1, qb);
        assert((g * qa) * qb == (g * qb) * qa) by (nonlinear_arith);
        assert((g * qb) * qa <= x2 * qa);
        lemma_cancel_le(g * qb, x2, qa);
        if strict_b {
            if strict_a {
                lemma_scale_lt(g * qa, x1, qb);
            }
            assert((g * qb) * qa < x2 * qa);
            lemma_cancel_lt(g * qb, x2, qa);
        }
    }
}

/// If `pb / qb <= pa / qa` and the first lies below the upper edge of `m`, so does
/// the second; strictly, if the first does or if the two differ.
pub proof fn lemma_upper_edge_moves(
    m: int,
    pa: int,
    qa: int,
    strict_a: bool,
    pb: int,
    qb: int,
    strict_b: bool,
)
    requires
        m >= 0,
        qa > 0,
        qb > 0,
        below_upper_edge(m, pa, qa, strict_a),
        pb * qa <= pa * qb,
        strict_b ==> strict_a || pb * qa < pa * qb,
    ensures
        below_upper_edge(m, pb, qb, strict_b),
{
    if m < INFINITY_ORDINAL {
        let g = magnitude_at(m) + magnitude_at(m + 1);
        let k = exp2(1074);
        lemma_exp2_pos(1074);
        let x1 = 2 * pa * k;
        let x2 = 2 * pb * k;
        assert(x2 * qa <= x1 * qb) by (nonlinear_arith)
            requires
                pb * qa <= pa * qb,
                x1 == 2 * pa * k,
                x2 == 2 * pb * k,
                k >= 1,
        ;
        assert(pb * qa < pa * qb ==> x2 * qa < x1 * qb) by (nonlinear_arith)
            requires
                x1 == 2 * pa * k,
                x2 == 2 * pb * k,
                k >= 1,
        ;
        assert(x1 <= g * qa);
        lemma_scale_le(x1, g * qa, qb);
        assert((g * qa) * qb == (g * qb) * qa) by (nonlinear_arith);
        assert(x2 * qa <= (g * qb) * qa);
        lemma_cancel_le(x2, g * qb, qa);
        if strict_b {
            if strict_a {
                lemma_scale_lt(x1, g * qa, qb);
            }
            assert(x2 * qa < (g * qb) * qa);
            lemma_cancel_lt(x2, g * qb, qa);
        }
    }
}

/// Positions and magnitudes are ordered alike.
pub proof fn lemma_order(a: int, b: int)
    requires
        0 <= a,
        0 <= b,
    ensures
        a < b <==> magnitude_at(a) < magnitude_at(b),
        a == b <==> magnitude_at(a) == magnitude_at(b),
        magnitude_at(a) >= 0,
        a == 0 <==> magnitude_at(a) == 0,
{
    if a <= b {
        lemma_magnitude_increases(a, b);
    } else {
        lemma_magnitude_increases(b, a);
    }
    lemma_magnitude_increases(0, a);
    assert(magnitude_at(0) == 0) by {
        assert(0 * gap_at(0) == 0) by (nonlinear_arith);
    }
}

/// As `above_lower_edge`, for the square root of `p / q`.
pub open spec fn root_above_lower_edge(m: int, p: int, q: int, strict: bool) -> bool {
    m > 0 ==> {
        let g = magnitude_at(m - 1) + magnitude_at(m);
        if strict {
            g * g * q < 4 * p * exp2(2148)
        } else {
            g * g * q <= 4 * p * exp2(2148)
        }
    }
}

/// As `below_upper_edge`, for the square root of `p / q`.
pub open spec fn root_below_upper_edge(m: int, p: int, q: int, strict: bool) -> bool {
    m < INFINITY_ORDINAL ==> {
        let g = magnitude_at(m) + magnitude_at(m + 1);
        if strict {
            4 * p * exp2(2148) < g * g * q
        } else {
            4 * p * exp2(2148) <= g * g * q
        }
    }
}

/// Whether position `m` is the square root of the nonnegative rational `p / q`
/// rounded to the nearest position, a tie going to the even one.
pub open spec fn is_nearest_root(m: int, p: int, q: int) -> bool {
    &&& 0 <= m <= INFINITY_ORDINAL
    &&& root_above_lower_edge(m, p, q, m % 2 == 1)
    &&& root_below_upper_edge(m, p, q, m % 2 == 1)
}

/// The position that the square root of `p / q` rounds to.
pub open spec fn nearest_root(p: int, q: int) -> int {
    choose|m: int| is_nearest_root(m, p, q)
}

proof fn lemma_between_root_edges(a: int, b: int, p: int, q: int)
    requires
        q > 0,
        0 <= a < b <= INFINITY_ORDINAL,
        root_below_upper_edge(a, p, q, a % 2 == 1),
        root_above_lower_edge(b, p, q, b % 2 == 1),
    ensures
        a == b,
{
    let up = magnitude_at(a) + magnitude_at(a + 1);
    let lo = magnitude_at(b - 1) + magnitude_at(b);
    lemma_magnitude_increases(a, b - 1);
    lemma_magnitude_increases(a + 1, b);
    lemma_order(a, a + 1);
    assert(0 <= up <= lo);
    lemma_square_le(up, lo);
    lemma_scale_le(up * up, lo * lo, q);
    if a + 1 < b {
        lemma_scale_lt(up * up, lo * lo, q);
    } else {
        assert(a % 2 == 1 || b % 2 == 1);
    }
}

proof fn lemma_nearest_root_from(m: int, p: int, q: int) -> (r: int)
    requires
        q > 0,
        0 <= m <= INFINITY_ORDINAL,
        root_above_lower_edge(m, p, q, m % 2 == 1),
    ensures
        is_nearest_root(r, p, q),
    decreases INFINITY_ORDINAL - m,
{
    if root_below_upper_edge(m, p, q, m % 2 == 1) {
        m
    } else {
        lemma_nearest_root_from(m + 1, p, q)
    }
}

/// The square root of every nonnegative rational rounds to some position, so
/// `nearest_root` names the position that it rounds to.
pub proof fn lemma_nearest_root_exists(p: int, q: int)
    requires
        q > 0,
    ensures
        is_nearest_root(nearest_root(p, q), p, q),
{
    let m = lemma_nearest_root_from(0, p, q);
}

/// The square root of a rational rounds to one position only.
pub proof fn lemma_nearest_root_unique(m1: int, m2: int, p: int, q: int)
    requires
        q > 0,
        is_nearest_root(m1, p, q),
        is_nearest_root(m2, p, q),
    ensures
        m1 == m2,
{
    if m1 < m2 {
        lemma_between_root_edges(m1, m2, p, q);
    } else if m2 < m1 {
        lemma_between_root_edges(m2, m1, p, q);
    }
}

} // verus!
