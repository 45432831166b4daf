//! Rounding a truncated significand to the grid of scalars.
//!
//! Every arithmetic operation first computes its exact result as far as needed:
//! an integer `sig` and an exponent `exp` with `sig * 2^exp <= x < (sig + 1) * 2^exp`,
//! and a flag `sticky` that tells whether `x` lies strictly above `sig * 2^exp`.
//! `round_to_ordinal` then picks the position that every such `x` rounds to.
use crate::grid::{
    above_lower_edge, below_upper_edge, encodable, exponent_at, is_nearest, lemma_lower_edge_moves,
    lemma_nearest_unique, lemma_neighbours, lemma_upper_edge_moves, magnitude_at, nearest,
    ordinal_of, significand_at, HIDDEN_BIT, INFINITY_ORDINAL,
};
use crate::power::{
    bit_length, exp2, lemma_cancel_le, lemma_cancel_lt, lemma_exp2_add, lemma_exp2_le,
    lemma_exp2_pos, lemma_exp2_succ, lemma_exp2_values, lemma_scale_le, lemma_scale_lt, two_pow,
};
use vstd::prelude::*;

verus! {

/// Whether position `m` is what the values from `sig * 2^exp` up to
/// `(sig + 1) * 2^exp` round to: the first of them alone where `sticky` is unset,
/// all but the two ends where it is set. The two ends are written as fractions
/// over `2^2200`, a unit below every exponent that an operation hands over.
pub open spec fn bracketed(m: int, sig: int, exp: int, sticky: bool) -> bool {
    let strict = !sticky && m % 2 == 1;
    let top = if sticky {
        sig + 1
    } else {
        sig
    };
    &&& 0 <= m <= INFINITY_ORDINAL
    &&& above_lower_edge(m, sig * exp2(exp + 2200), exp2(2200), strict)
    &&& below_upper_edge(m, top * exp2(exp + 2200), exp2(2200), strict)
}

/// The general step from bounds on the two edges of `m`, given in a unit `w` of the
/// grid, to `bracketed`. The numbers `pp` and `dd` relate `w` to `2^exp`:
/// `w * dd == pp * 2^(exp + 1074)`.
proof fn lemma_bracket(
    m: int,
    sig: int,
    exp: int,
    sticky: bool,
    l: int,
    h: int,
    w: int,
    pp: int,
    dd: int,
)
    requires
        0 <= m <= INFINITY_ORDINAL,
        -2200 <= exp,
        sig >= 0,
        w >= 1,
        pp >= 1,
        dd >= 1,
        w * exp2(2200) * dd == pp * exp2(exp + 3274),
        m > 0 ==> magnitude_at(m - 1) + magnitude_at(m) <= l * w,
        m > 0 ==> l * pp <= 2 * sig * dd,
        m > 0 && !sticky && m % 2 == 1 ==> magnitude_at(m - 1) + magnitude_at(m) < l * w || l
            * pp < 2 * sig * dd,
        m < INFINITY_ORDINAL ==> h * w <= magnitude_at(m) + magnitude_at(m + 1),
        m < INFINITY_ORDINAL ==> 2 * (if sticky {
            sig + 1
        } else {
            sig
        }) * dd <= h * pp,
        m < INFINITY_ORDINAL && !sticky && m % 2 == 1 ==> h * w < magnitude_at(m) + magnitude_at(
            m + 1,
        ) || 2 * sig * dd < h * pp,
    ensures
        bracketed(m, sig, exp, sticky),
{
    let t2 = exp2(2200);
    let u = exp2(exp + 2200);
    let k = exp2(1074);
    let f = exp2(exp + 3274);
    let strict = !sticky && m % 2 == 1;
    let top = if sticky {
        sig + 1
    } else {
        sig
    };
    lemma_exp2_pos(2200);
    lemma_exp2_pos(exp + 3274);
    lemma_exp2_add(exp + 2200, 1074);
    assert(u * k == f);
    assert(t2 * dd >= 1) by (nonlinear_arith)
        requires
            t2 >= 1,
            dd >= 1,
    ;
    if m > 0 {
        let g = magnitude_at(m - 1) + magnitude_at(m);
        let x = 2 * (sig * u) * k;
        assert(x == 2 * sig * f) by (nonlinear_arith)
            requires
                x == 2 * (sig * u) * k,
                u * k == f,
        ;
        // g * t2 * dd <= l * w * t2 * dd == l * pp * f <= 2 * sig * dd * f
        lemma_scale_le(g, l * w, t2 * dd);
        assert((l * w) * (t2 * dd) == (l * pp) * f) by (nonlinear_arith)
            requires
                w * t2 * dd == pp * f,
        ;
        lemma_scale_le(l * pp, 2 * sig * dd, f);
        assert((2 * sig * dd) * f == x * dd) by (nonlinear_arith)
            requires
                x == 2 * sig * f,
        ;
        assert(g * (t2 * dd) == (g * t2) * dd) by (nonlinear_arith);
        assert((g * t2) * dd <= x * dd);
        lemma_cancel_le(g * t2, x, dd);
        if strict {
            if g < l * w {
                lemma_scale_lt(g, l * w, t2 * dd);
            } else {
                lemma_scale_lt(l * pp, 2 * sig * dd, f);
            }
            assert((g * t2) * dd < x * dd);
            lemma_cancel_lt(g * t2, x, dd);
        }
    }
    if m < INFINITY_ORDINAL {
        let g = magnitude_at(m) + magnitude_at(m + 1);
        let x = 2 * (top * u) * k;
        assert(x == 2 * top * f) by (nonlinear_arith)
            requires
                x == 2 * (top * u) * k,
                u * k == f,
        ;
        lemma_scale_le(h * w, g, t2 * dd);
        assert((h * w) * (t2 * dd) == (h * pp) * f) by (nonlinear_arith)
            requires
                w * t2 * dd == pp * f,
        ;
        lemma_scale_le(2 * top * dd, h * pp, f);
        assert((2 * top * dd) * f == x * dd) by (nonlinear_arith)
            requires
                x == 2 * top * f,
        ;
        assert(g * (t2 * dd) == (g * t2) * dd) by (nonlinear_arith);
        assert(x * dd <= (g * t2) * dd);
        lemma_cancel_le(x, g * t2, dd);
        if strict {
            if h * w < g {
                lemma_scale_lt(h * w, g, t2 * dd);
            } else {
                lemma_scale_lt(2 * top * dd, h * pp, f);
            }
            assert(x * dd < (g * t2) * dd);
            lemma_cancel_lt(x, g * t2, dd);
        }
    }
}

/// The value fits the grid as it is: `sig * 2^exp == s * 2^e` with `d == exp - e`.
proof fn lemma_round_exact(sig: int, exp: int, e: int, s: int)
    requires
        -2200 <= exp,
        sig >= 0,
        -1074 <= e <= exp,
        s == sig * exp2(exp - e),
        encodable(s, e),
        s < 2 * HIDDEN_BIT,
    ensures
        bracketed(ordinal_of(s, e), sig, exp, false),
{
    let m = ordinal_of(s, e);
    let w = exp2(e + 1074);
    let dd = exp2(exp - e);
    lemma_neighbours(s, e);
    lemma_exp2_pos(exp - e);
    lemma_exp2_add(e + 1074, 2200);
    lemma_exp2_add(e + 3274, exp - e);
    assert(w * exp2(2200) * dd == 1 * exp2(exp + 3274)) by (nonlinear_arith)
        requires
            w * exp2(2200) == exp2(e + 3274),
            exp2(e + 3274) * dd == exp2(exp + 3274),
    ;
    assert((2 * s) * w == 2 * (s * w)) by (nonlinear_arith);
    assert((2 * s) * 1 == 2 * sig * dd) by (nonlinear_arith)
        requires
            s == sig * dd,
    ;
    lemma_bracket(m, sig, exp, false, 2 * s, 2 * s, w, 1, dd);
}

/// The value is cut at `2^e` and the cut is rounded to the nearest even.
proof fn lemma_round_cut(
    sig: int,
    exp: int,
    sticky: bool,
    e: int,
    half: int,
    s0: int,
    rb: int,
    rest: int,
    up: bool,
)
    requires
        -2200 <= exp,
        sig >= 0,
        -1074 <= e <= 971,
        e > exp,
        half == exp2(e - exp - 1),
        sig == (2 * s0 + rb) * half + rest,
        0 <= rest < half,
        0 <= rb <= 1,
        encodable(s0, e),
        s0 < 2 * HIDDEN_BIT,
        up == (rb == 1 && (rest > 0 || sticky || s0 % 2 == 1)),
    ensures
        bracketed(
            ordinal_of(
                if up {
                    s0 + 1
                } else {
                    s0
                },
                e,
            ),
            sig,
            exp,
            sticky,
        ),
{
    let s = if up {
        s0 + 1
    } else {
        s0
    };
    let m = ordinal_of(s, e);
    let w = exp2(e + 1074);
    let pp = 2 * half;
    let top = if sticky {
        sig + 1
    } else {
        sig
    };
    lemma_neighbours(s, e);
    lemma_exp2_succ(e - exp - 1);
    lemma_exp2_pos(e - exp - 1);
    lemma_exp2_add(e + 1074, 2200);
    lemma_exp2_add(e - exp, exp + 3274);
    assert(w * exp2(2200) * 1 == pp * exp2(exp + 3274)) by (nonlinear_arith)
        requires
            w * exp2(2200) == exp2(e + 3274),
            pp * exp2(exp + 3274) == exp2(e + 3274),
    ;
    let a = s0 * half;
    assert(sig == 2 * a + rb * half + rest) by (nonlinear_arith)
        requires
            sig == (2 * s0 + rb) * half + rest,
            a == s0 * half,
    ;
    assert(rb * half == if rb == 1 {
        half
    } else {
        0
    }) by (nonlinear_arith)
        requires
            0 <= rb <= 1,
    ;
    if up {
        let l = 2 * s0 + 1;
        let h = 2 * (s0 + 1);
        assert(l * w == s0 * w + (s0 + 1) * w) by (nonlinear_arith)
            requires
                l == 2 * s0 + 1,
        ;
        assert(h * w == 2 * ((s0 + 1) * w)) by (nonlinear_arith)
            requires
                h == 2 * (s0 + 1),
        ;
        assert(l * pp == 4 * a + 2 * half) by (nonlinear_arith)
            requires
                l == 2 * s0 + 1,
                pp == 2 * half,
                a == s0 * half,
        ;
        assert(h * pp == 4 * a + 4 * half) by (nonlinear_arith)
            requires
                h == 2 * (s0 + 1),
                pp == 2 * half,
                a == s0 * half,
        ;
        lemma_bracket(m, sig, exp, sticky, l, h, w, pp, 1);
    } else {
        let l = 2 * s0;
        let h = 2 * s0 + 1;
        lemma_neighbours(s0 + 1, e);
        assert(l * w == 2 * (s0 * w)) by (nonlinear_arith)
            requires
                l == 2 * s0,
        ;
        assert(h * w == s0 * w + (s0 + 1) * w) by (nonlinear_arith)
            requires
                h == 2 * s0 + 1,
        ;
        assert(l * pp == 4 * a) by (nonlinear_arith)
            requires
                l == 2 * s0,
                pp == 2 * half,
                a == s0 * half,
        ;
        assert(h * pp == 4 * a + 2 * half) by (nonlinear_arith)
            requires
                h == 2 * s0 + 1,
                pp == 2 * half,
                a == s0 * half,
        ;
        lemma_bracket(m, sig, exp, sticky, l, h, w, pp, 1);
    }
}

/// The value lies below half the least positive number.
proof fn lemma_round_tiny(sig: int, exp: int, sticky: bool)
    requires
        -2200 <= exp < -1074 - 128,
        0 <= sig < 0x1_0000_0000_0000_0000_0000_0000_0000_0000,
    ensures
        bracketed(0, sig, exp, sticky),
{
    let sh = -1074 - exp;
    lemma_neighbours(0, -1074);
    lemma_neighbours(1, -1074);
    lemma_exp2_values();
    lemma_exp2_add(sh, exp + 3274);
    lemma_exp2_succ(128);
    lemma_exp2_le(129, sh);
    let pp = exp2(sh);
    let w = exp2(0);
    assert(w * exp2(2200) * 1 == pp * exp2(exp + 3274)) by (nonlinear_arith)
        requires
            w == 1,
            pp * exp2(exp + 3274) == exp2(2200),
    ;
    assert(ordinal_of(1, -1074) == 1);
    assert(1 * w == 1);
    assert(1 * pp == pp);
    lemma_bracket(0, sig, exp, sticky, 0, 1, w, pp, 1);
}

/// The value is at least `2^1024`.
proof fn lemma_round_overflow(sig: int, exp: int, sticky: bool, n: int)
    requires
        -2200 <= exp,
        n >= 1,
        exp2(n - 1) <= sig,
        exp + n >= 1025,
    ensures
        bracketed(INFINITY_ORDINAL as int, sig, exp, sticky),
{
    let h = HIDDEN_BIT as int;
    let m = INFINITY_ORDINAL as int;
    let w = exp2(2045);
    lemma_neighbours(2 * h, 971);
    assert(ordinal_of(2 * h, 971) == m);
    lemma_exp2_values();
    lemma_exp2_add(2045, 2200);
    let l = 4 * h;
    assert(l * w == 2 * ((2 * h) * w)) by (nonlinear_arith)
        requires
            l == 4 * h,
    ;
    if exp <= 971 {
        let pp = exp2(971 - exp);
        lemma_exp2_pos(971 - exp);
        lemma_exp2_add(971 - exp, exp + 3274);
        assert(w * exp2(2200) * 1 == pp * exp2(exp + 3274)) by (nonlinear_arith)
            requires
                w * exp2(2200) == exp2(4245),
                pp * exp2(exp + 3274) == exp2(4245),
        ;
        lemma_exp2_add(54, 971 - exp);
        lemma_exp2_le(1025 - exp, n);
        lemma_exp2_succ(n - 1);
        assert(l * pp <= 2 * sig * 1) by (nonlinear_arith)
            requires
                l == exp2(54),
                exp2(54) * pp == exp2(1025 - exp),
                exp2(1025 - exp) <= exp2(n),
                exp2(n) == 2 * exp2(n - 1),
                exp2(n - 1) <= sig,
        ;
        lemma_bracket(m, sig, exp, sticky, l, 0, w, pp, 1);
    } else {
        let dd = exp2(exp - 971);
        lemma_exp2_pos(exp - 971);
        lemma_exp2_add(4245, exp - 971);
        assert(w * exp2(2200) * dd == 1 * exp2(exp + 3274)) by (nonlinear_arith)
            requires
                w * exp2(2200) == exp2(4245),
                exp2(4245) * dd == exp2(exp + 3274),
        ;
        lemma_exp2_add(n - 1, exp - 971);
        lemma_exp2_le(53, n + exp - 972);
        lemma_scale_le(exp2(n - 1), sig, dd);
        assert(l * 1 <= 2 * sig * dd) by (nonlinear_arith)
            requires
                l == 2 * exp2(53),
                exp2(53) <= exp2(n + exp - 972),
                exp2(n - 1) * dd == exp2(n + exp - 972),
                exp2(n - 1) * dd <= sig * dd,
        ;
        lemma_bracket(m, sig, exp, sticky, l, 0, w, 1, dd);
    }
}

/// The position of the finite number with significand `s` and exponent `e`.
pub fn ordinal(s: u64, e: i32) -> (m: u64)
    requires
        encodable(s as int, e as int),
    ensures
        m == ordinal_of(s as int, e as int),
        m <= INFINITY_ORDINAL,
{
    proof {
        let k = e + 1074;
        assert(0 <= k * HIDDEN_BIT <= 2045 * HIDDEN_BIT) by (nonlinear_arith)
            requires
                0 <= k <= 2045,
        ;
    }
    let field: u64 = (e + 1074) as u64;
    field * HIDDEN_BIT + s
}

/// Rounds to the nearest position, ties to even, any value `x` with
/// `sig * 2^exp <= x < (sig + 1) * 2^exp`, where `x > sig * 2^exp` exactly if
/// `sticky` is set. With `sticky` set, `sig` must have at least 54 binary digits,
/// so that no point between two positions falls strictly inside that range.
pub fn round_to_ordinal(sig: u128, exp: i32, sticky: bool) -> (m: u64)
    requires
        -2200 <= exp <= 2200,
        sticky ==> sig >= 0x20_0000_0000_0000,
    ensures
        bracketed(m as int, sig as int, exp as int, sticky),
        !sticky && sig < 0x20_0000_0000_0000 && -1074 <= exp <= 971 ==> m < INFINITY_ORDINAL
            && magnitude_at(m as int) == sig * exp2(exp + 1074),
{
    proof {
        lemma_exp2_values();
    }
    if sig == 0 {
        proof {
            lemma_exp2_pos(exp + 2200);
            lemma_neighbours(0, -1074);
            assert(0 * exp2(exp + 2200) == 0) by (nonlinear_arith);
            if exp >= -1074 {
                assert(0 * exp2(exp + 1074) == 0) by (nonlinear_arith);
            }
            assert(2 * 0 * exp2(1074) == 0) by (nonlinear_arith);
            lemma_exp2_pos(2200);
            assert((magnitude_at(0) + magnitude_at(1)) * exp2(2200) >= 0) by (nonlinear_arith)
                requires
                    magnitude_at(0) + magnitude_at(1) > 0,
                    exp2(2200) >= 1,
            ;
        }
        return 0;
    }
    let n: i32 = bit_length(sig) as i32;
    proof {
        if n >= 54 {
            lemma_exp2_le(53, n - 1);
        }
    }
    let e0: i32 = exp + n - 53;
    let e: i32 = if e0 < -1074 {
        -1074
    } else {
        e0
    };
    if e > 971 {
        proof {
            lemma_round_overflow(sig as int, exp as int, sticky, n as int);
            if n <= 53 {
                lemma_exp2_le(n as int, 53);
            }
        }
        return INFINITY_ORDINAL;
    }
    if e <= exp {
        let d: u32 = (exp - e) as u32;
        let dd: u128 = two_pow(d);
        proof {
            if n <= 53 {
                lemma_exp2_le(n as int, 53);
            }
            assert(!sticky);
            lemma_exp2_pos(d as int);
            lemma_exp2_add(n as int, d as int);
            lemma_exp2_le(n + d, 53);
            lemma_scale_lt(sig as int, exp2(n as int), dd as int);
            if e > -1074 {
                lemma_exp2_add(n - 1, d as int);
                lemma_scale_le(exp2(n - 1), sig as int, dd as int);
            }
        }
        let s: u64 = (sig * dd) as u64;
        proof {
            lemma_round_exact(sig as int, exp as int, e as int, s as int);
            lemma_neighbours(s as int, e as int);
            lemma_exp2_add(exp - e, e + 1074);
            assert((sig * dd) * exp2(e + 1074) == sig * exp2(exp + 1074)) by (nonlinear_arith)
                requires
                    dd * exp2(e + 1074) == exp2(exp + 1074),
            ;
        }
        return ordinal(s, e);
    }
    proof {
        if n <= 53 {
            lemma_exp2_le(n as int, 53);
        }
    }
    let sh: i32 = e - exp;
    if sh > 128 {
        proof {
            lemma_round_tiny(sig as int, exp as int, sticky);
        }
        return 0;
    }
    let half: u128 = two_pow((sh - 1) as u32);
    proof {
        lemma_exp2_pos(sh - 1);
    }
    let q: u128 = sig / half;
    let rest: u128 = sig % half;
    let s0: u64;
    let round_bit: u128 = q % 2;
    proof {
        let a = (q / 2) as int;
        lemma_exp2_pos(sh - 1);
        assert(sig == q * half + rest) by {
            vstd::arithmetic::div_mod::lemma_fundamental_div_mod(sig as int, half as int);
            assert(half * (sig / half) == (sig / half) * half) by (nonlinear_arith);
        }
        assert(q == 2 * a + round_bit);
        // sig < 2^n <= 2^(sh + 53) == half * 2^54
        lemma_exp2_le(n as int, sh + 53);
        lemma_exp2_add(sh - 1, 54);
        assert(a < exp2(53)) by (nonlinear_arith)
            requires
                sig == (2 * a + round_bit) * half + rest,
                rest >= 0,
                round_bit >= 0,
                half >= 1,
                sig < half * exp2(54),
                exp2(54) == 2 * exp2(53),
        ;
        if e > -1074 {
            lemma_exp2_add(sh - 1, 53);
            assert(a >= exp2(52)) by (nonlinear_arith)
                requires
                    sig == (2 * a + round_bit) * half + rest,
                    rest < half,
                    round_bit <= 1,
                    half >= 1,
                    sig >= half * exp2(53),
                    exp2(53) == 2 * exp2(52),
            ;
        }
    }
    s0 = (q / 2) as u64;
    let up: bool = round_bit == 1 && (rest > 0 || sticky || s0 % 2 == 1);
    proof {
        lemma_round_cut(
            sig as int,
            exp as int,
            sticky,
            e as int,
            half as int,
            s0 as int,
            round_bit as int,
            rest as int,
            up,
        );
    }
    if up {
        ordinal(s0 + 1, e)
    } else {
        ordinal(s0, e)
    }
}

/// The significand and the exponent of the finite number at position `m`.
pub fn unpack(m: u64) -> (r: (u64, i32))
    requires
        m < INFINITY_ORDINAL,
    ensures
        r.0 == significand_at(m as int),
        r.1 == exponent_at(m as int),
        encodable(r.0 as int, r.1 as int),
        r.0 < 2 * HIDDEN_BIT,
        ordinal_of(r.0 as int, r.1 as int) == m,
        magnitude_at(m as int) == r.0 * exp2(r.1 + 1074),
        m == 0 <==> r.0 == 0,
{
    if m < HIDDEN_BIT {
        (m, -1074)
    } else {
        let field: u64 = m / HIDDEN_BIT;
        let e: i32 = field as i32 - 1075;
        proof {
            let h = HIDDEN_BIT as int;
            assert(m == h * (m / HIDDEN_BIT) + m % HIDDEN_BIT);
            assert((e + 1074) * h == h * (m / HIDDEN_BIT) - h) by (nonlinear_arith)
                requires
                    e == (m / HIDDEN_BIT) - 1075,
            ;
        }
        (HIDDEN_BIT + m % HIDDEN_BIT, e)
    }
}

/// A position that meets the definition of rounding is the one that `nearest` names.
pub proof fn lemma_nearest_is(m: int, p: int, q: int)
    requires
        q > 0,
        is_nearest(m, p, q),
    ensures
        nearest(p, q) == m,
{
    lemma_nearest_unique(m, nearest(p, q), p, q);
}

/// From the range that was rounded to the rational that lies in it.
pub proof fn lemma_bracket_rounds(m: int, sig: int, exp: int, sticky: bool, p: int, q: int)
    requires
        bracketed(m, sig, exp, sticky),
        -2200 <= exp,
        q > 0,
        !sticky ==> p * exp2(2200) == sig * exp2(exp + 2200) * q,
        sticky ==> sig * exp2(exp + 2200) * q < p * exp2(2200),
        sticky ==> p * exp2(2200) < (sig + 1) * exp2(exp + 2200) * q,
    ensures
        is_nearest(m, p, q),
        nearest(p, q) == m,
{
    let strict = !sticky && m % 2 == 1;
    let top = if sticky {
        sig + 1
    } else {
        sig
    };
    lemma_exp2_pos(2200);
    lemma_lower_edge_moves(m, sig * exp2(exp + 2200), exp2(2200), strict, p, q, m % 2 == 1);
    lemma_upper_edge_moves(m, top * exp2(exp + 2200), exp2(2200), strict, p, q, m % 2 == 1);
    lemma_nearest_is(m, p, q);
}

/// A number of the grid rounds to itself.
pub proof fn lemma_nearest_exact(m: int)
    requires
        0 <= m <= INFINITY_ORDINAL,
    ensures
        is_nearest(m, magnitude_at(m), exp2(1074)),
        nearest(magnitude_at(m), exp2(1074)) == m,
{
    let k = exp2(1074);
    let g = magnitude_at(m);
    lemma_exp2_pos(1074);
    crate::grid::lemma_order(m, m + 1);
    assert(2 * g * k == (2 * g) * k) by (nonlinear_arith);
    if m > 0 {
        crate::grid::lemma_order(m - 1, m);
        lemma_scale_lt(magnitude_at(m - 1) + g, 2 * g, k);
    }
    lemma_scale_lt(2 * g, g + magnitude_at(m + 1), k);
    lemma_nearest_is(m, g, k);
}

/// Rounding looks at the value of a fraction only, not at how it is written.
pub proof fn lemma_nearest_same_ratio(pa: int, qa: int, pb: int, qb: int)
    requires
        qa > 0,
        qb > 0,
        pa * qb == pb * qa,
    ensures
        nearest(pa, qa) == nearest(pb, qb),
        is_nearest(nearest(pa, qa), pb, qb),
{
    let m = nearest(pa, qa);
    let odd = m % 2 == 1;
    crate::grid::lemma_nearest_exists(pa, qa);
    lemma_lower_edge_moves(m, pa, qa, odd, pb, qb, odd);
    lemma_upper_edge_moves(m, pa, qa, odd, pb, qb, odd);
    lemma_nearest_is(m, pb, qb);
}

} // verus!
