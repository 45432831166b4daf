//! The square root of a scalar.
use crate::grid::{
    is_nearest_root, lemma_nearest_root_unique, lemma_order,
    magnitude_at, nearest_root, root_above_lower_edge, root_below_upper_edge, INFINITY_ORDINAL,
};
use crate::power::{
    bit_length, exp2, integer_sqrt, lemma_cancel_le, lemma_cancel_lt, lemma_exp2_add,
    lemma_exp2_le, lemma_exp2_pos, lemma_exp2_values, lemma_scale_le, lemma_scale_lt,
    lemma_square_le, two_pow,
};
use crate::round::{bracketed, round_to_ordinal, unpack};
use crate::scalar::Scalar;
use vstd::prelude::*;

verus! {

/// From the range that was rounded to the square root that lies in it. Here `c` is
/// any positive number, and `n` stands for the number under the root in the unit
/// in which `sig` approaches its root from below.
proof fn lemma_bracket_rounds_root(
    m: int,
    sig: int,
    exp: int,
    sticky: bool,
    n: int,
    c: int,
    p: int,
    q: int,
)
    requires
        bracketed(m, sig, exp, sticky),
        -2200 <= exp,
        sig >= 0,
        q > 0,
        c > 0,
        exp2(exp + 2200) * exp2(exp + 2200) * q == c,
        n * c == p * (exp2(2200) * exp2(2200)),
        sig * sig <= n < (sig + 1) * (sig + 1),
        sticky <==> sig * sig != n,
    ensures
        is_nearest_root(m, p, q),
        nearest_root(p, q) == m,
{
    let strict = !sticky && m % 2 == 1;
    let odd = m % 2 == 1;
    let t2 = exp2(2200);
    let u = exp2(exp + 2200);
    let k = exp2(1074);
    let kk = exp2(2148);
    let tt = t2 * t2;
    lemma_exp2_pos(2200);
    lemma_exp2_pos(exp + 2200);
    lemma_exp2_pos(1074);
    lemma_exp2_add(1074, 1074);
    lemma_exp2_pos(2148);
    assert(tt > 0) by (nonlinear_arith)
        requires
            tt == t2 * t2,
            t2 > 0,
    ;
    if m > 0 {
        let g = magnitude_at(m - 1) + magnitude_at(m);
        lemma_order(m - 1, m);
        let lhs = g * t2;
        let rhs = 2 * (sig * u) * k;
        assert(0 <= lhs) by (nonlinear_arith)
            requires
                lhs == g * t2,
                g >= 0,
                t2 >= 0,
        ;
        assert(lhs <= rhs);
        lemma_square_le(lhs, rhs);
        // lhs^2 * q == (g * g * q) * tt
        assert(lhs * lhs * q == (g * g * q) * tt) by (nonlinear_arith)
            requires
                lhs == g * t2,
                tt == t2 * t2,
        ;
        // rhs^2 * q == 4 * (sig * sig) * c * kk <= 4 * n * c * kk == (4 * p * kk) * tt
        assert(rhs * rhs * q == (4 * kk) * ((sig * sig) * c)) by (nonlinear_arith)
            requires
                rhs == 2 * (sig * u) * k,
                u * u * q == c,
                k * k == kk,
        ;
        lemma_scale_le(sig * sig, n, c);
        lemma_scale_le((sig * sig) * c, n * c, 4 * kk);
        assert((4 * kk) * (n * c) == (4 * p * kk) * tt) by (nonlinear_arith)
            requires
                n * c == p * tt,
        ;
        lemma_scale_le(lhs * lhs, rhs * rhs, q);
        assert((g * g * q) * tt <= (4 * p * kk) * tt);
        lemma_cancel_le(g * g * q, 4 * p * kk, tt);
        if odd {
            if sticky {
                lemma_scale_lt(sig * sig, n, c);
                lemma_scale_lt((sig * sig) * c, n * c, 4 * kk);
            } else {
                lemma_scale_lt(lhs * lhs, rhs * rhs, q);
            }
            assert((g * g * q) * tt < (4 * p * kk) * tt);
            lemma_cancel_lt(g * g * q, 4 * p * kk, tt);
        }
    }
    if m < INFINITY_ORDINAL {
        let g = magnitude_at(m) + magnitude_at(m + 1);
        let top = if sticky {
            sig + 1
        } else {
            sig
        };
        lemma_order(m, m + 1);
        let lhs = 2 * (top * u) * k;
        let rhs = g * t2;
        assert(0 <= lhs) by (nonlinear_arith)
            requires
                lhs == 2 * (top * u) * k,
                top >= 0,
                u >= 0,
                k >= 0,
        ;
        assert(lhs <= rhs);
        lemma_square_le(lhs, rhs);
        assert(rhs * rhs * q == (g * g * q) * tt) by (nonlinear_arith)
            requires
                rhs == g * t2,
                tt == t2 * t2,
        ;
        assert(lhs * lhs * q == (4 * kk) * ((top * top) * c)) by (nonlinear_arith)
            requires
                lhs == 2 * (top * u) * k,
                u * u * q == c,
                k * k == kk,
        ;
        assert(n <= top * top);
        lemma_scale_le(n, top * top, c);
        lemma_scale_le(n * c, (top * top) * c, 4 * kk);
        assert((4 * kk) * (n * c) == (4 * p * kk) * tt) by (nonlinear_arith)
            requires
                n * c == p * tt,
        ;
        lemma_scale_le(lhs * lhs, rhs * rhs, q);
        assert((4 * p * kk) * tt <= (g * g * q) * tt);
        lemma_cancel_le(4 * p * kk, g * g * q, tt);
        if odd {
            if sticky {
                lemma_scale_lt(n, top * top, c);
                lemma_scale_lt(n * c, (top * top) * c, 4 * kk);
            } else {
                lemma_scale_lt(lhs * lhs, rhs * rhs, q);
            }
            assert((4 * p * kk) * tt < (g * g * q) * tt);
            lemma_cancel_lt(4 * p * kk, g * g * q, tt);
        }
    }
    assert(root_above_lower_edge(m, p, q, odd));
    assert(root_below_upper_edge(m, p, q, odd));
    assert(is_nearest_root(m, p, q));
    lemma_nearest_root_unique(m, nearest_root(p, q), p, q);
}

impl Scalar {
    /// The square root of the value, rounded to the nearest scalar, ties to even.
    /// Zero of either sign and infinity are their own roots; a negative number
    /// has none, nor has what is not a number.
    #[verifier::opaque]
    pub open spec fn sqrt_spec(self) -> Scalar {
        if self.nan() {
            Scalar::not_a_number()
        } else if self.zero() {
            self
        } else if self.negative() {
            Scalar::not_a_number()
        } else if self.infinite() {
            self
        } else {
            Scalar::signed(false, nearest_root(self.magnitude(), exp2(1074)))
        }
    }

    /// The square root, rounded to the nearest scalar.
    pub fn sqrt(self) -> (r: Scalar)
        ensures
            r == self.sqrt_spec(),
    {
        reveal(Scalar::sqrt_spec);
        let a = self.position();
        if a > INFINITY_ORDINAL {
            return Scalar::make_nan();
        }
        if a == 0 {
            return self;
        }
        if self.is_sign_negative() {
            return Scalar::make_nan();
        }
        if a == INFINITY_ORDINAL {
            return self;
        }
        let (sa, ea) = unpack(a);
        let n: u32 = bit_length(sa as u128);
        proof {
            lemma_exp2_values();
            if n > 53 {
                lemma_exp2_le(53, n - 1);
            }
        }
        // The significand is moved up against the top of 128 bits, one place less
        // where the exponent that is left would be odd.
        let lift: u32 = (ea + 1074) as u32;
        let odd: u32 = (lift + (128 - n)) % 2;
        let k: u32 = 128 - n - odd;
        let kk: u128 = two_pow(k);
        proof {
            lemma_exp2_add(n as int, k as int);
            lemma_exp2_add(n - 1, k as int);
            lemma_exp2_pos(k as int);
            lemma_exp2_le(n + k, 128);
            lemma_exp2_le(126, n - 1 + k);
            lemma_exp2_add(63, 63);
            lemma_scale_lt(sa as int, exp2(n as int), kk as int);
            lemma_scale_le(exp2(n - 1), sa as int, kk as int);
        }
        let num: u128 = (sa as u128) * kk;
        let root: u64 = integer_sqrt(num);
        let square: u128 = (root as u128) * (root as u128);
        let sticky = square != num;
        let halved: u32 = (lift + 128 - k) / 2;
        let exp: i32 = (halved as i32) - 601;
        proof {
            assert(2 * exp == ea - k);
            assert(root >= 0x8000_0000_0000_0000) by (nonlinear_arith)
                requires
                    num < (root + 1) * (root + 1),
                    num >= 0x8000_0000_0000_0000 * 0x8000_0000_0000_0000,
                    root >= 0,
            ;
        }
        let m = round_to_ordinal(root as u128, exp, sticky);
        proof {
            let u = exp2(exp + 2200);
            let t2 = exp2(2200);
            let q = exp2(1074);
            let wa = exp2(ea + 1074);
            let p = self.magnitude();
            let c = u * u * q;
            lemma_exp2_pos(1074);
            lemma_exp2_add(exp + 2200, exp + 2200);
            lemma_exp2_add(2 * exp + 4400, 1074);
            lemma_exp2_pos(2 * exp + 5474);
            lemma_exp2_add(k as int, 2 * exp + 5474);
            lemma_exp2_add(2200, 2200);
            lemma_exp2_add(ea + 1074, 4400);
            assert(c == exp2(2 * exp + 5474)) by (nonlinear_arith)
                requires
                    c == u * u * q,
                    u * u == exp2(2 * exp + 4400),
                    exp2(2 * exp + 4400) * q == exp2(2 * exp + 5474),
            ;
            assert(num * c == p * (t2 * t2)) by (nonlinear_arith)
                requires
                    num == sa * kk,
                    p == sa * wa,
                    kk * c == exp2(ea + 5474),
                    t2 * t2 == exp2(4400),
                    wa * exp2(4400) == exp2(ea + 5474),
            ;
            lemma_bracket_rounds_root(
                m as int,
                root as int,
                exp as int,
                sticky,
                num as int,
                c,
                p,
                q,
            );
        }
        Scalar::from_parts(false, m)
    }
}

} // verus!
