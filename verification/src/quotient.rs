//! Division of scalars.
use crate::grid::{is_nearest, lemma_neighbours, nearest, INFINITY_ORDINAL};
use crate::power::{
    bit_length, exp2, lemma_exp2_add, lemma_exp2_pos, lemma_exp2_values, lemma_scale_le,
    lemma_scale_lt, two_pow,
};
use crate::round::{lemma_bracket_rounds, lemma_nearest_is, round_to_ordinal, unpack};
use crate::scalar::Scalar;
use vstd::prelude::*;

verus! {

/// Zero rounds to position 0, whatever the denominator.
pub proof fn lemma_nearest_zero(q: int)
    requires
        q > 0,
    ensures
        nearest(0, q) == 0,
{
    lemma_neighbours(0, -1074);
    lemma_exp2_pos(1074);
    let g = crate::grid::magnitude_at(0) + crate::grid::magnitude_at(1);
    assert(2 * 0 * exp2(1074) == 0) by (nonlinear_arith);
    assert(g * q >= 0) by (nonlinear_arith)
        requires
            g > 0,
            q > 0,
    ;
    assert(is_nearest(0, 0, q));
    lemma_nearest_is(0, 0, q);
}

impl Scalar {
    /// The quotient of the two values, rounded to the nearest scalar, ties to even.
    /// Its sign is negative where exactly one operand's is. A finite number over
    /// infinity is zero, a number other than zero over zero is infinity; zero over
    /// zero, infinity over infinity, and any quotient with what is not a number,
    /// is not a number.
    #[verifier::opaque]
    pub open spec fn over(self, rhs: Scalar) -> Scalar {
        let negative = self.negative() != rhs.negative();
        if self.nan() || rhs.nan() {
            Scalar::not_a_number()
        } else if self.infinite() {
            if rhs.infinite() {
                Scalar::not_a_number()
            } else {
                Scalar::signed(negative, INFINITY_ORDINAL as int)
            }
        } else if rhs.infinite() {
            Scalar::signed(negative, 0)
        } else if rhs.zero() {
            if self.zero() {
                Scalar::not_a_number()
            } else {
                Scalar::signed(negative, INFINITY_ORDINAL as int)
            }
        } else {
            Scalar::signed(negative, nearest(self.magnitude(), rhs.magnitude()))
        }
    }
}

impl vstd::std_specs::ops::DivSpecImpl for Scalar {
    open spec fn obeys_div_spec() -> bool {
        true
    }

    open spec fn div_req(self, rhs: Scalar) -> bool {
        true
    }

    open spec fn div_spec(self, rhs: Scalar) -> Scalar {
        self.over(rhs)
    }
}

impl core::ops::Div for Scalar {
    type Output = Scalar;

    fn div(self, rhs: Scalar) -> (r: Scalar) {
        reveal(Scalar::over);
        let negative = self.is_sign_negative() != rhs.is_sign_negative();
        let a = self.position();
        let b = rhs.position();
        if a > INFINITY_ORDINAL || b > INFINITY_ORDINAL {
            return Scalar::make_nan();
        }
        if a == INFINITY_ORDINAL {
            if b == INFINITY_ORDINAL {
                return Scalar::make_nan();
            }
            return Scalar::from_parts(negative, INFINITY_ORDINAL);
        }
        if b == INFINITY_ORDINAL {
            return Scalar::from_parts(negative, 0);
        }
        if b == 0 {
            if a == 0 {
                return Scalar::make_nan();
            }
            return Scalar::from_parts(negative, INFINITY_ORDINAL);
        }
        let (sa, ea) = unpack(a);
        let (sb, eb) = unpack(b);
        proof {
            lemma_exp2_values();
            lemma_exp2_pos(eb + 1074);
            assert(sb * exp2(eb + 1074) > 0) by (nonlinear_arith)
                requires
                    sb > 0,
                    exp2(eb + 1074) > 0,
            ;
        }
        if a == 0 {
            proof {
                lemma_nearest_zero(rhs.magnitude());
                assert(0 * exp2(ea + 1074) == 0) by (nonlinear_arith);
            }
            return Scalar::from_parts(negative, 0);
        }
        // The dividend is moved up against the top of 128 bits, so that the
        // integer quotient has 75 binary digits or more.
        let n: u32 = bit_length(sa as u128);
        proof {
            if n > 53 {
                crate::power::lemma_exp2_le(53, n - 1);
            }
        }
        let k: u32 = 128 - n;
        let kk: u128 = two_pow(k);
        proof {
            lemma_exp2_add(n as int, k as int);
            lemma_exp2_add(n - 1, k as int);
            lemma_exp2_pos(k as int);
            lemma_scale_lt(sa as int, exp2(n as int), kk as int);
            lemma_scale_le(exp2(n - 1), sa as int, kk as int);
        }
        let num: u128 = (sa as u128) * kk;
        let quo: u128 = num / (sb as u128);
        let rem: u128 = num % (sb as u128);
        let sticky = rem != 0;
        let exp: i32 = ea - (k as i32) - eb;
        proof {
            assert(num == quo * sb + rem) by {
                vstd::arithmetic::div_mod::lemma_fundamental_div_mod(num as int, sb as int);
                assert(sb * (num / (sb as u128)) == (num / (sb as u128)) * sb) by (nonlinear_arith);
            }
            assert(quo >= 0x20_0000_0000_0000) by (nonlinear_arith)
                requires
                    num == quo * sb + rem,
                    rem < sb,
                    0 < sb < 0x20_0000_0000_0000,
                    num >= 0x8000_0000_0000_0000_0000_0000_0000_0000,
            ;
        }
        let m = round_to_ordinal(quo, exp, sticky);
        proof {
            let wa = exp2(ea + 1074);
            let wb = exp2(eb + 1074);
            let u = exp2(exp + 2200);
            let t2 = exp2(2200);
            let p = self.magnitude();
            let q = rhs.magnitude();
            let c = wb * u;
            lemma_exp2_pos(exp + 2200);
            lemma_exp2_add(eb + 1074, exp + 2200);
            lemma_exp2_add(k as int, eb + exp + 3274);
            lemma_exp2_add(ea + 1074, 2200);
            lemma_exp2_pos(eb + exp + 3274);
            // kk * c == wa * t2, so num * c == p * t2
            assert(num * c == p * t2) by (nonlinear_arith)
                requires
                    num == sa * kk,
                    p == sa * wa,
                    c == exp2(eb + exp + 3274),
                    kk * exp2(eb + exp + 3274) == exp2(ea + 3274),
                    wa * t2 == exp2(ea + 3274),
            ;
            assert(quo * u * q == (quo * sb) * c) by (nonlinear_arith)
                requires
                    q == sb * wb,
                    c == wb * u,
            ;
            assert((quo + 1) * u * q == (quo * sb + sb) * c) by (nonlinear_arith)
                requires
                    q == sb * wb,
                    c == wb * u,
            ;
            if sticky {
                lemma_scale_lt(quo * sb, num as int, c);
                lemma_scale_lt(num as int, quo * sb + sb, c);
            }
            lemma_bracket_rounds(m as int, quo as int, exp as int, sticky, p, q);
        }
        Scalar::from_parts(negative, m)
    }
}

} // verus!
