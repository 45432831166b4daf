//! Multiplication of scalars.
use crate::grid::{nearest, INFINITY_ORDINAL};
use crate::power::{exp2, lemma_exp2_add, lemma_exp2_values};
use crate::round::{lemma_bracket_rounds, round_to_ordinal, unpack};
use crate::scalar::Scalar;
use vstd::prelude::*;

verus! {

impl Scalar {
    /// The product of the two values, rounded to the nearest scalar, ties to even.
    /// Its sign is negative where exactly one operand's is. Infinity times zero,
    /// and any product with what is not a number, is not a number.
    #[verifier::opaque]
    pub open spec fn times(self, rhs: Scalar) -> Scalar {
        let negative = self.negative() != rhs.negative();
        if self.nan() || rhs.nan() {
            Scalar::not_a_number()
        } else if self.infinite() || rhs.infinite() {
            if self.zero() || rhs.zero() {
                Scalar::not_a_number()
            } else {
                Scalar::signed(negative, INFINITY_ORDINAL as int)
            }
        } else {
            Scalar::signed(negative, nearest(self.magnitude() * rhs.magnitude(), exp2(2148)))
        }
    }
}

impl vstd::std_specs::ops::MulSpecImpl for Scalar {
    open spec fn obeys_mul_spec() -> bool {
        true
    }

    open spec fn mul_req(self, rhs: Scalar) -> bool {
        true
    }

    open spec fn mul_spec(self, rhs: Scalar) -> Scalar {
        self.times(rhs)
    }
}

impl core::ops::Mul for Scalar {
    type Output = Scalar;

    fn mul(self, rhs: Scalar) -> (r: Scalar) {
        reveal(Scalar::times);
        let negative = self.is_sign_negative() != rhs.is_sign_negative();
        let a = self.position();
        let b = rhs.position();
        if a > INFINITY_ORDINAL || b > INFINITY_ORDINAL {
            return Scalar::make_nan();
        }
        if a == INFINITY_ORDINAL || b == INFINITY_ORDINAL {
            if a == 0 || b == 0 {
                return Scalar::make_nan();
            }
            return Scalar::from_parts(negative, INFINITY_ORDINAL);
        }
        let (sa, ea) = unpack(a);
        let (sb, eb) = unpack(b);
        proof {
            lemma_exp2_values();
            assert(sa * sb <= 0x20_0000_0000_0000 * 0x20_0000_0000_0000) by (nonlinear_arith)
                requires
                    0 <= sa < 0x20_0000_0000_0000,
                    0 <= sb < 0x20_0000_0000_0000,
            ;
        }
        let sig: u128 = (sa as u128) * (sb as u128);
        let m = round_to_ordinal(sig, ea + eb, false);
        proof {
            let wa = exp2(ea + 1074);
            let wb = exp2(eb + 1074);
            let p = self.magnitude() * rhs.magnitude();
            lemma_exp2_add(ea + 1074, eb + 1074);
            lemma_exp2_add(ea + eb + 2148, 2200);
            lemma_exp2_add(ea + eb + 2200, 2148);
            assert(p * exp2(2200) == sig * exp2(ea + eb + 2200) * exp2(2148)) by (nonlinear_arith)
                requires
                    p == (sa * wa) * (sb * wb),
                    sig == sa * sb,
                    wa * wb == exp2(ea + eb + 2148),
                    exp2(ea + eb + 2148) * exp2(2200) == exp2(ea + eb + 4348),
                    exp2(ea + eb + 2200) * exp2(2148) == exp2(ea + eb + 4348),
            ;
            vstd::arithmetic::power2::lemma_pow2_pos(2148);
            lemma_bracket_rounds(m as int, sig as int, ea + eb, false, p, exp2(2148));
        }
        Scalar::from_parts(negative, m)
    }
}

} // verus!
