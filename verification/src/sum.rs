//! Addition, subtraction and negation of scalars.
use crate::grid::{encodable, nearest, HIDDEN_BIT, INFINITY_ORDINAL};
use crate::power::{
    distance, exp2, lemma_exp2_add, lemma_exp2_le, lemma_exp2_pos, lemma_exp2_values, two_pow,
};
use crate::round::{lemma_bracket_rounds, lemma_nearest_exact, round_to_ordinal, unpack};
use crate::scalar::Scalar;
use core::ops::Neg;
use vstd::prelude::*;

verus! {

/// The value, in units of 2^-1074, of the number with the given sign,
/// significand and exponent.
pub open spec fn signed_part(negative: bool, s: int, e: int) -> int {
    if negative {
        -(s * exp2(e + 1074))
    } else {
        s * exp2(e + 1074)
    }
}

/// The sum of two finite numbers other than zero, each given by its sign, its
/// significand and its exponent; the first has the larger exponent. Returns the
/// sign and the position of the rounded sum.
fn add_parts(hn: bool, sh: u64, eh: i32, ln: bool, sl: u64, el: i32) -> (r: (bool, u64))
    requires
        encodable(sh as int, eh as int),
        encodable(sl as int, el as int),
        0 < sh < 2 * HIDDEN_BIT,
        0 < sl < 2 * HIDDEN_BIT,
        eh >= el,
    ensures
        ({
            let total = signed_part(hn, sh as int, eh as int) + signed_part(
                ln,
                sl as int,
                el as int,
            );
            &&& r.1 <= INFINITY_ORDINAL
            &&& total == 0 ==> r == (false, 0u64)
            &&& total != 0 ==> r.0 == (total < 0) && r.1 == nearest(distance(total), exp2(1074))
        }),
{
    let ghost wh = exp2(eh + 1074);
    let ghost wl = exp2(el + 1074);
    let ghost t2 = exp2(2200);
    let ghost k = exp2(1074);
    let ghost total = signed_part(hn, sh as int, eh as int) + signed_part(
        ln,
        sl as int,
        el as int,
    );
    proof {
        lemma_exp2_values();
        lemma_exp2_pos(eh + 1074);
        lemma_exp2_pos(el + 1074);
        lemma_exp2_pos(1074);
        lemma_exp2_pos(2200);
        lemma_exp2_add(el + 1074, 2200);
        lemma_exp2_add(el + 2200, 1074);
        lemma_exp2_add(eh + 1074, 2200);
    }
    let d: i32 = eh - el;
    if d <= 64 {
        let dd: u128 = two_pow(d as u32);
        proof {
            lemma_exp2_le(d as int, 64);
            lemma_exp2_pos(d as int);
            lemma_exp2_add(d as int, el + 1074);
            assert(sh * dd <= 0x20_0000_0000_0000 * 0x1_0000_0000_0000_0000) by (nonlinear_arith)
                requires
                    0 < sh < 0x20_0000_0000_0000,
                    0 < dd <= 0x1_0000_0000_0000_0000,
            ;
            assert(sh * dd > 0) by (nonlinear_arith)
                requires
                    0 < sh,
                    0 < dd,
            ;
        }
        let big: u128 = (sh as u128) * dd;
        let small: u128 = sl as u128;
        proof {
            assert(sh * wh == big * wl) by (nonlinear_arith)
                requires
                    big == sh * dd,
                    dd * wl == wh,
            ;
        }
        if hn == ln {
            let sig: u128 = big + small;
            let m = round_to_ordinal(sig, el, false);
            proof {
                let p = sig * wl;
                assert(p == big * wl + small * wl) by (nonlinear_arith)
                    requires
                        p == sig * wl,
                        sig == big + small,
                ;
                assert(p > 0) by (nonlinear_arith)
                    requires
                        p == sig * wl,
                        sig > 0,
                        wl > 0,
                ;
                assert(p * t2 == sig * exp2(el + 2200) * k) by (nonlinear_arith)
                    requires
                        p == sig * wl,
                        wl * t2 == exp2(el + 3274),
                        exp2(el + 2200) * k == exp2(el + 3274),
                ;
                lemma_bracket_rounds(m as int, sig as int, el as int, false, p, k);
                assert(distance(total) == p);
            }
            (hn, m)
        } else if big == small {
            (false, 0)
        } else {
            let sig: u128 = if big > small {
                big - small
            } else {
                small - big
            };
            let m = round_to_ordinal(sig, el, false);
            proof {
                let p = sig * wl;
                assert(big > small ==> p == big * wl - small * wl) by (nonlinear_arith)
                    requires
                        p == sig * wl,
                        big > small ==> sig == big - small,
                ;
                assert(big < small ==> p == small * wl - big * wl) by (nonlinear_arith)
                    requires
                        p == sig * wl,
                        big < small ==> sig == small - big,
                ;
                assert(p > 0) by (nonlinear_arith)
                    requires
                        p == sig * wl,
                        sig > 0,
                        wl > 0,
                ;
                assert(p * t2 == sig * exp2(el + 2200) * k) by (nonlinear_arith)
                    requires
                        p == sig * wl,
                        wl * t2 == exp2(el + 3274),
                        exp2(el + 2200) * k == exp2(el + 3274),
                ;
                lemma_bracket_rounds(m as int, sig as int, el as int, false, p, k);
                assert(distance(total) == p);
            }
            if big > small {
                (hn, m)
            } else {
                (ln, m)
            }
        }
    } else {
        // The second number is less than a quarter of the first one's last place:
        // all that matters of it is on which side of the first the sum lies.
        let sig: u128 = if hn == ln {
            4 * (sh as u128)
        } else {
            4 * (sh as u128) - 1
        };
        let m = round_to_ordinal(sig, eh - 2, true);
        proof {
            let v = exp2(eh + 3272);
            let u = exp2(eh + 2198);
            let high = sh * wh;
            let low = sl * wl;
            let p = if hn == ln {
                high + low
            } else {
                high - low
            };
            lemma_exp2_add(eh + 2198, 1074);
            lemma_exp2_add(2, eh + 3272);
            lemma_exp2_add(53, el + 3274);
            lemma_exp2_le(el + 3327, eh + 3272);
            lemma_exp2_pos(el + 3274);
            lemma_exp2_pos(eh + 3272);
            // low * t2 lies strictly between 0 and v; high * t2 == 4 * sh * v
            assert(0 < low * t2 < v) by (nonlinear_arith)
                requires
                    low == sl * wl,
                    wl * t2 == exp2(el + 3274),
                    0 < sl < exp2(53),
                    exp2(53) * exp2(el + 3274) == exp2(el + 3327),
                    exp2(el + 3327) <= v,
                    exp2(el + 3274) > 0,
            ;
            assert(high * t2 == 4 * sh * v) by (nonlinear_arith)
                requires
                    high == sh * wh,
                    wh * t2 == exp2(eh + 3274),
                    4 * v == exp2(eh + 3274),
            ;
            assert(p * t2 == if hn == ln {
                high * t2 + low * t2
            } else {
                high * t2 - low * t2
            }) by (nonlinear_arith)
                requires
                    p == if hn == ln {
                        high + low
                    } else {
                        high - low
                    },
            ;
            assert(sig * u * k == sig * v) by (nonlinear_arith)
                requires
                    u * k == v,
            ;
            assert((sig + 1) * u * k == sig * v + v) by (nonlinear_arith)
                requires
                    u * k == v,
            ;
            assert(sig * v == if hn == ln {
                4 * sh * v
            } else {
                4 * sh * v - v
            }) by (nonlinear_arith)
                requires
                    sig == if hn == ln {
                        4 * sh
                    } else {
                        4 * sh - 1
                    },
            ;
            assert(p > 0) by (nonlinear_arith)
                requires
                    p * t2 > 0,
                    t2 > 0,
            ;
            lemma_bracket_rounds(m as int, sig as int, eh - 2, true, p, k);
            assert(distance(total) == p);
            assert(total < 0 <==> hn);
        }
        (hn, m)
    }
}

impl Scalar {
    /// The same magnitude with the opposite sign.
    pub open spec fn negated(self) -> Scalar {
        Scalar::signed(!self.negative(), self.ordinal())
    }

    /// The sum of the two values, rounded to the nearest scalar, ties to even.
    /// A sum that is exactly zero is negative only where both operands are.
    /// Infinity plus a finite number, or plus itself, is that infinity; the sum
    /// of the two infinities, and any sum with what is not a number, is not a
    /// number.
    #[verifier::opaque]
    pub open spec fn plus(self, rhs: Scalar) -> Scalar {
        if self.nan() || rhs.nan() {
            Scalar::not_a_number()
        } else if self.infinite() {
            if rhs.infinite() && self.negative() != rhs.negative() {
                Scalar::not_a_number()
            } else {
                self
            }
        } else if rhs.infinite() {
            rhs
        } else {
            let total = self.signed_magnitude() + rhs.signed_magnitude();
            if total == 0 {
                Scalar::signed(self.negative() && rhs.negative(), 0)
            } else {
                Scalar::signed(total < 0, nearest(distance(total), exp2(1074)))
            }
        }
    }

    /// The first value plus the second with its sign turned.
    pub open spec fn minus(self, rhs: Scalar) -> Scalar {
        self.plus(rhs.negated())
    }
}

impl vstd::std_specs::ops::NegSpecImpl for Scalar {
    open spec fn obeys_neg_spec() -> bool {
        true
    }

    open spec fn neg_req(self) -> bool {
        true
    }

    open spec fn neg_spec(self) -> Scalar {
        self.negated()
    }
}

impl core::ops::Neg for Scalar {
    type Output = Scalar;

    fn neg(self) -> (r: Scalar) {
        Scalar::from_parts(!self.is_sign_negative(), self.position())
    }
}

impl vstd::std_specs::ops::AddSpecImpl for Scalar {
    open spec fn obeys_add_spec() -> bool {
        true
    }

    open spec fn add_req(self, rhs: Scalar) -> bool {
        true
    }

    open spec fn add_spec(self, rhs: Scalar) -> Scalar {
        self.plus(rhs)
    }
}

impl core::ops::Add for Scalar {
    type Output = Scalar;

    fn add(self, rhs: Scalar) -> (r: Scalar) {
        reveal(Scalar::plus);
        let a = self.position();
        let b = rhs.position();
        let an = self.is_sign_negative();
        let bn = rhs.is_sign_negative();
        if a > INFINITY_ORDINAL || b > INFINITY_ORDINAL {
            return Scalar::make_nan();
        }
        if a == INFINITY_ORDINAL {
            if b == INFINITY_ORDINAL && an != bn {
                return Scalar::make_nan();
            }
            return self;
        }
        if b == INFINITY_ORDINAL {
            return rhs;
        }
        proof {
            crate::grid::lemma_order(a as int, 0);
            crate::grid::lemma_order(b as int, 0);
            lemma_nearest_exact(a as int);
            lemma_nearest_exact(b as int);
        }
        if a == 0 {
            if b == 0 {
                return Scalar::from_parts(an && bn, 0);
            }
            return rhs;
        }
        if b == 0 {
            return self;
        }
        let (sa, ea) = unpack(a);
        let (sb, eb) = unpack(b);
        let (negative, m) = if ea >= eb {
            add_parts(an, sa, ea, bn, sb, eb)
        } else {
            add_parts(bn, sb, eb, an, sa, ea)
        };
        Scalar::from_parts(negative, m)
    }
}

impl vstd::std_specs::ops::SubSpecImpl for Scalar {
    open spec fn obeys_sub_spec() -> bool {
        true
    }

    open spec fn sub_req(self, rhs: Scalar) -> bool {
        true
    }

    open spec fn sub_spec(self, rhs: Scalar) -> Scalar {
        self.minus(rhs)
    }
}

impl core::ops::Sub for Scalar {
    type Output = Scalar;

    fn sub(self, rhs: Scalar) -> (r: Scalar) {
        self + rhs.neg()
    }
}

} // verus!
