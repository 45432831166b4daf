//! Powers of two: the specification function used throughout the crate, the
//! facts about it that the arithmetic proofs rely on, and two executable helpers.
use vstd::arithmetic::power2::{
    lemma2_to64, lemma2_to64_rest, lemma_pow2_adds, lemma_pow2_pos,
    lemma_pow2_strictly_increases, lemma_pow2_unfold, pow2,
};
use vstd::prelude::*;

verus! {

/// Two to the power `k`, for `k >= 0`.
pub open spec fn exp2(k: int) -> int
    recommends
        k >= 0,
{
    pow2(k as nat) as int
}

/// The absolute value of an integer.
pub open spec fn distance(x: int) -> int {
    if x < 0 {
        -x
    } else {
        x
    }
}

/// Powers of two are positive.
pub proof fn lemma_exp2_pos(k: int)
    requires
        k >= 0,
    ensures
        exp2(k) >= 1,
{
    lemma_pow2_pos(k as nat);
}

/// `2^a * 2^b == 2^(a + b)`.
pub proof fn lemma_exp2_add(a: int, b: int)
    requires
        a >= 0,
        b >= 0,
    ensures
        exp2(a) * exp2(b) == exp2(a + b),
{
    lemma_pow2_adds(a as nat, b as nat);
}

/// `2^(k + 1) == 2 * 2^k`.
pub proof fn lemma_exp2_succ(k: int)
    requires
        k >= 0,
    ensures
        exp2(k + 1) == 2 * exp2(k),
{
    lemma_pow2_unfold((k + 1) as nat);
}

/// Powers of two grow with the exponent.
pub proof fn lemma_exp2_le(a: int, b: int)
    requires
        0 <= a <= b,
    ensures
        exp2(a) <= exp2(b),
{
    if a < b {
        lemma_pow2_strictly_increases(a as nat, b as nat);
    }
}

/// The powers of two that the bit layout of a scalar is made of.
pub proof fn lemma_exp2_values()
    ensures
        exp2(0) == 1,
        exp2(1) == 2,
        exp2(2) == 4,
        exp2(11) == 0x800,
        exp2(31) == 0x8000_0000,
        exp2(32) == 0x1_0000_0000,
        exp2(52) == 0x10_0000_0000_0000,
        exp2(53) == 0x20_0000_0000_0000,
        exp2(54) == 0x40_0000_0000_0000,
        exp2(63) == 0x8000_0000_0000_0000,
        exp2(64) == 0x1_0000_0000_0000_0000,
        exp2(127) == 0x8000_0000_0000_0000_0000_0000_0000_0000,
        exp2(128) == 0x1_0000_0000_0000_0000_0000_0000_0000_0000,
{
    lemma2_to64();
    lemma2_to64_rest();
    lemma_pow2_adds(64, 63);
    lemma_pow2_adds(64, 64);
}

/// `a <= b` is kept when both sides are multiplied by a nonnegative number.
pub proof fn lemma_scale_le(a: int, b: int, c: int)
    requires
        a <= b,
        c >= 0,
    ensures
        a * c <= b * c,
        c * a <= c * b,
{
    assert(a * c <= b * c) by (nonlinear_arith)
        requires
            a <= b,
            c >= 0,
    ;
    assert(c * a <= c * b) by (nonlinear_arith)
        requires
            a <= b,
            c >= 0,
    ;
}

/// `a < b` is kept when both sides are multiplied by a positive number.
pub proof fn lemma_scale_lt(a: int, b: int, c: int)
    requires
        a < b,
        c > 0,
    ensures
        a * c < b * c,
        c * a < c * b,
{
    assert(a * c < b * c) by (nonlinear_arith)
        requires
            a < b,
            c > 0,
    ;
    assert(c * a < c * b) by (nonlinear_arith)
        requires
            a < b,
            c > 0,
    ;
}

/// A common positive factor can be cancelled from `<=`.
pub proof fn lemma_cancel_le(a: int, b: int, c: int)
    requires
        a * c <= b * c,
        c > 0,
    ensures
        a <= b,
{
    assert(a <= b) by (nonlinear_arith)
        requires
            a * c <= b * c,
            c > 0,
    ;
}

/// A common positive factor can be cancelled from `<`.
pub proof fn lemma_cancel_lt(a: int, b: int, c: int)
    requires
        a * c < b * c,
        c > 0,
    ensures
        a < b,
{
    assert(a < b) by (nonlinear_arith)
        requires
            a * c < b * c,
            c > 0,
    ;
}

proof fn lemma_shift_one(k: u32)
    requires
        k < 128,
    ensures
        (1u128 << k) == exp2(k as int),
    decreases k,
{
    if k == 0 {
        assert(1u128 << 0u32 == 1u128) by (bit_vector);
        lemma_exp2_values();
    } else {
        let j: u32 = (k - 1) as u32;
        lemma_shift_one(j);
        assert((1u128 << k) == 2 * (1u128 << j)) by (bit_vector)
            requires
                0 < k < 128,
                j == k - 1,
        ;
        lemma_exp2_succ(j as int);
    }
}

/// Two to the power `k` as a machine integer.
pub fn two_pow(k: u32) -> (r: u128)
    requires
        k < 128,
    ensures
        r == exp2(k as int),
{
    proof {
        lemma_shift_one(k);
    }
    1u128 << k
}

/// The number of binary digits of `x`: the least `n` with `x < 2^n`.
pub fn bit_length(x: u128) -> (n: u32)
    ensures
        n <= 128,
        x < exp2(n as int),
        n > 0 ==> exp2(n - 1) <= x,
{
    let mut n: u32 = 0;
    let mut y: u128 = x;
    proof {
        lemma_exp2_values();
    }
    while y > 0
        invariant
            n <= 128,
            y * exp2(n as int) <= x,
            x < (y + 1) * exp2(n as int),
            n > 0 ==> exp2(n - 1) <= x,
        decreases y,
    {
        let ghost p = exp2(n as int);
        let ghost y0 = y;
        proof {
            lemma_exp2_pos(n as int);
            if n >= 128 {
                lemma_exp2_le(128, n as int);
                lemma_exp2_values();
                lemma_scale_le(1, y as int, p);
            }
            lemma_exp2_succ(n as int);
            lemma_scale_le(1, y as int, p);
        }
        y = y / 2;
        n = n + 1;
        proof {
            assert(y * (2 * p) <= y0 * p) by (nonlinear_arith)
                requires
                    2 * y <= y0,
                    p >= 0,
            ;
            assert((y0 + 1) * p <= (y + 1) * (2 * p)) by (nonlinear_arith)
                requires
                    y0 + 1 <= 2 * (y + 1),
                    p >= 0,
            ;
        }
    }
    proof {
        let p = exp2(n as int);
        assert((y + 1) * p == p) by (nonlinear_arith)
            requires
                y == 0,
        ;
    }
    n
}

/// The integer square root: the largest `r` whose square does not exceed `x`.
pub fn integer_sqrt(x: u128) -> (r: u64)
    ensures
        r * r <= x < (r + 1) * (r + 1),
{
    let mut r: u64 = 0;
    let mut bit: u32 = 64;
    proof {
        lemma_exp2_values();
        assert((0 + exp2(64)) * (0 + exp2(64)) == 0x1_0000_0000_0000_0000_0000_0000_0000_0000)
            by (nonlinear_arith)
            requires
                exp2(64) == 0x1_0000_0000_0000_0000,
        ;
    }
    while bit > 0
        invariant
            bit <= 64,
            r * r <= x,
            x < (r + exp2(bit as int)) * (r + exp2(bit as int)),
            r + exp2(bit as int) <= 0x1_0000_0000_0000_0000,
        decreases bit,
    {
        bit = bit - 1;
        let step: u128 = two_pow(bit);
        proof {
            lemma_exp2_succ(bit as int);
            lemma_exp2_pos(bit as int);
        }
        let c: u64 = r + (step as u64);
        proof {
            assert(c * c < 0x1_0000_0000_0000_0000_0000_0000_0000_0000) by (nonlinear_arith)
                requires
                    0 <= c < 0x1_0000_0000_0000_0000,
            ;
        }
        let cc: u128 = (c as u128) * (c as u128);
        if cc <= x {
            r = c;
        }
    }
    proof {
        lemma_exp2_values();
    }
    r
}

/// Squaring keeps the order of nonnegative numbers.
pub proof fn lemma_square_le(a: int, b: int)
    requires
        0 <= a <= b,
    ensures
        a * a <= b * b,
        a < b ==> a * a < b * b,
{
    assert(a * a <= b * b) by (nonlinear_arith)
        requires
            0 <= a <= b,
    ;
    assert(a < b ==> a * a < b * b) by (nonlinear_arith)
        requires
            0 <= a <= b,
    ;
}

} // verus!
