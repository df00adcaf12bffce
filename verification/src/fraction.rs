//! Shares of integers, for fractions given as single-precision bit patterns.
//!
//! A non-negative fraction with the bit pattern `bits` is `mantissa / 2^shift`.
//! Its product with an integer, as single precision computes it, is the integer
//! rounded to 24 significant bits, times the mantissa, rounded to 24
//! significant bits again, over `2^shift`.
use vstd::prelude::*;
use vstd::arithmetic::power2::{lemma_pow2_adds, lemma_pow2_pos, lemma_pow2_strictly_increases, pow2};
use vstd::arithmetic::div_mod::lemma_basic_div;
use crate::significand::{
    lemma_round_nearest_error, round_nearest, round_significand, SINGLE_LIMIT,
};

verus! {

/// Bits of the fraction one.
pub const ONE_BITS: u32 = 0x3f80_0000;

/// Fractions with smaller bit patterns are below `2^23`.
pub const WHOLE_BITS: u32 = 0x4b00_0000;

pub open spec fn mantissa(bits: u32) -> nat {
    if bits < 0x80_0000 {
        bits as nat
    } else {
        bits as nat % 0x80_0000 + 0x80_0000
    }
}

pub open spec fn shift(bits: u32) -> nat {
    if bits < 0x80_0000 {
        149
    } else {
        (150 - bits as nat / 0x80_0000) as nat
    }
}

/// The numerator of the rounded product of `n` and the fraction.
pub open spec fn scaled(n: nat, bits: u32) -> nat {
    let limit = SINGLE_LIMIT as nat;
    round_nearest((round_nearest(n, limit) * mantissa(bits)) as nat, limit)
}

/// The product, rounded down.
pub open spec fn share_down(n: nat, bits: u32) -> nat {
    scaled(n, bits) / pow2(shift(bits))
}

/// The product, rounded to the nearest integer, halves up.
pub open spec fn share_nearest(n: nat, bits: u32) -> nat {
    (2 * scaled(n, bits) + pow2(shift(bits))) as nat / (2 * pow2(shift(bits))) as nat
}

proof fn lemma_scaled(n: nat, bits: u32)
    requires
        n <= u64::MAX,
        bits < WHOLE_BITS,
    ensures
        round_nearest(n, SINGLE_LIMIT as nat) <= 0x2_0000_0000_0000_0000,
        round_nearest(n, SINGLE_LIMIT as nat) * mantissa(bits) <= 0x200_0000_0000_0000_0000_0000,
        scaled(n, bits) <= 0x400_0000_0000_0000_0000_0000,
        mantissa(bits) < 0x100_0000,
{
    let limit = SINGLE_LIMIT as nat;
    lemma_round_nearest_error(n, limit);
    let a = round_nearest(n, limit);
    let m = mantissa(bits);
    assert(0 <= a * m <= 0x2_0000_0000_0000_0000 * 0x100_0000) by (nonlinear_arith)
        requires
            0 <= a <= 0x2_0000_0000_0000_0000,
            0 <= m <= 0x100_0000,
    ;
    lemma_round_nearest_error((a * m) as nat, limit);
}

/// The product's numerator.
fn scaled_numerator(n: usize, bits: u32) -> (r: u128)
    requires
        bits < WHOLE_BITS,
    ensures
        r == scaled(n as nat, bits),
        r <= 0x400_0000_0000_0000_0000_0000,
{
    proof {
        lemma_scaled(n as nat, bits);
    }
    let m: u128 = if bits < 0x80_0000 {
        bits as u128
    } else {
        (bits % 0x80_0000 + 0x80_0000) as u128
    };
    let a: u128 = round_significand(n as u128, SINGLE_LIMIT);
    round_significand(a * m, SINGLE_LIMIT)
}

/// `2^s` for a shift that a product can reach, or nothing beyond.
fn power(s: u32) -> (r: Option<u128>)
    ensures
        s <= 100 ==> r == Some(pow2(s as nat) as u128),
        s <= 100 ==> pow2(s as nat) <= 0x10_0000_0000_0000_0000_0000_0000,
        s > 100 ==> r is None,
        s > 100 ==> pow2(s as nat) > 0x10_0000_0000_0000_0000_0000_0000,
{
    proof {
        vstd::arithmetic::power2::lemma2_to64_rest();
        vstd::arithmetic::power2::lemma2_to64();
        lemma_pow2_adds(50, 50);
        assert(pow2(50) == 0x4_0000_0000_0000);
        assert(pow2(100) == 0x10_0000_0000_0000_0000_0000_0000);
        if s < 100 {
            lemma_pow2_strictly_increases(s as nat, 100);
        }
        if s > 100 {
            lemma_pow2_strictly_increases(100, s as nat);
        }
    }
    if s > 100 {
        return None;
    }
    let mut r: u128 = 1;
    for i in 0..s
        invariant
            s <= 100,
            r == pow2(i as nat),
            pow2(100) == 0x10_0000_0000_0000_0000_0000_0000,
    {
        proof {
            lemma_pow2_adds(i as nat, 1);
            vstd::arithmetic::power2::lemma2_to64();
            assert(r * 2 == pow2((i + 1) as nat));
            if i + 1 < 100 {
                lemma_pow2_strictly_increases((i + 1) as nat, 100);
            }
        }
        r = r * 2;
    }
    Some(r)
}

fn shift_of(bits: u32) -> (s: u32)
    requires
        bits < WHOLE_BITS,
    ensures
        s == shift(bits),
{
    if bits < 0x80_0000 {
        149
    } else {
        150 - bits / 0x80_0000
    }
}

/// `n` times a fraction, rounded down; the largest word where that is larger.
pub fn fraction_floor(n: usize, bits: u32) -> (r: usize)
    requires
        bits < WHOLE_BITS,
    ensures
        r == if share_down(n as nat, bits) <= usize::MAX {
            share_down(n as nat, bits)
        } else {
            usize::MAX as nat
        },
{
    let x: u128 = scaled_numerator(n, bits);
    let q: u128 = match power(shift_of(bits)) {
        Some(p) => {
            proof {
                lemma_pow2_pos(shift(bits));
            }
            x / p
        },
        None => {
            proof {
                lemma_basic_div(x as int, pow2(shift(bits)) as int);
            }
            0
        },
    };
    if q <= usize::MAX as u128 {
        q as usize
    } else {
        usize::MAX
    }
}

/// `n` times a fraction, rounded to the nearest integer, halves up; the
/// largest word where that is larger.
pub fn fraction_round(n: usize, bits: u32) -> (r: usize)
    requires
        bits < WHOLE_BITS,
    ensures
        r == if share_nearest(n as nat, bits) <= usize::MAX {
            share_nearest(n as nat, bits)
        } else {
            usize::MAX as nat
        },
{
    let x: u128 = scaled_numerator(n, bits);
    let q: u128 = match power(shift_of(bits)) {
        Some(p) => {
            proof {
                lemma_pow2_pos(shift(bits));
            }
            (2 * x + p) / (2 * p)
        },
        None => {
            proof {
                let p = pow2(shift(bits)) as int;
                lemma_basic_div(2 * x + p, 2 * p);
            }
            0
        },
    };
    if q <= usize::MAX as u128 {
        q as usize
    } else {
        usize::MAX
    }
}

/// A share rounded down is the largest integer that is not above the product.
pub proof fn law_share_down_is_the_floor(n: nat, bits: u32)
    ensures
        share_down(n, bits) * pow2(shift(bits)) <= scaled(n, bits) < (share_down(n, bits) + 1)
            * pow2(shift(bits)),
{
    lemma_pow2_pos(shift(bits));
    let x = scaled(n, bits) as int;
    let p = pow2(shift(bits)) as int;
    vstd::arithmetic::div_mod::lemma_fundamental_div_mod(x, p);
    vstd::arithmetic::div_mod::lemma_mod_bound(x, p);
    assert(p * (x / p) == (x / p) * p) by (nonlinear_arith);
    assert((x / p + 1) * p == (x / p) * p + p) by (nonlinear_arith);
}

/// A rounded share is the nearest integer to the product, and the larger of two
/// that are as near.
pub proof fn law_share_nearest_is_nearest(n: nat, bits: u32)
    ensures
        -pow2(shift(bits)) <= 2 * (scaled(n, bits) - share_nearest(n, bits) * pow2(shift(bits)))
            < pow2(shift(bits)),
{
    lemma_pow2_pos(shift(bits));
    let p = pow2(shift(bits)) as int;
    let x = 2 * scaled(n, bits) + p;
    let q = 2 * p;
    vstd::arithmetic::div_mod::lemma_fundamental_div_mod(x, q);
    vstd::arithmetic::div_mod::lemma_mod_bound(x, q);
    assert(q * (x / q) == 2 * ((x / q) * p)) by (nonlinear_arith)
        requires
            q == 2 * p,
    ;
}

/// Fractions are ordered as their bit patterns are, and the pattern of one
/// stands for one.
pub proof fn law_fractions_are_ordered(a: u32, b: u32)
    requires
        a < b < WHOLE_BITS,
    ensures
        mantissa(a) * pow2(shift(b)) < mantissa(b) * pow2(shift(a)),
        mantissa(ONE_BITS) == pow2(shift(ONE_BITS)),
{
    vstd::arithmetic::power2::lemma2_to64();
    let m = mantissa(a) as int;
    let n = mantissa(b) as int;
    let s = shift(a);
    let t = shift(b);
    assert(t <= s);
    lemma_pow2_pos(t);
    let p = pow2(t) as int;
    if s == t {
        assert(m < n);
        assert(m * p < n * p) by (nonlinear_arith)
            requires
                m < n,
                p > 0,
        ;
    } else {
        // One more step of the exponent at least doubles the value.
        assert(m < 0x100_0000 && n >= 0x80_0000);
        let e = (s - t) as nat;
        lemma_pow2_adds(t, e);
        lemma_pow2_pos(e);
        let r = pow2(e) as int;
        assert(r >= 2) by {
            if e > 1 {
                lemma_pow2_strictly_increases(1, e);
            }
        }
        assert(m < n * r) by (nonlinear_arith)
            requires
                m < 0x100_0000,
                n >= 0x80_0000,
                r >= 2,
        ;
        assert(m * p < n * (p * r)) by (nonlinear_arith)
            requires
                m < n * r,
                p > 0,
        ;
    }
}

} // verus!
