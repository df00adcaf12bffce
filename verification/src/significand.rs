//! Integer model of rounding to a fixed number of significant bits.
//!
//! A binary floating-point format with a `b`-bit significand holds every
//! integer below `2^b` exactly. Larger integers are rounded to the nearest
//! multiple of the spacing at their magnitude, ties going to the even
//! multiple. Scaling by a power of two moves no bit of the significand, so the
//! product of an integer and a constant `c / 2^s` rounds exactly as the
//! integer product with `c` does. That lets size rules that are written with a
//! fractional constant be computed and reasoned about with integers alone.
use vstd::prelude::*;
use vstd::arithmetic::div_mod::*;
use vstd::arithmetic::mul::*;

verus! {

/// Integers below this bound are exact in a 24-bit significand.
pub const SINGLE_LIMIT: u128 = 0x100_0000;

/// Integers below this bound are exact in a 53-bit significand.
pub const DOUBLE_LIMIT: u128 = 0x20_0000_0000_0000;

/// Spacing of the representable integers around `x`.
pub open spec fn spacing(x: nat, limit: nat) -> nat
    decreases x,
{
    if x < limit || limit < 2 {
        1
    } else {
        2 * spacing(x / 2, limit)
    }
}

/// `x` rounded to the nearest multiple of its spacing, ties to even.
pub open spec fn round_nearest(x: nat, limit: nat) -> nat {
    let m = spacing(x, limit);
    let q = x / m;
    let r = x % m;
    if 2 * r > m || (2 * r == m && q % 2 == 1) {
        (q + 1) * m
    } else {
        q * m
    }
}

pub proof fn lemma_spacing_bounds(x: nat, limit: nat)
    requires
        limit >= 2,
    ensures
        spacing(x, limit) >= 1,
        x >= limit ==> spacing(x, limit) * limit <= 2 * x,
        x < limit ==> spacing(x, limit) == 1,
    decreases x,
{
    if x >= limit {
        lemma_spacing_bounds(x / 2, limit);
        let s = spacing(x / 2, limit);
        assert((2 * s) * limit == 2 * (s * limit)) by (nonlinear_arith);
        if x / 2 < limit {
            assert(s == 1);
            assert((2 * s) * limit <= 2 * x);
        } else {
            assert(s * limit <= 2 * (x / 2));
        }
    }
}

/// Rounding moves `x` by at most one part in `limit`.
pub proof fn lemma_round_nearest_error(x: nat, limit: nat)
    requires
        limit >= 2,
    ensures
        x < limit ==> round_nearest(x, limit) == x,
        limit * round_nearest(x, limit) <= limit * x + x,
        limit * x <= limit * round_nearest(x, limit) + x,
{
    lemma_spacing_bounds(x, limit);
    let m = spacing(x, limit);
    let q = x / m;
    let r = x % m;
    lemma_fundamental_div_mod(x as int, m as int);
    lemma_mod_bound(x as int, m as int);
    assert(x == m * q + r);
    assert(q * m == m * q) by (nonlinear_arith);
    assert((q + 1) * m == m * q + m) by (nonlinear_arith);
    let v = round_nearest(x, limit);
    assert(2 * v <= 2 * x + m && 2 * x <= 2 * v + m);
    if x < limit {
        assert(m == 1 && r == 0);
        assert(v == x);
    } else {
        assert(2 * (limit * v) <= 2 * (limit * x) + limit * m) by (nonlinear_arith)
            requires
                2 * v <= 2 * x + m,
        ;
        assert(2 * (limit * x) <= 2 * (limit * v) + limit * m) by (nonlinear_arith)
            requires
                2 * x <= 2 * v + m,
        ;
        assert(limit * m == m * limit) by (nonlinear_arith);
    }
}

/// Rounds `x` to the significand whose exact range ends at `limit`.
pub fn round_significand(x: u128, limit: u128) -> (r: u128)
    requires
        limit >= 2,
        x < 0x8000_0000_0000_0000_0000_0000_0000_0000,
        limit * 2 <= u128::MAX,
    ensures
        r == round_nearest(x as nat, limit as nat),
{
    let mut m: u128 = 1;
    let mut y: u128 = x;
    while y >= limit
        invariant
            limit >= 2,
            m >= 1,
            y == x as int / m as int,
            m * spacing(y as nat, limit as nat) == spacing(x as nat, limit as nat),
            m <= x || m == 1,
            x < 0x8000_0000_0000_0000_0000_0000_0000_0000,
        decreases y,
    {
        proof {
            lemma_div_denominator(x as int, m as int, 2);
            lemma_fundamental_div_mod(x as int, m as int);
            lemma_mod_bound(x as int, m as int);
            assert(m * 2 <= m * y) by (nonlinear_arith)
                requires
                    y >= 2,
            ;
            let s = spacing(y as nat / 2, limit as nat);
            assert(m * (2 * s) == (m * 2) * s) by (nonlinear_arith);
        }
        y = y / 2;
        m = m * 2;
    }
    proof {
        let s = spacing(y as nat, limit as nat);
        assert(m * s == m) by (nonlinear_arith)
            requires
                s == 1,
        ;
        lemma_round_nearest_error(x as nat, limit as nat);
        lemma_fundamental_div_mod(x as int, m as int);
        lemma_mod_bound(x as int, m as int);
        assert(limit * round_nearest(x as nat, limit as nat) <= limit * (2 * x)) by {
            assert(limit * (2 * x) == limit * x + limit * x) by (nonlinear_arith);
            assert(x <= limit * x) by (nonlinear_arith)
                requires
                    limit >= 2,
                    x >= 0,
            ;
        }
        assert(round_nearest(x as nat, limit as nat) <= 2 * x) by (nonlinear_arith)
            requires
                limit * round_nearest(x as nat, limit as nat) <= limit * (2 * x),
                limit >= 2,
        ;
        assert((x as int / m as int) * m <= x) by (nonlinear_arith)
            requires
                x == m * (x as int / m as int) + x as int % m as int,
                x as int % m as int >= 0,
        ;
    }
    let q: u128 = x / m;
    let rem: u128 = x % m;
    if rem > m - rem || (rem == m - rem && q % 2 == 1) {
        (q + 1) * m
    } else {
        q * m
    }
}

/// The spacing of a number is the smallest power of two of which it is fewer
/// than `limit` multiples.
pub proof fn law_spacing_is_the_least_power(x: nat, limit: nat) -> (e: nat)
    requires
        limit >= 2,
    ensures
        spacing(x, limit) == vstd::arithmetic::power2::pow2(e),
        x < limit * spacing(x, limit),
        spacing(x, limit) > 1 ==> 2 * x >= limit * spacing(x, limit),
    decreases x,
{
    if x < limit {
        vstd::arithmetic::power2::lemma2_to64();
        0
    } else {
        let e = law_spacing_is_the_least_power(x / 2, limit);
        vstd::arithmetic::power2::lemma_pow2_unfold(e + 1);
        let m = spacing(x / 2, limit);
        assert(limit * (2 * m) == 2 * (limit * m)) by (nonlinear_arith);
        if m == 1 {
            assert(limit * m == limit) by (nonlinear_arith)
                requires
                    m == 1,
            ;
        }
        vstd::arithmetic::power2::lemma_pow2_pos(e);
        e + 1
    }
}

/// A rounded number is the nearest multiple of the spacing, and the even one of
/// two that are as near.
pub proof fn law_rounding_is_nearest(x: nat, limit: nat) -> (multiple: nat)
    requires
        limit >= 2,
    ensures
        round_nearest(x, limit) == multiple * spacing(x, limit),
        -spacing(x, limit) <= 2 * (x - round_nearest(x, limit)) <= spacing(x, limit),
        2 * (x - round_nearest(x, limit)) == spacing(x, limit) || 2 * (round_nearest(x, limit) - x)
            == spacing(x, limit) ==> multiple % 2 == 0,
{
    lemma_spacing_bounds(x, limit);
    let m = spacing(x, limit);
    let q = x / m;
    let r = x % m;
    vstd::arithmetic::div_mod::lemma_fundamental_div_mod(x as int, m as int);
    vstd::arithmetic::div_mod::lemma_mod_bound(x as int, m as int);
    assert(m * q == q * m) by (nonlinear_arith);
    assert((q + 1) * m == q * m + m) by (nonlinear_arith);
    if 2 * r > m || (2 * r == m && q % 2 == 1) {
        q + 1
    } else {
        q
    }
}

} // verus!
