//! Fixed-point scalars: each `i64` counts steps of 1/65536 of a unit.
//!
//! The spec functions `fxmul`, `fxdiv` and `sqrt_floor` are the mathematical
//! model of the executable operations; every executable function here returns
//! exactly its model value, rounding toward zero.

use vstd::arithmetic::div_mod::{
    lemma_div_by_multiple, lemma_div_is_ordered, lemma_div_pos_is_pos, lemma_fundamental_div_mod,
    lemma_mod_bound,
};
use vstd::prelude::*;

verus! {

/// Steps per unit: the value 1.0 is represented as 65536.
pub const SCALE: i64 = 65536;

/// The value 0.5: the magnitude floor under which the tolerance of the
/// unit-magnitude law on normalization starts to widen.
pub const HALF_SCALE: i64 = 32768;

/// Truncating (round toward zero) division by a positive divisor, the
/// rounding used by every executable operation in this crate.
pub open spec fn tdiv(p: int, d: int) -> int
    recommends
        d > 0,
{
    if p >= 0 {
        p / d
    } else {
        -((-p) / d)
    }
}

/// The fixed-point product: with a and b counting 1/65536ths, the product of
/// the quantities they stand for, again in 1/65536ths, rounded toward zero.
pub open spec fn fxmul(a: int, b: int) -> int {
    tdiv(a * b, SCALE as int)
}

/// The fixed-point quotient of the quantities a and b stand for, in
/// 1/65536ths, rounded toward zero; b must be positive.
pub open spec fn fxdiv(a: int, b: int) -> int
    recommends
        b > 0,
{
    tdiv(a * (SCALE as int), b)
}

/// d * tdiv(p, d) differs from p by less than d, never past zero.
pub proof fn lemma_tdiv_bracket(p: int, d: int)
    requires
        d > 0,
    ensures
        p >= 0 ==> 0 <= tdiv(p, d) && tdiv(p, d) * d <= p && p < tdiv(p, d) * d + d,
        p < 0 ==> tdiv(p, d) <= 0 && p <= tdiv(p, d) * d && tdiv(p, d) * d - d < p,
{
    if p >= 0 {
        lemma_fundamental_div_mod(p, d);
        lemma_mod_bound(p, d);
        lemma_div_pos_is_pos(p, d);
        assert(d * (p / d) == (p / d) * d) by (nonlinear_arith);
    } else {
        lemma_fundamental_div_mod(-p, d);
        lemma_mod_bound(-p, d);
        lemma_div_pos_is_pos(-p, d);
        let q = (-p) / d;
        assert(d * q == q * d && (-q) * d == -(q * d)) by (nonlinear_arith);
        assert(tdiv(p, d) == -q);
    }
}

/// Truncation never grows the magnitude: a bound on p gives a bound on
/// tdiv(p, d) after dividing the bound.
pub proof fn lemma_tdiv_le(p: int, d: int, m: int)
    requires
        d > 0,
        -m <= p <= m,
        0 <= m,
    ensures
        -(m / d) <= tdiv(p, d) <= m / d,
{
    lemma_div_pos_is_pos(m, d);
    if p >= 0 {
        lemma_div_is_ordered(p, m, d);
        lemma_div_pos_is_pos(p, d);
    } else {
        lemma_div_is_ordered(-p, m, d);
        lemma_div_pos_is_pos(-p, d);
    }
}

/// Bounds on two factors bound their product.
pub proof fn lemma_abs_mul(a: int, b: int, aa: int, bb: int)
    by (nonlinear_arith)
    requires
        -aa <= a <= aa,
        -bb <= b <= bb,
        0 <= aa,
        0 <= bb,
    ensures
        -(aa * bb) <= a * b <= aa * bb,
{
}

/// Bound on a fixed-point product from a bound on the integer product.
pub proof fn lemma_fxmul_le(a: int, b: int, m: int)
    requires
        -m <= a * b <= m,
        0 <= m,
    ensures
        -(m / (SCALE as int)) <= fxmul(a, b) <= m / (SCALE as int),
{
    lemma_tdiv_le(a * b, SCALE as int, m);
}

/// SCALE * fxmul(a, b) differs from a * b by less than SCALE, never past zero.
pub proof fn lemma_fxmul_bracket(a: int, b: int)
    ensures
        a * b >= 0 ==> 0 <= fxmul(a, b) && fxmul(a, b) * SCALE <= a * b && a * b < fxmul(a, b)
            * SCALE + SCALE,
        a * b < 0 ==> fxmul(a, b) <= 0 && a * b <= fxmul(a, b) * SCALE && fxmul(a, b) * SCALE
            - SCALE < a * b,
{
    lemma_tdiv_bracket(a * b, SCALE as int);
}

/// Negating one factor negates the fixed-point product exactly.
pub proof fn lemma_fxmul_neg_left(a: int, b: int)
    ensures
        fxmul(-a, b) == -fxmul(a, b),
{
    assert((-a) * b == -(a * b)) by (nonlinear_arith);
}

/// A fixed-point square is never negative.
pub proof fn lemma_fxmul_square_nonneg(a: int)
    ensures
        fxmul(a, a) >= 0,
{
    assert(a * a >= 0) by (nonlinear_arith);
    lemma_div_pos_is_pos(a * a, SCALE as int);
}

/// Truncating division recovers an exact multiple.
pub proof fn lemma_tdiv_multiple(k: int, d: int)
    requires
        d > 0,
    ensures
        tdiv(k * d, d) == k,
{
    if k >= 0 {
        lemma_div_by_multiple(k, d);
        assert(k * d >= 0) by (nonlinear_arith)
            requires
                k >= 0,
                d > 0,
        ;
    } else {
        lemma_div_by_multiple(-k, d);
        assert(k * d < 0 && -(k * d) == (-k) * d) by (nonlinear_arith)
            requires
                k < 0,
                d > 0,
        ;
    }
}

/// r is the integer square root of n, rounded down.
pub open spec fn is_isqrt(n: int, r: int) -> bool {
    0 <= r && r * r <= n && n < (r + 1) * (r + 1)
}

/// The integer square root, rounded down; meaningful for n >= 0.
pub open spec fn sqrt_floor(n: int) -> int {
    choose|r: int| is_isqrt(n, r)
}

proof fn lemma_isqrt_unique(n: int, r1: int, r2: int)
    by (nonlinear_arith)
    requires
        0 <= r1,
        r1 * r1 <= n,
        n < (r1 + 1) * (r1 + 1),
        0 <= r2,
        r2 * r2 <= n,
        n < (r2 + 1) * (r2 + 1),
    ensures
        r1 == r2,
{
}

/// For n >= 0 the rounded-down square root exists, so `sqrt_floor(n)`
/// satisfies its characterization.
pub proof fn lemma_sqrt_floor_exists(n: int)
    requires
        n >= 0,
    ensures
        is_isqrt(n, sqrt_floor(n)),
    decreases n,
{
    if n == 0 {
        assert(is_isqrt(0, 0));
    } else {
        lemma_sqrt_floor_exists(n - 1);
        let r = sqrt_floor(n - 1);
        if (r + 1) * (r + 1) <= n {
            assert(n - 1 < (r + 1) * (r + 1));
            assert(n == (r + 1) * (r + 1));
            assert((r + 1 + 1) * (r + 1 + 1) > n) by (nonlinear_arith)
                requires
                    0 <= r,
                    n == (r + 1) * (r + 1),
            ;
            assert(is_isqrt(n, r + 1));
        } else {
            assert(is_isqrt(n, r));
        }
    }
    assert(exists|r: int| is_isqrt(n, r));
}

/// Characterizing `sqrt_floor` pins it down.
pub proof fn lemma_sqrt_floor_is(n: int, r: int)
    requires
        is_isqrt(n, r),
    ensures
        sqrt_floor(n) == r,
{
    lemma_sqrt_floor_exists(n);
    lemma_isqrt_unique(n, r, sqrt_floor(n));
}

/// The fixed-point power: b multiplied into 1.0 e times, each step rounded.
/// By convention anything to the zeroth power is 1.0, including 0.
pub open spec fn fxpow(b: int, e: nat) -> int
    decreases e,
{
    if e == 0 {
        SCALE as int
    } else {
        fxmul(b, fxpow(b, (e - 1) as nat))
    }
}

/// Fixed-point multiplication, rounding toward zero.
pub fn fx_mul(a: i64, b: i64) -> (r: i64)
    requires
        -0x1000_0000_0000_0000_0000 <= (a as int) * (b as int) <= 0x1000_0000_0000_0000_0000,
    ensures
        r == fxmul(a as int, b as int),
{
    let prod: i128 = (a as i128) * (b as i128);
    let neg: bool = prod < 0;
    let mag: u128 = if neg {
        (-prod) as u128
    } else {
        prod as u128
    };
    let q: u128 = mag / 65536;
    proof {
        lemma_div_is_ordered(mag as int, 0x1000_0000_0000_0000_0000, 65536);
        lemma_div_pos_is_pos(mag as int, 65536);
    }
    if neg {
        -(q as i64)
    } else {
        q as i64
    }
}

/// Fixed-point division by a positive divisor, rounding toward zero.
pub fn fx_div(a: i64, b: i64) -> (r: i64)
    requires
        b > 0,
        -0x4000_0000_0000 <= a <= 0x4000_0000_0000,
    ensures
        r == fxdiv(a as int, b as int),
{
    let neg: bool = a < 0;
    let am: u128 = if neg {
        (-(a as i128)) as u128
    } else {
        a as u128
    };
    let num: u128 = am * 65536;
    let q: u128 = num / (b as u128);
    proof {
        lemma_div_is_ordered(num as int, 0x4000_0000_0000_0000, b as int);
        lemma_div_is_ordered(0, num as int, b as int);
        lemma_div_pos_is_pos(num as int, b as int);
        assert((am as int) * 65536 == -((a as int) * (SCALE as int)) || (am as int) * 65536 == (
        a as int) * (SCALE as int)) by (nonlinear_arith)
            requires
                am == if a < 0 {
                    -(a as int)
                } else {
                    a as int
                },
        ;
    }
    if neg {
        -(q as i64)
    } else {
        q as i64
    }
}

/// Integer square root, rounded down, by binary search.
pub fn fx_sqrt(n: u128) -> (r: u64)
    requires
        (n as int) < 0x4000_0000_0000_0000_0000_0000_0000_0000,
    ensures
        is_isqrt(n as int, r as int),
        r == sqrt_floor(n as int),
{
    let mut lo: u128 = 0;
    let mut hi: u128 = 0x8000_0000_0000_0000;
    proof {
        assert(0x8000_0000_0000_0000int * 0x8000_0000_0000_0000int
            == 0x4000_0000_0000_0000_0000_0000_0000_0000int) by (nonlinear_arith);
    }
    while lo + 1 < hi
        invariant
            0 <= lo < hi <= 0x8000_0000_0000_0000,
            (lo as int) * (lo as int) <= n as int,
            (hi as int) * (hi as int) > n as int,
        decreases hi - lo,
    {
        let mid: u128 = lo + (hi - lo) / 2;
        proof {
            assert(lo < mid < hi);
            assert((mid as int) * (mid as int) <= 0x4000_0000_0000_0000_0000_0000_0000_0000int)
                by (nonlinear_arith)
                requires
                    0 <= mid <= 0x8000_0000_0000_0000,
            ;
        }
        let sq: u128 = mid * mid;
        if sq <= n {
            lo = mid;
        } else {
            hi = mid;
        }
    }
    proof {
        assert(hi == lo + 1);
        assert(is_isqrt(n as int, lo as int));
        lemma_sqrt_floor_is(n as int, lo as int);
    }
    lo as u64
}

/// The fixed-point power with a natural exponent, by repeated multiplication.
/// The base must lie in [-1.0, 1.0], so the result does too; a zero exponent
/// gives 1.0, pinning 0 to the zeroth power to 1.
pub fn fx_pow(b: i64, e: u32) -> (r: i64)
    requires
        -SCALE <= b <= SCALE,
    ensures
        r == fxpow(b as int, e as nat),
        -SCALE <= r <= SCALE,
{
    let mut acc: i64 = SCALE;
    let mut i: u32 = 0;
    while i < e
        invariant
            0 <= i <= e,
            -SCALE <= b <= SCALE,
            -SCALE <= acc <= SCALE,
            acc == fxpow(b as int, i as nat),
        decreases e - i,
    {
        proof {
            lemma_abs_mul(b as int, acc as int, SCALE as int, SCALE as int);
            lemma_fxmul_le(b as int, acc as int, (SCALE as int) * (SCALE as int));
            assert((SCALE as int) * (SCALE as int) / (SCALE as int) == SCALE as int);
        }
        acc = fx_mul(b, acc);
        i = i + 1;
    }
    acc
}

} // verus!
