//! Three-component vectors over fixed-point scalars.
//!
//! Each operation returns a new value; the spec functions `sdot`, `sscale`,
//! `svadd`, `svsub`, `sneg`, `smag`, `snormalized` and `sreflect` are the
//! mathematical model, and every executable method returns exactly its model
//! value. Normalizing a vector whose computed magnitude is zero — which in
//! fixed point happens exactly when every component is under 1/256 of a unit,
//! so the squared length rounds away — yields the zero vector: a sentinel for
//! the input whose direction the arithmetic cannot recover. Every other
//! vector is divided by its magnitude, and because a nonzero computed
//! magnitude is at least 256 steps, every component a normalization returns
//! fits in [-3.0, 3.0], which bounds all the arithmetic built on ray
//! directions and normals.

use crate::fx::{
    fx_div, fx_mul, fx_sqrt, fxdiv, fxmul, is_isqrt, lemma_abs_mul, lemma_fxmul_bracket,
    lemma_fxmul_le, lemma_fxmul_neg_left, lemma_fxmul_square_nonneg, lemma_sqrt_floor_exists,
    lemma_tdiv_le, sqrt_floor, HALF_SCALE, SCALE,
};
use vstd::arithmetic::div_mod::lemma_div_by_multiple;
use vstd::prelude::*;

verus! {

/// Largest component magnitude accepted by `dot`, `mag` and `normalized`:
/// well within it, no product of two components overflows.
pub const COMP_MAX: i64 = 0x40_0000_0000;

/// Largest component magnitude a normalization can return: 3.0.
pub const UNIT_MAX: i64 = 196608;

#[derive(Debug, Clone, Copy, PartialEq, Eq, Structural)]
pub struct Vec3 {
    pub x: i64,
    pub y: i64,
    pub z: i64,
}

/// The dot product: the sum of the three componentwise fixed-point products.
pub open spec fn sdot(a: Vec3, b: Vec3) -> int {
    fxmul(a.x as int, b.x as int) + fxmul(a.y as int, b.y as int) + fxmul(a.z as int, b.z as int)
}

/// Componentwise fixed-point scaling.
pub open spec fn sscale(v: Vec3, s: int) -> Vec3 {
    Vec3 {
        x: fxmul(v.x as int, s) as i64,
        y: fxmul(v.y as int, s) as i64,
        z: fxmul(v.z as int, s) as i64,
    }
}

pub open spec fn svadd(a: Vec3, b: Vec3) -> Vec3 {
    Vec3 { x: (a.x + b.x) as i64, y: (a.y + b.y) as i64, z: (a.z + b.z) as i64 }
}

pub open spec fn svsub(a: Vec3, b: Vec3) -> Vec3 {
    Vec3 { x: (a.x - b.x) as i64, y: (a.y - b.y) as i64, z: (a.z - b.z) as i64 }
}

pub open spec fn sneg(v: Vec3) -> Vec3 {
    Vec3 { x: -v.x as i64, y: -v.y as i64, z: -v.z as i64 }
}

/// The magnitude: the rounded-down square root of the squared length.
pub open spec fn smag(v: Vec3) -> int {
    sqrt_floor(sdot(v, v) * (SCALE as int))
}

/// Normalization: each component divided by the magnitude; the zero vector
/// only when the computed magnitude is zero (the squared length rounds
/// away), where no quotient exists.
pub open spec fn snormalized(v: Vec3) -> Vec3 {
    let m = smag(v);
    if m <= 0 {
        Vec3 { x: 0, y: 0, z: 0 }
    } else {
        Vec3 {
            x: fxdiv(v.x as int, m) as i64,
            y: fxdiv(v.y as int, m) as i64,
            z: fxdiv(v.z as int, m) as i64,
        }
    }
}

/// The reflection of v about n: n scaled by twice their dot product, minus v.
pub open spec fn sreflect(v: Vec3, n: Vec3) -> Vec3 {
    svsub(sscale(sscale(n, 2 * (SCALE as int)), sdot(v, n)), v)
}

/// All three components lie within ±m.
pub open spec fn in_range(v: Vec3, m: int) -> bool {
    -m <= v.x <= m && -m <= v.y <= m && -m <= v.z <= m
}

/// A componentwise bound gives a bound on the dot product.
pub proof fn lemma_sdot_bound(a: Vec3, b: Vec3, m: int)
    requires
        0 <= m,
        in_range(a, m),
        in_range(b, m),
    ensures
        -3 * ((m * m) / (SCALE as int)) <= sdot(a, b) <= 3 * ((m * m) / (SCALE as int)),
{
    lemma_sdot_bound2(a, b, m, m);
}

/// Separate componentwise bounds on the factors bound the dot product.
pub proof fn lemma_sdot_bound2(a: Vec3, b: Vec3, ma: int, mb: int)
    requires
        0 <= ma,
        0 <= mb,
        in_range(a, ma),
        in_range(b, mb),
    ensures
        -3 * ((ma * mb) / (SCALE as int)) <= sdot(a, b) <= 3 * ((ma * mb) / (SCALE as int)),
{
    lemma_abs_mul(a.x as int, b.x as int, ma, mb);
    lemma_abs_mul(a.y as int, b.y as int, ma, mb);
    lemma_abs_mul(a.z as int, b.z as int, ma, mb);
    lemma_abs_mul(ma, mb, ma, mb);
    lemma_fxmul_le(a.x as int, b.x as int, ma * mb);
    lemma_fxmul_le(a.y as int, b.y as int, ma * mb);
    lemma_fxmul_le(a.z as int, b.z as int, ma * mb);
}

/// Componentwise bounds on a vector and a scalar bound the scaled vector and
/// the products the scaling computes.
pub proof fn lemma_sscale_bound(v: Vec3, s: int, mv: int, ms: int)
    requires
        0 <= mv,
        0 <= ms,
        in_range(v, mv),
        -ms <= s <= ms,
    ensures
        in_range(sscale(v, s), (mv * ms) / (SCALE as int)),
        -(mv * ms) <= v.x * s <= mv * ms,
        -(mv * ms) <= v.y * s <= mv * ms,
        -(mv * ms) <= v.z * s <= mv * ms,
{
    lemma_abs_mul(v.x as int, s, mv, ms);
    lemma_abs_mul(v.y as int, s, mv, ms);
    lemma_abs_mul(v.z as int, s, mv, ms);
    lemma_abs_mul(mv, ms, mv, ms);
    lemma_fxmul_le(v.x as int, s, mv * ms);
    lemma_fxmul_le(v.y as int, s, mv * ms);
    lemma_fxmul_le(v.z as int, s, mv * ms);
    crate::fx::lemma_tdiv_le(0, SCALE as int, mv * ms);
}

/// A vector's dot product with itself is never negative.
pub proof fn lemma_sdot_self_nonneg(v: Vec3)
    ensures
        sdot(v, v) >= 0,
{
    lemma_fxmul_square_nonneg(v.x as int);
    lemma_fxmul_square_nonneg(v.y as int);
    lemma_fxmul_square_nonneg(v.z as int);
}

/// Negating the left argument negates the dot product exactly.
pub proof fn lemma_sdot_neg_left(a: Vec3, b: Vec3)
    requires
        in_range(a, 0x2000_0000_0000_0000),
    ensures
        sdot(sneg(a), b) == -sdot(a, b),
{
    lemma_fxmul_neg_left(a.x as int, b.x as int);
    lemma_fxmul_neg_left(a.y as int, b.y as int);
    lemma_fxmul_neg_left(a.z as int, b.z as int);
}

/// A componentwise bound gives a bound on the magnitude.
pub proof fn lemma_smag_bound(v: Vec3, m: int)
    requires
        0 <= m,
        in_range(v, m),
    ensures
        0 <= smag(v) <= 2 * m,
{
    lemma_sdot_self_nonneg(v);
    lemma_sdot_bound(v, v, m);
    let q = sdot(v, v);
    assert(((m * m) / (SCALE as int)) * (SCALE as int) <= m * m) by {
        crate::fx::lemma_tdiv_bracket(m * m, SCALE as int);
        lemma_abs_mul(m, m, m, m);
    }
    assert(q * (SCALE as int) <= 3 * (m * m)) by (nonlinear_arith)
        requires
            q <= 3 * ((m * m) / (SCALE as int)),
            ((m * m) / (SCALE as int)) * (SCALE as int) <= m * m,
    ;
    lemma_sqrt_floor_exists(q * (SCALE as int));
    let s = smag(v);
    assert(s <= 2 * m) by (nonlinear_arith)
        requires
            0 <= s,
            s * s <= 3 * (m * m),
            0 <= m,
    ;
}

impl Vec3 {
    pub fn new(x: i64, y: i64, z: i64) -> (r: Self)
        ensures
            r == (Vec3 { x, y, z }),
    {
        Vec3 { x, y, z }
    }

    pub fn origin() -> (r: Self)
        ensures
            r == (Vec3 { x: 0i64, y: 0i64, z: 0i64 }),
    {
        Vec3::new(0, 0, 0)
    }

    /// The dot product of two vectors.
    pub fn dot(&self, o: &Vec3) -> (r: i64)
        requires
            in_range(*self, COMP_MAX as int),
            in_range(*o, COMP_MAX as int),
        ensures
            r == sdot(*self, *o),
    {
        proof {
            lemma_abs_mul(self.x as int, o.x as int, COMP_MAX as int, COMP_MAX as int);
            lemma_abs_mul(self.y as int, o.y as int, COMP_MAX as int, COMP_MAX as int);
            lemma_abs_mul(self.z as int, o.z as int, COMP_MAX as int, COMP_MAX as int);
            lemma_fxmul_le(self.x as int, o.x as int, 0x1000_0000_0000_0000_0000);
            lemma_fxmul_le(self.y as int, o.y as int, 0x1000_0000_0000_0000_0000);
            lemma_fxmul_le(self.z as int, o.z as int, 0x1000_0000_0000_0000_0000);
        }
        fx_mul(self.x, o.x) + fx_mul(self.y, o.y) + fx_mul(self.z, o.z)
    }

    /// The vector scaled by a fixed-point factor.
    pub fn scale(&self, s: i64) -> (r: Vec3)
        requires
            -0x1000_0000_0000_0000_0000 <= (self.x as int) * (s as int) <= 0x1000_0000_0000_0000_0000,
            -0x1000_0000_0000_0000_0000 <= (self.y as int) * (s as int) <= 0x1000_0000_0000_0000_0000,
            -0x1000_0000_0000_0000_0000 <= (self.z as int) * (s as int) <= 0x1000_0000_0000_0000_0000,
        ensures
            r == sscale(*self, s as int),
    {
        proof {
            lemma_fxmul_le(self.x as int, s as int, 0x1000_0000_0000_0000_0000);
            lemma_fxmul_le(self.y as int, s as int, 0x1000_0000_0000_0000_0000);
            lemma_fxmul_le(self.z as int, s as int, 0x1000_0000_0000_0000_0000);
        }
        Vec3 { x: fx_mul(self.x, s), y: fx_mul(self.y, s), z: fx_mul(self.z, s) }
    }

    pub fn add(&self, o: &Vec3) -> (r: Vec3)
        requires
            in_range(*self, 0x2000_0000_0000_0000),
            in_range(*o, 0x2000_0000_0000_0000),
        ensures
            r == svadd(*self, *o),
    {
        Vec3 { x: self.x + o.x, y: self.y + o.y, z: self.z + o.z }
    }

    pub fn sub(&self, o: &Vec3) -> (r: Vec3)
        requires
            in_range(*self, 0x2000_0000_0000_0000),
            in_range(*o, 0x2000_0000_0000_0000),
        ensures
            r == svsub(*self, *o),
    {
        Vec3 { x: self.x - o.x, y: self.y - o.y, z: self.z - o.z }
    }

    pub fn negate(&self) -> (r: Vec3)
        requires
            in_range(*self, 0x2000_0000_0000_0000),
        ensures
            r == sneg(*self),
    {
        Vec3 { x: -self.x, y: -self.y, z: -self.z }
    }

    /// The magnitude (length) of the vector.
    pub fn mag(&self) -> (r: i64)
        requires
            in_range(*self, COMP_MAX as int),
        ensures
            r == smag(*self),
            0 <= r,
            is_isqrt(sdot(*self, *self) * (SCALE as int), r as int),
    {
        let q: i64 = self.dot(self);
        proof {
            lemma_sdot_self_nonneg(*self);
            lemma_sdot_bound(*self, *self, COMP_MAX as int);
        }
        let qs: u128 = (q as u128) * 65536;
        let r: u64 = fx_sqrt(qs);
        proof {
            assert((r as int) * (r as int) <= qs as int);
            assert(r < 0x8000_0000_0000) by (nonlinear_arith)
                requires
                    (r as int) * (r as int) <= qs as int,
                    qs <= 0x3000_0000_0000_0000_0000,
            ;
        }
        r as i64
    }

    /// The unit vector with this vector's direction; the zero vector only
    /// when the computed magnitude is zero.
    pub fn normalized(&self) -> (r: Self)
        requires
            in_range(*self, COMP_MAX as int),
        ensures
            r == snormalized(*self),
            in_range(r, UNIT_MAX as int),
    {
        let m: i64 = self.mag();
        if m <= 0 {
            Vec3::origin()
        } else {
            proof {
                lemma_mag_floor(*self, m as int);
                lemma_comp_near_mag(*self, m as int);
                lemma_norm_div_bound(self.x as int, m as int);
                lemma_norm_div_bound(self.y as int, m as int);
                lemma_norm_div_bound(self.z as int, m as int);
            }
            Vec3 { x: fx_div(self.x, m), y: fx_div(self.y, m), z: fx_div(self.z, m) }
        }
    }

    /// The reflection of this vector about the vector n. Accepted for any
    /// arguments within the world scale; when both lie within ±3.0, as ray
    /// directions and surface normals do, the result lies within ±256.0.
    pub fn reflect_on(&self, n: &Vec3) -> (r: Self)
        requires
            in_range(*self, 0x2000_0000),
            in_range(*n, 0x2000_0000),
        ensures
            r == sreflect(*self, *n),
            in_range(*self, UNIT_MAX as int) && in_range(*n, UNIT_MAX as int) ==> in_range(
                r,
                0x100_0000,
            ),
    {
        let d: i64 = self.dot(n);
        proof {
            lemma_sdot_bound(*self, *n, 0x2000_0000);
            lemma_sscale_bound(*n, 131072, 0x2000_0000, 131072);
        }
        let n2: Vec3 = n.scale(2 * SCALE);
        proof {
            lemma_sscale_bound(n2, d as int, 0x4000_0000, 0xC00_0000_0000);
        }
        let nd: Vec3 = n2.scale(d);
        let r: Vec3 = nd.sub(self);
        proof {
            if in_range(*self, UNIT_MAX as int) && in_range(*n, UNIT_MAX as int) {
                lemma_sdot_bound(*self, *n, UNIT_MAX as int);
                lemma_sscale_bound(*n, 131072, UNIT_MAX as int, 131072);
                lemma_sscale_bound(n2, d as int, 0x6_0000, 0x1B_0000);
            }
        }
        r
    }
}

/// When the magnitude is at least one half, no component exceeds twice it.
pub proof fn lemma_comp_le_twice_mag(v: Vec3, m: int)
    requires
        in_range(v, COMP_MAX as int),
        m == smag(v),
        m >= HALF_SCALE,
    ensures
        -2 * m <= v.x <= 2 * m,
        -2 * m <= v.y <= 2 * m,
        -2 * m <= v.z <= 2 * m,
{
    lemma_sdot_self_nonneg(v);
    let q = sdot(v, v);
    lemma_sqrt_floor_exists(q * (SCALE as int));
    lemma_fxmul_square_nonneg(v.x as int);
    lemma_fxmul_square_nonneg(v.y as int);
    lemma_fxmul_square_nonneg(v.z as int);
    lemma_one_comp(v.x as int, q, m);
    lemma_one_comp(v.y as int, q, m);
    lemma_one_comp(v.z as int, q, m);
}

/// A single component of a vector of magnitude m is within ±2m.
proof fn lemma_one_comp(c: int, q: int, m: int)
    requires
        fxmul(c, c) <= q,
        (m + 1) * (m + 1) > q * (SCALE as int),
        m >= HALF_SCALE,
    ensures
        -2 * m <= c <= 2 * m,
{
    lemma_fxmul_bracket(c, c);
    lemma_fxmul_square_nonneg(c);
    assert(fxmul(c, c) * (SCALE as int) <= q * (SCALE as int)) by (nonlinear_arith)
        requires
            fxmul(c, c) <= q,
    ;
    assert(-2 * m <= c <= 2 * m) by (nonlinear_arith)
        requires
            (m + 1) * (m + 1) + (SCALE as int) > c * c,
            m >= HALF_SCALE as int,
    ;
}

/// A nonzero computed magnitude is at least 256: the squared length is a
/// whole number of steps, so once it is nonzero its scaled value is at least
/// one step squared.
pub proof fn lemma_mag_floor(v: Vec3, m: int)
    requires
        in_range(v, COMP_MAX as int),
        m == smag(v),
        m >= 1,
    ensures
        m >= 256,
{
    lemma_sdot_self_nonneg(v);
    let q = sdot(v, v);
    lemma_sqrt_floor_exists(q * (SCALE as int));
    if q == 0 {
        assert(is_isqrt(0, m));
        assert(m == 0) by (nonlinear_arith)
            requires
                0 <= m,
                m * m <= 0,
        ;
    }
    assert(q * (SCALE as int) >= SCALE as int);
    assert(m >= 256) by (nonlinear_arith)
        requires
            (m + 1) * (m + 1) > 65536,
            m >= 1,
    ;
}

/// No component exceeds the magnitude by more than 444 (the worst the three
/// squared-component roundings can hide is under 3 steps, whose square root
/// is under 444).
pub proof fn lemma_comp_near_mag(v: Vec3, m: int)
    requires
        in_range(v, COMP_MAX as int),
        m == smag(v),
    ensures
        -(m + 444) <= v.x <= m + 444,
        -(m + 444) <= v.y <= m + 444,
        -(m + 444) <= v.z <= m + 444,
{
    lemma_sdot_self_nonneg(v);
    let q = sdot(v, v);
    lemma_sqrt_floor_exists(q * (SCALE as int));
    lemma_fxmul_square_nonneg(v.x as int);
    lemma_fxmul_square_nonneg(v.y as int);
    lemma_fxmul_square_nonneg(v.z as int);
    lemma_one_comp_near(v.x as int, q, m);
    lemma_one_comp_near(v.y as int, q, m);
    lemma_one_comp_near(v.z as int, q, m);
}

/// A single component of a vector of magnitude m is within m + 444.
proof fn lemma_one_comp_near(c: int, q: int, m: int)
    requires
        fxmul(c, c) <= q,
        (m + 1) * (m + 1) > q * (SCALE as int),
        m >= 0,
    ensures
        -(m + 444) <= c <= m + 444,
{
    lemma_fxmul_bracket(c, c);
    lemma_fxmul_square_nonneg(c);
    assert(fxmul(c, c) * (SCALE as int) <= q * (SCALE as int)) by (nonlinear_arith)
        requires
            fxmul(c, c) <= q,
    ;
    assert(-(m + 444) <= c <= m + 444) by (nonlinear_arith)
        requires
            (m + 1) * (m + 1) + (SCALE as int) > c * c,
            m >= 0,
    ;
}

/// Dividing a component within m + 444 by a magnitude of at least 256 gives
/// at most 3.0.
pub proof fn lemma_norm_div_bound(c: int, m: int)
    requires
        m >= 256,
        -(m + 444) <= c <= m + 444,
    ensures
        -(UNIT_MAX as int) <= fxdiv(c, m) <= UNIT_MAX as int,
{
    lemma_abs_mul(c, SCALE as int, m + 444, SCALE as int);
    assert((m + 444) * (SCALE as int) <= (UNIT_MAX as int) * m) by (nonlinear_arith)
        requires
            m >= 256,
    ;
    assert((UNIT_MAX as int) * m >= 0) by (nonlinear_arith)
        requires
            m >= 256,
    ;
    lemma_tdiv_le(c * (SCALE as int), m, (UNIT_MAX as int) * m);
    lemma_div_by_multiple(UNIT_MAX as int, m);
}

/// Dividing a component bounded by twice the magnitude keeps it within the
/// normalization output range.
pub proof fn lemma_norm_comp_bound(c: int, m: int)
    requires
        m >= 1,
        -2 * m <= c <= 2 * m,
    ensures
        -(UNIT_MAX as int) <= fxdiv(c, m) <= UNIT_MAX as int,
{
    lemma_abs_mul(c, SCALE as int, 2 * m, SCALE as int);
    assert((2 * m) * (SCALE as int) == (2 * (SCALE as int)) * m) by (nonlinear_arith);
    assert((2 * (SCALE as int)) * m >= 0) by (nonlinear_arith)
        requires
            m >= 1,
    ;
    lemma_tdiv_le(c * (SCALE as int), m, (2 * (SCALE as int)) * m);
    lemma_div_by_multiple(2 * (SCALE as int), m);
}

} // verus!
