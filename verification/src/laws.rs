//! Laws the tracer obeys, stated over the model spec functions and proved
//! for every input their hypotheses admit.

use crate::fx::{
    fxmul, lemma_abs_mul, lemma_fxmul_le, lemma_fxmul_square_nonneg, lemma_sqrt_floor_exists,
    lemma_tdiv_bracket, sqrt_floor, tdiv, SCALE,
};
use crate::scene::{spec_intersect, sphere_wf, Material, Ray, Scene, Sphere};
use crate::trace::{spec_best, spec_light_sums, spec_scene_hit, EPS_BIAS};
use crate::vec3::{
    in_range, lemma_sdot_bound2, lemma_sdot_neg_left, sdot, smag, sneg, snormalized, sreflect,
    sscale, svadd, svsub, Vec3, UNIT_MAX,
};
use vstd::prelude::*;

verus! {

/// A ray whose origin lies outside a sphere and whose direction does not
/// point toward it (the direction's projection of the center offset is not
/// positive) reports no intersection. "Outside" is the computed test: the
/// squared center offset exceeds the squared radius.
pub proof fn lemma_ray_away_misses(s: Sphere, ray: Ray)
    requires
        ({
            let l = svsub(s.center, ray.origin);
            let dirn = snormalized(ray.dir);
            &&& sdot(l, dirn) <= 0
            &&& sdot(l, l) > fxmul(s.radius as int, s.radius as int)
        }),
    ensures
        spec_intersect(s, ray) is None,
{
    let l = svsub(s.center, ray.origin);
    let dirn = snormalized(ray.dir);
    let pld = sdot(l, dirn);
    let ll = sdot(l, l);
    let d2 = ll - fxmul(pld, pld);
    let r2 = fxmul(s.radius as int, s.radius as int);
    if d2 <= r2 {
        let x = (r2 - d2) * (SCALE as int);
        lemma_sqrt_floor_exists(x);
        let td = sqrt_floor(x);
        assert(pld * pld >= 0) by (nonlinear_arith);
        lemma_tdiv_bracket(pld * pld, SCALE as int);
        assert(x <= (r2 - ll) * (SCALE as int) + pld * pld);
        assert((r2 - ll) * (SCALE as int) <= -(SCALE as int));
        assert(td * td <= x);
        assert(td < -pld) by (nonlinear_arith)
            requires
                0 <= td,
                td * td < pld * pld,
                pld <= 0,
        ;
    }
}

/// A ray whose origin lies strictly inside a sphere (squared center offset
/// at least 2.0 under the squared radius) reports an intersection, at the
/// far root: the near root is not positive, the far one is. The projection
/// bound only keeps the arithmetic within the world scale.
pub proof fn lemma_ray_inside_exits_far(s: Sphere, ray: Ray)
    requires
        sphere_wf(s),
        ({
            let l = svsub(s.center, ray.origin);
            let dirn = snormalized(ray.dir);
            &&& sdot(l, l) + 2 * (SCALE as int) <= fxmul(s.radius as int, s.radius as int)
            &&& -0x2000_0000 <= sdot(l, dirn) <= 0x2000_0000
        }),
    ensures
        ({
            let l = svsub(s.center, ray.origin);
            let dirn = snormalized(ray.dir);
            let pld = sdot(l, dirn);
            let ll = sdot(l, l);
            let d2 = ll - fxmul(pld, pld);
            let r2 = fxmul(s.radius as int, s.radius as int);
            let td = sqrt_floor((r2 - d2) * (SCALE as int));
            &&& spec_intersect(s, ray) == Some((pld + td) as i64)
            &&& pld + td > 0
            &&& pld - td <= 0
        }),
{
    let l = svsub(s.center, ray.origin);
    let dirn = snormalized(ray.dir);
    let pld = sdot(l, dirn);
    let ll = sdot(l, l);
    let d2 = ll - fxmul(pld, pld);
    let r2 = fxmul(s.radius as int, s.radius as int);
    crate::vec3::lemma_sdot_self_nonneg(l);
    lemma_fxmul_square_nonneg(pld);
    assert(d2 <= ll);
    assert(d2 <= r2);
    let x = (r2 - d2) * (SCALE as int);
    lemma_sqrt_floor_exists(x);
    let td = sqrt_floor(x);
    assert(pld * pld >= 0) by (nonlinear_arith);
    lemma_tdiv_bracket(pld * pld, SCALE as int);
    assert(x >= (r2 - ll) * (SCALE as int) + pld * pld - (SCALE as int));
    assert((r2 - ll) * (SCALE as int) >= 2 * (SCALE as int) * (SCALE as int));
    assert(x > pld * pld + 0x1_0000_0000);
    assert((td + 1) * (td + 1) > x);
    let pabs = if pld >= 0 { pld } else { -pld };
    assert(pabs * pabs == pld * pld) by (nonlinear_arith)
        requires
            pabs == pld || pabs == -pld,
    ;
    assert(td >= pabs + 1) by (nonlinear_arith)
        requires
            0 <= td,
            (td + 1) * (td + 1) > pabs * pabs + 0x1_0000_0000,
            0 <= pabs <= 0x2000_0000,
    ;
    // The far root is positive and the near root is not, so the reported
    // distance is the far root.
    assert(pld + td > 0);
    assert(pld - td <= 0);
    // The reported distance fits the return type.
    lemma_sphere_r2_bound(s);
    lemma_abs_mul(pld, pld, 0x2000_0000, 0x2000_0000);
    assert(x <= r2 * (SCALE as int) + pld * pld);
    assert(x <= 0x800_0000_0000_0000);
    assert(td * td <= x);
    assert(0 <= td < 0x4000_0000) by (nonlinear_arith)
        requires
            0 <= td,
            td * td <= 0x800_0000_0000_0000,
    ;
}

/// A ray from outside a sphere aimed directly at its center hits at the
/// distance to the center minus the radius, up to two fixed-point steps.
/// "Aimed directly" is the computed test: the squared perpendicular offset
/// term vanishes at rounding granularity (within four steps of zero) and the
/// projection is positive. The scale hypotheses — radius at least 2.0,
/// center at least two steps beyond the radius and between 3.0 and 8192.0
/// away — keep the rounding analysis within one step per quantity.
pub proof fn lemma_head_on_hit_distance(s: Sphere, ray: Ray)
    requires
        sphere_wf(s),
        ({
            let l = svsub(s.center, ray.origin);
            let dirn = snormalized(ray.dir);
            let pld = sdot(l, dirn);
            let ll = sdot(l, l);
            let d2 = ll - fxmul(pld, pld);
            &&& pld > 0
            &&& -4 <= d2 <= 0
            &&& s.radius >= 2 * SCALE
            &&& smag(l) >= s.radius + 2
            &&& 3 * (SCALE as int) <= smag(l) <= 0x2000_0000
        }),
    ensures
        ({
            let l = svsub(s.center, ray.origin);
            let dirn = snormalized(ray.dir);
            let pld = sdot(l, dirn);
            let ll = sdot(l, l);
            let d2 = ll - fxmul(pld, pld);
            let r2 = fxmul(s.radius as int, s.radius as int);
            let td = sqrt_floor((r2 - d2) * (SCALE as int));
            &&& spec_intersect(s, ray) == Some((pld - td) as i64)
            &&& smag(l) - s.radius <= pld - td <= smag(l) - s.radius + 2
        }),
{
    let sc = SCALE as int;
    let l = svsub(s.center, ray.origin);
    let dirn = snormalized(ray.dir);
    let pld = sdot(l, dirn);
    let ll = sdot(l, l);
    let d2 = ll - fxmul(pld, pld);
    let r = s.radius as int;
    let rr = r * r;
    let r2 = fxmul(r, r);
    let m = smag(l);

    // The squared radius, one step under its exact value at most.
    crate::fx::lemma_fxmul_bracket(r, r);
    assert(rr >= 0) by (nonlinear_arith)
        requires
            rr == r * r,
    ;
    assert(rr - sc < r2 * sc <= rr);
    lemma_fxmul_square_nonneg(pld);
    assert(d2 <= r2);

    // The root term is the radius, up to one step down.
    let x = (r2 - d2) * sc;
    assert(x == r2 * sc - d2 * sc) by (nonlinear_arith)
        requires
            x == (r2 - d2) * sc,
    ;
    assert(0 <= -(d2 * sc) <= 4 * sc) by (nonlinear_arith)
        requires
            -4 <= d2 <= 0,
            sc == 65536,
    ;
    assert(rr - sc < x <= rr + 4 * sc);
    lemma_sqrt_floor_exists(x);
    let td = sqrt_floor(x);
    assert(td <= r) by (nonlinear_arith)
        requires
            0 <= td,
            td * td <= rr + 4 * 65536,
            rr == r * r,
            r >= 131072,
    ;
    assert(td >= r - 1) by (nonlinear_arith)
        requires
            0 <= td,
            (td + 1) * (td + 1) > rr - 65536,
            rr == r * r,
            r >= 131072,
    ;

    // The projection is the distance to the center, up to one step up: the
    // vanishing perpendicular term ties its square to the squared distance.
    crate::fx::lemma_tdiv_bracket(pld * pld, sc);
    assert(tdiv(pld * pld, sc) == ll - d2);
    assert((ll - d2) * sc == ll * sc - d2 * sc) by (nonlinear_arith);
    assert(tdiv(pld * pld, sc) * sc == ll * sc - d2 * sc);
    assert(ll * sc <= pld * pld && pld * pld < ll * sc + 5 * sc);
    crate::vec3::lemma_sdot_self_nonneg(l);
    lemma_sqrt_floor_exists(ll * sc);
    assert(m * m <= ll * sc < (m + 1) * (m + 1));
    assert(m <= pld) by (nonlinear_arith)
        requires
            m * m <= pld * pld,
            0 <= m,
            0 < pld,
    ;
    assert(pld <= m + 1) by (nonlinear_arith)
        requires
            pld * pld < (m + 1) * (m + 1) + 5 * 65536,
            m >= 196608,
            0 < pld,
    ;

    // The reported root is the near one, in front of the origin.
    assert(pld - td >= m - r > 0);
    assert(pld - td <= m + 1 - (r - 1));
}

/// The squared radius of a well-formed sphere, in fixed point, is bounded.
proof fn lemma_sphere_r2_bound(s: Sphere)
    requires
        sphere_wf(s),
    ensures
        0 <= fxmul(s.radius as int, s.radius as int) <= 0x400_0000_0000,
{
    lemma_abs_mul(s.radius as int, s.radius as int, 0x2000_0000, 0x2000_0000);
    lemma_fxmul_le(s.radius as int, s.radius as int, 0x2000_0000int * 0x2000_0000int);
    lemma_fxmul_square_nonneg(s.radius as int);
}

/// One normalized component squared: the exact square of the division,
/// with its rounding remainder.
proof fn lemma_norm_square_eq(u: int, m: int, p: int, rho: int, s: int)
    requires
        u * m == p * s - rho,
    ensures
        (u * u) * (m * m) == (p * p) * (s * s) - 2 * ((p * rho) * s) + rho * rho,
{
    let a = p * s;
    assert((u * u) * (m * m) == (u * m) * (u * m)) by (nonlinear_arith);
    assert((a - rho) * (a - rho) == a * a - 2 * (a * rho) + rho * rho) by (nonlinear_arith);
    assert(a * a == (p * p) * (s * s)) by (nonlinear_arith)
        requires
            a == p * s,
    ;
    assert(a * rho == (p * rho) * s) by (nonlinear_arith)
        requires
            a == p * s,
    ;
}

/// A value within a symmetric window stays within the scaled window.
proof fn lemma_scaled_window(t: int, m2: int, s: int)
    by (nonlinear_arith)
    requires
        -2 * m2 <= t <= 2 * m2,
        s > 0,
    ensures
        -(2 * (m2 * s)) <= t * s <= 2 * (m2 * s),
{
}

/// A normalized vector has magnitude 1.0 up to rounding: within 16 steps
/// (about 0.00024), for every vector of magnitude at least one half. The
/// quotient is taken all the way down to the 1/256 floor, but below one half
/// the one-step rounding of the squared length weighs ever more against it
/// and this tolerance no longer holds, so the hypothesis is what the bound
/// needs, not where normalization is defined.
pub proof fn lemma_normalized_magnitude_near_one(v: Vec3)
    requires
        in_range(v, crate::vec3::COMP_MAX as int),
        smag(v) >= crate::fx::HALF_SCALE,
    ensures
        -16 <= smag(snormalized(v)) - (SCALE as int) <= 16,
{
    let s = SCALE as int;
    let vx = v.x as int;
    let vy = v.y as int;
    let vz = v.z as int;
    let m = smag(v);
    let q = sdot(v, v);
    crate::vec3::lemma_sdot_self_nonneg(v);
    lemma_sqrt_floor_exists(q * s);
    crate::vec3::lemma_comp_le_twice_mag(v, m);
    let m2 = m * m;
    assert(m2 >= 32768 * 32768) by (nonlinear_arith)
        requires
            m2 == m * m,
            m >= 32768,
    ;

    // The normalized components, each with its rounding remainder.
    let u = snormalized(v);
    crate::vec3::lemma_norm_comp_bound(vx, m);
    crate::vec3::lemma_norm_comp_bound(vy, m);
    crate::vec3::lemma_norm_comp_bound(vz, m);
    let ux = u.x as int;
    let uy = u.y as int;
    let uz = u.z as int;
    lemma_tdiv_bracket(vx * s, m);
    lemma_tdiv_bracket(vy * s, m);
    lemma_tdiv_bracket(vz * s, m);
    let rhox = vx * s - ux * m;
    let rhoy = vy * s - uy * m;
    let rhoz = vz * s - uz * m;
    assert(-m < rhox < m && -m < rhoy < m && -m < rhoz < m);

    // Squaring each component equation.
    let bigp = vx * vx + vy * vy + vz * vz;
    let bigu = ux * ux + uy * uy + uz * uz;
    lemma_norm_square_eq(ux, m, vx, rhox, s);
    lemma_norm_square_eq(uy, m, vy, rhoy, s);
    lemma_norm_square_eq(uz, m, vz, rhoz, s);
    assert(bigu * m2 == (ux * ux) * m2 + (uy * uy) * m2 + (uz * uz) * m2) by (nonlinear_arith)
        requires
            bigu == ux * ux + uy * uy + uz * uz,
    ;

    // Bounding the cross terms and the squared remainders.
    let ss = s * s;
    let ms = m2 * s;
    lemma_abs_mul(vx, rhox, 2 * m, m);
    lemma_abs_mul(vy, rhoy, 2 * m, m);
    lemma_abs_mul(vz, rhoz, 2 * m, m);
    assert((2 * m) * m == 2 * m2) by (nonlinear_arith)
        requires
            m2 == m * m,
    ;
    lemma_abs_mul(rhox, rhox, m, m);
    lemma_abs_mul(rhoy, rhoy, m, m);
    lemma_abs_mul(rhoz, rhoz, m, m);
    assert(rhox * rhox >= 0 && rhoy * rhoy >= 0 && rhoz * rhoz >= 0) by (nonlinear_arith);
    assert(vx * vx >= 0 && vy * vy >= 0 && vz * vz >= 0) by (nonlinear_arith);
    assert(ux * ux >= 0 && uy * uy >= 0 && uz * uz >= 0) by (nonlinear_arith);
    assert(bigp * ss == (vx * vx) * ss + (vy * vy) * ss + (vz * vz) * ss) by (nonlinear_arith)
        requires
            bigp == vx * vx + vy * vy + vz * vz,
    ;
    lemma_scaled_window(vx * rhox, m2, s);
    lemma_scaled_window(vy * rhoy, m2, s);
    lemma_scaled_window(vz * rhoz, m2, s);
    assert(bigp * ss - 6 * (2 * ms) <= bigu * m2 <= bigp * ss + 6 * (2 * ms) + 3 * m2);

    // The squared length against the magnitude, both ways.
    crate::fx::lemma_fxmul_bracket(vx, vx);
    crate::fx::lemma_fxmul_bracket(vy, vy);
    crate::fx::lemma_fxmul_bracket(vz, vz);
    assert(q * s == fxmul(vx, vx) * s + fxmul(vy, vy) * s + fxmul(vz, vz) * s)
        by (nonlinear_arith)
        requires
            q == fxmul(vx, vx) + fxmul(vy, vy) + fxmul(vz, vz),
    ;
    assert(bigp - 3 * s < q * s <= bigp);
    assert(m2 <= q * s < (m + 1) * (m + 1));

    // The squared length of the normalized vector is 1.0 squared, up to a
    // few steps of rounding.
    assert(bigp * ss >= m2 * ss) by (nonlinear_arith)
        requires
            bigp >= m2,
            ss >= 0,
    ;
    assert(bigu >= ss - 12 * s) by (nonlinear_arith)
        requires
            bigu * m2 >= m2 * ss - 12 * ms,
            ms == m2 * s,
            ss == s * s,
            m2 >= 1,
            s == 65536,
    ;
    assert((m + 1) * (m + 1) == m2 + 2 * m + 1) by (nonlinear_arith)
        requires
            m2 == m * m,
    ;
    assert(bigp < m2 + 2 * m + 1 + 3 * s);
    assert(bigp * ss < (m2 + 2 * m + 1 + 3 * s) * ss) by (nonlinear_arith)
        requires
            bigp < m2 + 2 * m + 1 + 3 * s,
            ss > 0,
    ;
    assert((m2 + 2 * m + 1 + 3 * s) * ss == m2 * ss + (2 * m + 1) * ss + 3 * (s * ss))
        by (nonlinear_arith);
    assert((2 * m + 1) * ss <= 6 * ms) by (nonlinear_arith)
        requires
            m2 == m * m,
            ms == m2 * s,
            ss == s * s,
            m >= 32768,
            s == 65536,
    ;
    assert(3 * (s * ss) <= 12 * ms) by (nonlinear_arith)
        requires
            m2 == m * m,
            ms == m2 * s,
            ss == s * s,
            m >= 32768,
            s == 65536,
    ;
    assert(3 * m2 <= ms) by (nonlinear_arith)
        requires
            ms == m2 * s,
            m2 >= 1,
            s == 65536,
    ;
    assert(bigu * m2 <= m2 * ss + 31 * ms);
    assert(bigu <= ss + 31 * s) by (nonlinear_arith)
        requires
            bigu * m2 <= m2 * ss + 31 * ms,
            ms == m2 * s,
            ss == s * s,
            m2 >= 1,
            s == 65536,
    ;

    // From the squared length to the magnitude of the normalized vector.
    let q2 = sdot(u, u);
    crate::vec3::lemma_sdot_self_nonneg(u);
    crate::fx::lemma_fxmul_bracket(ux, ux);
    crate::fx::lemma_fxmul_bracket(uy, uy);
    crate::fx::lemma_fxmul_bracket(uz, uz);
    assert(q2 * s == fxmul(ux, ux) * s + fxmul(uy, uy) * s + fxmul(uz, uz) * s)
        by (nonlinear_arith)
        requires
            q2 == fxmul(ux, ux) + fxmul(uy, uy) + fxmul(uz, uz),
    ;
    assert(bigu - 3 * s < q2 * s <= bigu);
    lemma_sqrt_floor_exists(q2 * s);
    let mu = smag(u);
    assert(mu <= s + 15) by (nonlinear_arith)
        requires
            0 <= mu,
            mu * mu <= ss + 31 * s,
            ss == s * s,
            s == 65536,
    ;
    assert(mu >= s - 8) by (nonlinear_arith)
        requires
            0 <= mu,
            (mu + 1) * (mu + 1) > ss - 15 * s,
            ss == s * s,
            s == 65536,
    ;
}

/// Every vector of nonzero computed magnitude normalizes to a vector whose
/// magnitude is at least 1.0 less 16 steps — the quotient never collapses a
/// recoverable direction — and at most 2.25: right at the 1/256 magnitude
/// floor the one-step rounding of the squared length can let the result
/// overshoot, and by one half it has tightened to the 16-step law above.
pub proof fn lemma_normalized_magnitude_window(v: Vec3)
    requires
        in_range(v, crate::vec3::COMP_MAX as int),
        smag(v) >= 1,
    ensures
        (SCALE as int) - 16 <= smag(snormalized(v)) <= 147456,
{
    let s = SCALE as int;
    let vx = v.x as int;
    let vy = v.y as int;
    let vz = v.z as int;
    let m = smag(v);
    let q = sdot(v, v);
    crate::vec3::lemma_sdot_self_nonneg(v);
    lemma_sqrt_floor_exists(q * s);
    crate::vec3::lemma_mag_floor(v, m);
    crate::vec3::lemma_comp_near_mag(v, m);
    let m2 = m * m;
    assert(m2 >= 65536) by (nonlinear_arith)
        requires
            m2 == m * m,
            m >= 256,
    ;

    // The normalized components, each with its rounding remainder.
    let u = snormalized(v);
    crate::vec3::lemma_norm_div_bound(vx, m);
    crate::vec3::lemma_norm_div_bound(vy, m);
    crate::vec3::lemma_norm_div_bound(vz, m);
    let ux = u.x as int;
    let uy = u.y as int;
    let uz = u.z as int;
    lemma_tdiv_bracket(vx * s, m);
    lemma_tdiv_bracket(vy * s, m);
    lemma_tdiv_bracket(vz * s, m);
    let rhox = vx * s - ux * m;
    let rhoy = vy * s - uy * m;
    let rhoz = vz * s - uz * m;
    assert(-m < rhox < m && -m < rhoy < m && -m < rhoz < m);

    // Squaring each component equation.
    let bigp = vx * vx + vy * vy + vz * vz;
    let bigu = ux * ux + uy * uy + uz * uz;
    lemma_norm_square_eq(ux, m, vx, rhox, s);
    lemma_norm_square_eq(uy, m, vy, rhoy, s);
    lemma_norm_square_eq(uz, m, vz, rhoz, s);
    assert(bigu * m2 == (ux * ux) * m2 + (uy * uy) * m2 + (uz * uz) * m2) by (nonlinear_arith)
        requires
            bigu == ux * ux + uy * uy + uz * uz,
    ;

    // Bounding the cross terms and the squared remainders.
    let ss = s * s;
    let ms = m2 * s;
    let c1 = (m + 444) * m;
    lemma_abs_mul(vx, rhox, m + 444, m);
    lemma_abs_mul(vy, rhoy, m + 444, m);
    lemma_abs_mul(vz, rhoz, m + 444, m);
    lemma_abs_mul(vx * rhox, s, c1, s);
    lemma_abs_mul(vy * rhoy, s, c1, s);
    lemma_abs_mul(vz * rhoz, s, c1, s);
    lemma_abs_mul(rhox, rhox, m, m);
    lemma_abs_mul(rhoy, rhoy, m, m);
    lemma_abs_mul(rhoz, rhoz, m, m);
    assert(rhox * rhox >= 0 && rhoy * rhoy >= 0 && rhoz * rhoz >= 0) by (nonlinear_arith);
    assert(vx * vx >= 0 && vy * vy >= 0 && vz * vz >= 0) by (nonlinear_arith);
    assert(ux * ux >= 0 && uy * uy >= 0 && uz * uz >= 0) by (nonlinear_arith);
    assert(bigp * ss == (vx * vx) * ss + (vy * vy) * ss + (vz * vz) * ss) by (nonlinear_arith)
        requires
            bigp == vx * vx + vy * vy + vz * vz,
    ;
    assert(bigp * ss - 6 * (c1 * s) <= bigu * m2 <= bigp * ss + 6 * (c1 * s) + 3 * m2);

    // The squared length against the magnitude, both ways.
    crate::fx::lemma_fxmul_bracket(vx, vx);
    crate::fx::lemma_fxmul_bracket(vy, vy);
    crate::fx::lemma_fxmul_bracket(vz, vz);
    assert(q * s == fxmul(vx, vx) * s + fxmul(vy, vy) * s + fxmul(vz, vz) * s)
        by (nonlinear_arith)
        requires
            q == fxmul(vx, vx) + fxmul(vy, vy) + fxmul(vz, vz),
    ;
    assert(bigp - 3 * s < q * s <= bigp);
    assert(m2 <= q * s < (m + 1) * (m + 1));

    // The error terms against the squared magnitude, at the coarsest scale.
    assert(6 * (c1 * s) <= 17 * ms) by (nonlinear_arith)
        requires
            c1 == (m + 444) * m,
            ms == m2 * s,
            m2 == m * m,
            m >= 256,
            s == 65536,
    ;
    assert(bigp * ss >= m2 * ss) by (nonlinear_arith)
        requires
            bigp >= m2,
            ss >= 0,
    ;
    assert(bigu >= ss - 17 * s) by (nonlinear_arith)
        requires
            bigu * m2 >= m2 * ss - 17 * ms,
            ms == m2 * s,
            ss == s * s,
            m2 >= 1,
            s == 65536,
    ;
    assert((m + 1) * (m + 1) == m2 + 2 * m + 1) by (nonlinear_arith)
        requires
            m2 == m * m,
    ;
    assert(bigp < m2 + 2 * m + 1 + 3 * s);
    assert(bigp * ss < (m2 + 2 * m + 1 + 3 * s) * ss) by (nonlinear_arith)
        requires
            bigp < m2 + 2 * m + 1 + 3 * s,
            ss > 0,
    ;
    assert(m2 + 2 * m + 1 + 3 * s <= 5 * m2) by (nonlinear_arith)
        requires
            m2 == m * m,
            m >= 256,
            s == 65536,
    ;
    assert((m2 + 2 * m + 1 + 3 * s) * ss <= 5 * (m2 * ss)) by (nonlinear_arith)
        requires
            m2 + 2 * m + 1 + 3 * s <= 5 * m2,
            ss >= 0,
    ;
    assert(3 * m2 <= ms) by (nonlinear_arith)
        requires
            ms == m2 * s,
            m2 >= 1,
            s == 65536,
    ;
    assert(bigu * m2 <= 5 * (m2 * ss) + 18 * ms);
    assert(5 * (m2 * ss) + 18 * ms == m2 * (5 * ss + 18 * s)) by (nonlinear_arith)
        requires
            ms == m2 * s,
    ;
    assert(bigu <= 5 * ss + 18 * s) by (nonlinear_arith)
        requires
            bigu * m2 <= m2 * (5 * ss + 18 * s),
            m2 >= 1,
    ;

    // From the squared length to the magnitude of the normalized vector.
    let q2 = sdot(u, u);
    crate::vec3::lemma_sdot_self_nonneg(u);
    crate::fx::lemma_fxmul_bracket(ux, ux);
    crate::fx::lemma_fxmul_bracket(uy, uy);
    crate::fx::lemma_fxmul_bracket(uz, uz);
    assert(q2 * s == fxmul(ux, ux) * s + fxmul(uy, uy) * s + fxmul(uz, uz) * s)
        by (nonlinear_arith)
        requires
            q2 == fxmul(ux, ux) + fxmul(uy, uy) + fxmul(uz, uz),
    ;
    assert(bigu - 3 * s < q2 * s <= bigu);
    lemma_sqrt_floor_exists(q2 * s);
    let mu = smag(u);
    assert(mu >= s - 16) by (nonlinear_arith)
        requires
            0 <= mu,
            (mu + 1) * (mu + 1) > ss - 20 * s,
            ss == s * s,
            s == 65536,
    ;
    assert(mu <= 147456) by (nonlinear_arith)
        requires
            0 <= mu,
            mu * mu <= 5 * ss + 18 * s,
            ss == s * s,
            s == 65536,
    ;
}

/// Reflection flips the normal component: the direction the tracer bounces
/// off a surface — the negated reflection of the incoming direction about
/// the surface normal — makes, with that normal, the negation of the
/// incoming direction's dot product, up to fixed-point rounding of at most
/// 520 steps (about 0.008). The normal must be unit length up to rounding
/// (its dot product with itself within 4 steps of 1.0) and the incoming
/// direction within ±4.0 componentwise.
pub proof fn lemma_reflection_flips_normal_component(v: Vec3, n: Vec3)
    requires
        in_range(v, 0x4_0000),
        in_range(n, UNIT_MAX as int),
        -4 <= sdot(n, n) - (SCALE as int) <= 4,
    ensures
        -520 <= sdot(sneg(sreflect(v, n)), n) + sdot(v, n) <= 520,
{
    let s = SCALE as int;
    let vx = v.x as int;
    let vy = v.y as int;
    let vz = v.z as int;
    let nx = n.x as int;
    let ny = n.y as int;
    let nz = n.z as int;
    let d = sdot(v, n);
    let qn = sdot(n, n);
    lemma_sdot_bound2(v, n, 0x4_0000, UNIT_MAX as int);

    // The doubled normal is exact.
    let n2 = sscale(n, 2 * s);
    crate::fx::lemma_tdiv_multiple(2 * nx, s);
    crate::fx::lemma_tdiv_multiple(2 * ny, s);
    crate::fx::lemma_tdiv_multiple(2 * nz, s);
    assert(n2.x as int == 2 * nx && n2.y as int == 2 * ny && n2.z as int == 2 * nz);

    // The scaled normal, with the per-component rounding remainders g.
    let h = sscale(n2, d);
    lemma_abs_mul(n2.x as int, d, 0x6_0000, 0x24_0000);
    lemma_abs_mul(n2.y as int, d, 0x6_0000, 0x24_0000);
    lemma_abs_mul(n2.z as int, d, 0x6_0000, 0x24_0000);
    lemma_fxmul_le(n2.x as int, d, 0x6_0000int * 0x24_0000int);
    lemma_fxmul_le(n2.y as int, d, 0x6_0000int * 0x24_0000int);
    lemma_fxmul_le(n2.z as int, d, 0x6_0000int * 0x24_0000int);
    let hx = h.x as int;
    let hy = h.y as int;
    let hz = h.z as int;
    crate::fx::lemma_fxmul_bracket(n2.x as int, d);
    crate::fx::lemma_fxmul_bracket(n2.y as int, d);
    crate::fx::lemma_fxmul_bracket(n2.z as int, d);
    let gx = (n2.x as int) * d - hx * s;
    let gy = (n2.y as int) * d - hy * s;
    let gz = (n2.z as int) * d - hz * s;
    assert(-s < gx < s && -s < gy < s && -s < gz < s);

    let r = svsub(h, v);
    assert(r == sreflect(v, n));
    let rx = r.x as int;
    let ry = r.y as int;
    let rz = r.z as int;
    assert(rx == hx - vx && ry == hy - vy && rz == hz - vz);

    // Dot products against their exact integer counterparts.
    let bigd = vx * nx + vy * ny + vz * nz;
    crate::fx::lemma_fxmul_bracket(vx, nx);
    crate::fx::lemma_fxmul_bracket(vy, ny);
    crate::fx::lemma_fxmul_bracket(vz, nz);
    assert(bigd - 3 * s < d * s <= bigd + 3 * s);

    let bigq = nx * nx + ny * ny + nz * nz;
    crate::fx::lemma_fxmul_bracket(nx, nx);
    crate::fx::lemma_fxmul_bracket(ny, ny);
    crate::fx::lemma_fxmul_bracket(nz, nz);
    assert(bigq - 3 * s < qn * s <= bigq + 3 * s);
    assert(-7 * s <= bigq - s * s <= 7 * s);

    let dr = sdot(r, n);
    let bigr = rx * nx + ry * ny + rz * nz;
    crate::fx::lemma_fxmul_bracket(rx, nx);
    crate::fx::lemma_fxmul_bracket(ry, ny);
    crate::fx::lemma_fxmul_bracket(rz, nz);
    assert(bigr - 3 * s < dr * s <= bigr + 3 * s);

    // Distribute the reflection through the dot product.
    assert(rx * nx == hx * nx - vx * nx) by (nonlinear_arith)
        requires
            rx == hx - vx,
    ;
    assert(ry * ny == hy * ny - vy * ny) by (nonlinear_arith)
        requires
            ry == hy - vy,
    ;
    assert(rz * nz == hz * nz - vz * nz) by (nonlinear_arith)
        requires
            rz == hz - vz,
    ;
    assert((hx * nx) * s == 2 * (nx * nx) * d - gx * nx) by (nonlinear_arith)
        requires
            gx == (n2.x as int) * d - hx * s,
            n2.x as int == 2 * nx,
    ;
    assert((hy * ny) * s == 2 * (ny * ny) * d - gy * ny) by (nonlinear_arith)
        requires
            gy == (n2.y as int) * d - hy * s,
            n2.y as int == 2 * ny,
    ;
    assert((hz * nz) * s == 2 * (nz * nz) * d - gz * nz) by (nonlinear_arith)
        requires
            gz == (n2.z as int) * d - hz * s,
            n2.z as int == 2 * nz,
    ;
    let g2 = gx * nx + gy * ny + gz * nz;
    assert(2 * (nx * nx) * d + 2 * (ny * ny) * d + 2 * (nz * nz) * d == 2 * bigq * d)
        by (nonlinear_arith)
        requires
            bigq == nx * nx + ny * ny + nz * nz,
    ;
    assert((hx * nx + hy * ny + hz * nz) * s == 2 * bigq * d - g2);
    assert(bigr * s == 2 * bigq * d - g2 - bigd * s);

    // Collect the error terms.
    let e1 = bigd - d * s;
    let f = bigr - dr * s;
    assert(-3 * s <= e1 < 3 * s && -3 * s <= f < 3 * s);
    assert(d * s * s - dr * s * s == 2 * (d * (s * s - bigq)) + g2 + (e1 + f) * s)
        by (nonlinear_arith)
        requires
            bigr * s == 2 * bigq * d - g2 - bigd * s,
            e1 == bigd - d * s,
            f == bigr - dr * s,
    ;

    // Bound each error term.
    lemma_abs_mul(d, s * s - bigq, 0x24_0000, 7int * 65536);
    lemma_abs_mul(gx, nx, 65536, UNIT_MAX as int);
    lemma_abs_mul(gy, ny, 65536, UNIT_MAX as int);
    lemma_abs_mul(gz, nz, 65536, UNIT_MAX as int);
    assert(-2233382993920 <= d * s * s - dr * s * s <= 2233382993920);
    assert((d - dr) * (s * s) == d * s * s - dr * s * s) by (nonlinear_arith);
    assert(-520 <= d - dr <= 520);

    // Negation is exact, so the bounced direction flips the sign.
    lemma_sdot_neg_left(r, n);
    assert(sdot(sneg(r), n) == -dr);
}

/// The nearest-hit resolver really resolves the nearest hit: when it reports
/// nothing, no sphere intersects the ray; when it reports a distance, some
/// sphere intersects the ray at exactly that distance and no sphere
/// intersects it nearer.
pub proof fn lemma_best_is_nearest(ray: Ray, spheres: Seq<Sphere>)
    ensures
        match spec_best(ray, spheres) {
            None => forall|i: int|
                0 <= i < spheres.len() ==> spec_intersect(#[trigger] spheres[i], ray) is None,
            Some(p) => {
                &&& exists|i: int|
                    0 <= i < spheres.len() && #[trigger] spheres[i] == p.1 && spec_intersect(
                        spheres[i],
                        ray,
                    ) == Some(p.0)
                &&& forall|i: int|
                    0 <= i < spheres.len() ==> match spec_intersect(#[trigger] spheres[i], ray) {
                        None => true,
                        Some(t) => p.0 <= t,
                    }
            },
        },
    decreases spheres.len(),
{
    if spheres.len() > 0 {
        let head = spheres.drop_last();
        let last = spheres.last();
        lemma_best_is_nearest(ray, head);
        assert(last == spheres[spheres.len() - 1]);
        match spec_best(ray, spheres) {
            None => {
                assert forall|i: int|
                    0 <= i < spheres.len() implies spec_intersect(
                    #[trigger] spheres[i],
                    ray,
                ) is None by {
                    if i < spheres.len() - 1 {
                        assert(spheres[i] == head[i]);
                        assert(spec_intersect(head[i], ray) is None);
                    }
                }
            },
            Some(p) => {
                // The reported pair is witnessed by a sphere of the sequence.
                match spec_best(ray, head) {
                    None => {
                        assert(spheres[spheres.len() - 1] == p.1 && spec_intersect(
                            spheres[spheres.len() - 1],
                            ray,
                        ) == Some(p.0));
                    },
                    Some(q) => {
                        if spec_intersect(last, ray) matches Some(t) && t < q.0 {
                            assert(spheres[spheres.len() - 1] == p.1 && spec_intersect(
                                spheres[spheres.len() - 1],
                                ray,
                            ) == Some(p.0));
                        } else {
                            let w = choose|i: int|
                                0 <= i < head.len() && #[trigger] head[i] == q.1 && spec_intersect(
                                    head[i],
                                    ray,
                                ) == Some(q.0);
                            assert(spheres[w] == head[w]);
                            assert(spheres[w] == p.1 && spec_intersect(spheres[w], ray) == Some(
                                p.0,
                            ));
                        }
                    },
                }
                // No sphere of the sequence intersects the ray nearer.
                assert forall|i: int|
                    0 <= i < spheres.len() implies (match spec_intersect(
                    #[trigger] spheres[i],
                    ray,
                ) {
                    None => true,
                    Some(t) => p.0 <= t,
                }) by {
                    if i < spheres.len() - 1 {
                        assert(spheres[i] == head[i]);
                        match spec_best(ray, head) {
                            None => {
                                assert(spec_intersect(head[i], ray) is None);
                            },
                            Some(q) => {
                                assert(match spec_intersect(head[i], ray) {
                                    None => true,
                                    Some(t) => q.0 <= t,
                                });
                                assert(p.0 <= q.0);
                            },
                        }
                    }
                }
            },
        }
    }
}

/// The normal a nearest-hit query reports is the outward direction — the
/// normalization of the offset from the winning sphere's center to the hit
/// point — and is unit length up to rounding, within 16 steps of 1.0,
/// whenever that offset is at least half a unit long (as it is whenever the
/// hit lies on a sphere of radius one half or more).
pub proof fn lemma_hit_normal_unit(ray: Ray, spheres: Seq<Sphere>, max_dist: int)
    requires
        ({
            match spec_best(ray, spheres) {
                Some(p) => {
                    let point = svadd(ray.origin, sscale(ray.dir, p.0 as int));
                    let w = svsub(point, p.1.center);
                    &&& p.0 < max_dist
                    &&& in_range(w, crate::vec3::COMP_MAX as int)
                    &&& smag(w) >= crate::fx::HALF_SCALE
                },
                None => false,
            }
        }),
    ensures
        ({
            match (spec_best(ray, spheres), spec_scene_hit(ray, spheres, max_dist)) {
                (Some(p), Some(h)) => {
                    &&& h.normal == snormalized(svsub(h.point, p.1.center))
                    &&& -16 <= smag(h.normal) - (SCALE as int) <= 16
                },
                _ => false,
            }
        }),
{
    let p = spec_best(ray, spheres)->Some_0;
    let point = svadd(ray.origin, sscale(ray.dir, p.0 as int));
    let w = svsub(point, p.1.center);
    lemma_normalized_magnitude_near_one(w);
}

/// A light whose shadow query hits anything before the light's distance
/// contributes nothing: the accumulated diffuse and specular sums do not
/// change when that light is taken in.
pub proof fn lemma_shadowed_light_no_contribution(
    scene: Scene,
    point: Vec3,
    normal: Vec3,
    raydir: Vec3,
    mat: Material,
    k: int,
)
    requires
        0 <= k,
        ({
            let light = scene.lights@[k];
            let light_vec = svsub(light.origin, point);
            let shadow_point = svadd(point, sscale(normal, EPS_BIAS as int));
            spec_scene_hit(
                Ray { origin: shadow_point, dir: snormalized(light_vec) },
                scene.spheres@,
                smag(light_vec),
            ) is Some
        }),
    ensures
        spec_light_sums(scene, point, normal, raydir, mat, k + 1) == spec_light_sums(
            scene,
            point,
            normal,
            raydir,
            mat,
            k,
        ),
{
}

/// Rendering is deterministic: two grids that both satisfy the render
/// contract for the same scene and camera parameters are equal pixel for
/// pixel, with no hidden state to tell them apart.
pub proof fn lemma_render_deterministic(
    scene: Scene,
    w: int,
    h: int,
    tan_half: int,
    a: Seq<Vec3>,
    b: Seq<Vec3>,
)
    requires
        a.len() == b.len(),
        forall|k: int| 0 <= k < a.len() ==> a[k] == crate::render::spec_pixel(scene, w, h, tan_half, k),
        forall|k: int| 0 <= k < b.len() ==> b[k] == crate::render::spec_pixel(scene, w, h, tan_half, k),
    ensures
        a == b,
{
    assert(a =~= b);
}

} // verus!
