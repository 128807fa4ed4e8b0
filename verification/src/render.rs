//! The camera and frame driver, and the clamp-then-quantize step consumers
//! apply per channel.
//!
//! Each pixel (i, j) of a width × height grid maps to a ray from the world
//! origin through the image plane at z = -1.0, with the vertical flip that
//! puts row 0 at the top; the grid of shaded colors is returned row-major.
//! The field of view enters as the tangent of half the vertical field of
//! view, in fixed point.

use crate::fx::{
    fx_div, fx_mul, fxdiv, fxmul, lemma_abs_mul, lemma_fxmul_le, lemma_tdiv_le, tdiv, SCALE,
};
use crate::scene::{scene_wf, Ray, Scene};
use crate::trace::{color_cap, raycast, rc_wf, spec_raycast};
use crate::vec3::{in_range, snormalized, Vec3};
use vstd::arithmetic::div_mod::{
    lemma_div_by_multiple, lemma_div_pos_is_pos, lemma_fundamental_div_mod,
    lemma_fundamental_div_mod_converse, lemma_mod_bound,
};
use vstd::prelude::*;

verus! {

/// Largest grid side length `render` accepts.
pub const SIDE_MAX: usize = 4096;

/// Largest half-field-of-view tangent accepted: 64.0.
pub const FOV_TAN_MAX: i64 = 0x40_0000;

/// The camera ray of pixel (i, j): through the image plane point whose
/// offsets are the pixel center mapped to [-1, 1] (rows flipped), scaled by
/// the half-field-of-view tangent, the horizontal one also by the aspect
/// ratio; the direction is normalized and the origin is the world origin.
pub open spec fn spec_camera_ray(w: int, h: int, tan_half: int, i: int, j: int) -> Ray {
    let tx = fxdiv(2 * i + 1 - w, w);
    let ty = fxdiv(2 * j + 1 - h, h);
    let aspect = fxdiv(w, h);
    let x = fxmul(fxmul(tan_half, tx), aspect);
    let y = fxmul(tan_half, -ty);
    Ray {
        origin: Vec3 { x: 0, y: 0, z: 0 },
        dir: snormalized(Vec3 { x: x as i64, y: y as i64, z: -SCALE as i64 }),
    }
}

/// The color of pixel k of a row-major width × height render.
pub open spec fn spec_pixel(scene: Scene, w: int, h: int, tan_half: int, k: int) -> Vec3 {
    spec_raycast(spec_camera_ray(w, h, tan_half, k % w, k / w), scene, 0)
}

/// Division by a positive integer never grows a nonnegative value.
proof fn lemma_tdiv_shrinks(p: int, d: int)
    requires
        0 <= p,
        1 <= d,
    ensures
        0 <= tdiv(p, d) <= p,
{
    lemma_fundamental_div_mod(p, d);
    lemma_mod_bound(p, d);
    lemma_div_pos_is_pos(p, d);
    let q = p / d;
    assert(q <= q * d) by (nonlinear_arith)
        requires
            0 <= q,
            1 <= d,
    ;
    assert(d * q == q * d) by (nonlinear_arith);
}

/// The camera ray of pixel (i, j), ready to shade at depth 0.
fn camera_ray(width: usize, height: usize, fov_tan_half: i64, i: usize, j: usize) -> (r: Ray)
    requires
        0 < width <= SIDE_MAX,
        0 < height <= SIDE_MAX,
        0 <= fov_tan_half <= FOV_TAN_MAX,
        i < width,
        j < height,
    ensures
        r == spec_camera_ray(
            width as int,
            height as int,
            fov_tan_half as int,
            i as int,
            j as int,
        ),
        rc_wf(r, 0),
{
    let wi: i64 = width as i64;
    let hi: i64 = height as i64;
    let num_x: i64 = 2 * (i as i64) + 1 - wi;
    let num_y: i64 = 2 * (j as i64) + 1 - hi;
    let tx: i64 = fx_div(num_x, wi);
    let ty: i64 = fx_div(num_y, hi);
    let aspect: i64 = fx_div(wi, hi);
    proof {
        lemma_abs_mul(num_x as int, SCALE as int, wi as int, SCALE as int);
        assert((wi as int) * (SCALE as int) == ((SCALE as int)) * (wi as int)) by (nonlinear_arith);
        lemma_tdiv_le(num_x as int * (SCALE as int), wi as int, (SCALE as int) * (wi as int));
        lemma_div_by_multiple(SCALE as int, wi as int);
        lemma_abs_mul(num_y as int, SCALE as int, hi as int, SCALE as int);
        assert((hi as int) * (SCALE as int) == ((SCALE as int)) * (hi as int)) by (nonlinear_arith);
        lemma_tdiv_le(num_y as int * (SCALE as int), hi as int, (SCALE as int) * (hi as int));
        lemma_div_by_multiple(SCALE as int, hi as int);
        lemma_tdiv_shrinks(wi as int * (SCALE as int), hi as int);
        assert(wi as int * (SCALE as int) <= 0x1000_0000);
        lemma_abs_mul(fov_tan_half as int, tx as int, FOV_TAN_MAX as int, SCALE as int);
        lemma_fxmul_le(fov_tan_half as int, tx as int, (FOV_TAN_MAX as int) * (SCALE as int));
        lemma_abs_mul(fov_tan_half as int, -(ty as int), FOV_TAN_MAX as int, SCALE as int);
        lemma_fxmul_le(fov_tan_half as int, -(ty as int), (FOV_TAN_MAX as int) * (SCALE as int));
    }
    let t1: i64 = fx_mul(fov_tan_half, tx);
    proof {
        lemma_abs_mul(t1 as int, aspect as int, 0x40_0000, 0x1000_0000);
        lemma_fxmul_le(t1 as int, aspect as int, 0x40_0000int * 0x1000_0000int);
    }
    let x: i64 = fx_mul(t1, aspect);
    let y: i64 = fx_mul(fov_tan_half, -ty);
    let dir: Vec3 = Vec3::new(x, y, -SCALE).normalized();
    Ray { origin: Vec3::origin(), dir }
}

/// Render the scene: one shaded color per pixel, row-major, row 0 at the top.
#[verifier::loop_isolation(false)]
pub fn render(scene: &Scene, width: usize, height: usize, fov_tan_half: i64) -> (grid: Vec<Vec3>)
    requires
        scene_wf(*scene),
        0 < width <= SIDE_MAX,
        0 < height <= SIDE_MAX,
        0 <= fov_tan_half <= FOV_TAN_MAX,
    ensures
        grid@.len() == width * height,
        forall|k: int|
            0 <= k < grid@.len() ==> grid@[k] == spec_pixel(
                *scene,
                width as int,
                height as int,
                fov_tan_half as int,
                k,
            ),
{
    let mut data: Vec<Vec3> = Vec::new();
    let mut j: usize = 0;
    proof {
        lemma_abs_mul(width as int, height as int, 4096, 4096);
    }
    while j < height
        invariant
            0 <= j <= height,
            data@.len() == j * width,
            forall|k: int|
                0 <= k < data@.len() ==> data@[k] == spec_pixel(
                    *scene,
                    width as int,
                    height as int,
                    fov_tan_half as int,
                    k,
                ),
        decreases height - j,
    {
        let mut i: usize = 0;
        proof {
            lemma_abs_mul(j as int, width as int, 4096, 4096);
        }
        while i < width
            invariant
                0 <= i <= width,
                0 <= j < height,
                data@.len() == j * width + i,
                forall|k: int|
                    0 <= k < data@.len() ==> data@[k] == spec_pixel(
                        *scene,
                        width as int,
                        height as int,
                        fov_tan_half as int,
                        k,
                    ),
            decreases width - i,
        {
            let ray: Ray = camera_ray(width, height, fov_tan_half, i, j);
            let color: Vec3 = raycast(&ray, scene, 0);
            proof {
                lemma_fundamental_div_mod_converse(
                    (j * width + i) as int,
                    width as int,
                    j as int,
                    i as int,
                );
            }
            data.push(color);
            i = i + 1;
        }
        proof {
            assert((j + 1) * width == j * width + width) by (nonlinear_arith);
        }
        j = j + 1;
    }
    proof {
        assert(height * width == width * height) by (nonlinear_arith);
    }
    data
}

/// The 8-bit value of one color channel: the channel clamped to at most 1.0,
/// scaled to 255 and rounded down; negative channels give 0.
pub open spec fn squantize(c: int) -> int {
    if c < 0 {
        0
    } else if c < SCALE {
        tdiv(c * 255, SCALE as int)
    } else {
        255
    }
}

/// Clamp a channel to [0, 1.0] and quantize it to 8 bits, as the image
/// encoder consumes it. Shading itself never clamps; this is the documented
/// final step only.
pub fn quantize_channel(c: i64) -> (r: u8)
    ensures
        r as int == squantize(c as int),
{
    if c < 0 {
        0
    } else if c >= SCALE {
        255
    } else {
        let q: u64 = ((c as u64) * 255) / 65536;
        proof {
            vstd::arithmetic::div_mod::lemma_div_is_ordered(
                (c as int) * 255,
                65536int * 255,
                SCALE as int,
            );
            lemma_div_pos_is_pos((c as int) * 255, SCALE as int);
        }
        q as u8
    }
}

} // verus!
