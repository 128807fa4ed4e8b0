//! Nearest-hit resolution and the recursive Whitted shading.
//!
//! `scene_hit` scans all spheres and keeps the smallest positive intersection
//! distance, reporting the hit point, outward unit normal and material when
//! that distance is under the given bound. `raycast` shades a ray: ambient
//! plus shadow-tested diffuse and Phong specular terms plus a recursively
//! traced mirror reflection, with a depth limit of four; a miss or an
//! exhausted depth yields the sky-gradient background built from the ray
//! direction's vertical component.

use crate::fx::{fx_mul, fx_pow, fxmul, fxpow, lemma_abs_mul, lemma_fxmul_le, SCALE};
use crate::scene::{
    mat_wf, scene_wf, spec_intersect, Material, PointLight, Ray, RaycastHit, Scene, Sphere,
    DIST_MAX, MAT_MAX, ORIGIN_MAX, T_MAX,
};
use crate::vec3::{
    in_range, lemma_sdot_bound, lemma_smag_bound, lemma_sscale_bound, sdot, smag, sneg,
    snormalized, sreflect, sscale, svadd, svsub, Vec3, UNIT_MAX,
};
use vstd::arithmetic::div_mod::lemma_div_by_multiple;
use vstd::prelude::*;

verus! {

/// The draw distance of a visibility query: geometry past 1000.0 is not hit.
pub const DRAW_DIST: i64 = 65_536_000;

/// The anti-acne bias (about 0.001): how far a secondary ray's origin is
/// pushed out along the surface normal to avoid re-hitting the same surface.
pub const EPS_BIAS: i64 = 66;

/// Recursion depth at which shading stops following reflections.
pub const MAX_DEPTH: i32 = 4;

/// The smallest positive intersection distance over a sequence of spheres,
/// with the sphere that produced it; ties keep the earliest sphere.
pub open spec fn spec_best(ray: Ray, spheres: Seq<Sphere>) -> Option<(i64, Sphere)>
    decreases spheres.len(),
{
    if spheres.len() == 0 {
        None
    } else {
        let prev = spec_best(ray, spheres.drop_last());
        match spec_intersect(spheres.last(), ray) {
            None => prev,
            Some(t) => match prev {
                None => Some((t, spheres.last())),
                Some(p) => if t < p.0 {
                    Some((t, spheres.last()))
                } else {
                    prev
                },
            },
        }
    }
}

/// What a nearest-hit query reports: the hit on the closest sphere within
/// max_dist, with the world-space hit point and the outward unit normal.
pub open spec fn spec_scene_hit(ray: Ray, spheres: Seq<Sphere>, max_dist: int) -> Option<
    RaycastHit,
> {
    match spec_best(ray, spheres) {
        None => None,
        Some(p) => if p.0 < max_dist {
            let point = svadd(ray.origin, sscale(ray.dir, p.0 as int));
            Some(
                RaycastHit {
                    point,
                    normal: snormalized(svsub(point, p.1.center)),
                    mat: p.1.mat,
                },
            )
        } else {
            None
        },
    }
}

/// The background (sky gradient): the ray direction's vertical component on
/// all three channels.
pub open spec fn sbackground(dir: Vec3) -> Vec3 {
    Vec3 { x: dir.y, y: dir.y, z: dir.y }
}

/// Pure white, the specular highlight color.
pub open spec fn swhite() -> Vec3 {
    Vec3 { x: SCALE, y: SCALE, z: SCALE }
}

/// The specular base: the reflected-light/view dot product clamped to
/// [-1.0, 0]. Only alignment (a negative product) contributes; a product
/// below -1.0, which only rounding can produce, is clamped to -1.0.
pub open spec fn sclamp_base(d: int) -> int {
    let lo = if d < 0 {
        d
    } else {
        0
    };
    if lo < -(SCALE as int) {
        -(SCALE as int)
    } else {
        lo
    }
}

/// The diffuse and specular intensities accumulated over the first n lights,
/// in order. A light whose shadow query hits anything before the light's own
/// distance contributes nothing.
pub open spec fn spec_light_sums(
    scene: Scene,
    point: Vec3,
    normal: Vec3,
    raydir: Vec3,
    mat: Material,
    n: int,
) -> (int, int)
    decreases n,
{
    if n <= 0 {
        (0int, 0int)
    } else {
        let rest = spec_light_sums(scene, point, normal, raydir, mat, n - 1);
        let light = scene.lights@[n - 1];
        let light_vec = svsub(light.origin, point);
        let light_dir = snormalized(light_vec);
        let light_dist = smag(light_vec);
        let shadow_point = svadd(point, sscale(normal, EPS_BIAS as int));
        if spec_scene_hit(
            Ray { origin: shadow_point, dir: light_dir },
            scene.spheres@,
            light_dist,
        ) is Some {
            rest
        } else {
            let ld = sdot(light_dir, normal);
            let dmax = if ld > 0 {
                ld
            } else {
                0
            };
            let base = sclamp_base(sdot(sreflect(light_dir, normal), raydir));
            (
                rest.0 + fxmul(dmax, light.intensity as int),
                rest.1 + fxmul(fxpow(base, mat.phong_exp as nat), light.intensity as int),
            )
        }
    }
}

/// The color a ray shades to at the given recursion depth.
pub open spec fn spec_raycast(ray: Ray, scene: Scene, depth: int) -> Vec3
    decreases 4 - depth,
{
    if depth < 4 {
        match spec_scene_hit(ray, scene.spheres@, DRAW_DIST as int) {
            Some(hit) => {
                let reflect_dir = sneg(snormalized(sreflect(ray.dir, hit.normal)));
                let reflect_point = svadd(hit.point, sscale(hit.normal, EPS_BIAS as int));
                let reflect_color = spec_raycast(
                    Ray { origin: reflect_point, dir: reflect_dir },
                    scene,
                    depth + 1,
                );
                let sums = spec_light_sums(
                    scene,
                    hit.point,
                    hit.normal,
                    ray.dir,
                    hit.mat,
                    scene.lights@.len() as int,
                );
                let diffuse_color = sscale(sscale(hit.mat.color, sums.0), hit.mat.diffuse_const as int);
                let specular_color = sscale(sscale(swhite(), sums.1), hit.mat.phong_const as int);
                let ambient_color = sscale(hit.mat.color, hit.mat.ambient_const as int);
                let reflection = sscale(reflect_color, hit.mat.reflectance as int);
                svadd(svadd(svadd(diffuse_color, specular_color), ambient_color), reflection)
            },
            None => sbackground(ray.dir),
        }
    } else {
        sbackground(ray.dir)
    }
}

/// A bound on every channel of the color `spec_raycast` can return at the
/// given depth: the non-reflective terms plus four times the next depth's
/// bound (reflectance is at most 4.0).
pub open spec fn color_cap(depth: int) -> int
    decreases 4 - depth,
{
    if depth < 4 {
        0x21_0000_0000 + 4 * color_cap(depth + 1)
    } else {
        UNIT_MAX as int
    }
}

/// The color bound lies between the background bound and one fixed ceiling.
pub proof fn lemma_color_cap_range(depth: int)
    requires
        0 <= depth,
    ensures
        UNIT_MAX as int <= color_cap(depth) <= 0xC00_0000_0000,
{
    assert(color_cap(4) == UNIT_MAX as int);
    assert(color_cap(3) == 0x21_000C_0000);
    assert(color_cap(2) == 0xA5_0030_0000);
    assert(color_cap(1) == 0x2B5_00C0_0000);
    assert(color_cap(0) == 0xAF5_0300_0000);
    if depth >= 4 {
        assert(color_cap(depth) == UNIT_MAX as int);
    }
}

/// What a ray and its depth must satisfy before shading: a direction as
/// normalization returns it, and an origin within the window that camera
/// origins plus up to `depth` reflection bounces can reach.
pub open spec fn rc_wf(ray: Ray, depth: int) -> bool {
    &&& in_range(ray.dir, UNIT_MAX as int)
    &&& 0 <= depth
    &&& depth < 4 ==> in_range(ray.origin, 0x4000_0000 + depth * 0xC00_0000)
}

/// The nearest hit of the ray on any sphere of the scene within max_dist:
/// the smallest positive intersection distance wins; ties keep the earliest
/// sphere in scene order.
#[verifier::loop_isolation(false)]
pub fn scene_hit(ray: &Ray, scene: &Scene, max_dist: i64) -> (r: Option<RaycastHit>)
    requires
        scene_wf(*scene),
        in_range(ray.origin, ORIGIN_MAX as int),
        in_range(ray.dir, UNIT_MAX as int),
        0 <= max_dist <= DIST_MAX,
    ensures
        r == spec_scene_hit(*ray, scene.spheres@, max_dist as int),
        match r {
            Some(h) => {
                &&& mat_wf(h.mat)
                &&& in_range(h.normal, UNIT_MAX as int)
                &&& -3 * max_dist <= h.point.x - ray.origin.x <= 3 * max_dist
                &&& -3 * max_dist <= h.point.y - ray.origin.y <= 3 * max_dist
                &&& -3 * max_dist <= h.point.z - ray.origin.z <= 3 * max_dist
            },
            None => true,
        },
{
    let mut min_dist: i64 = i64::MAX;
    let mut best: usize = 0;
    let mut i: usize = 0;
    let ghost sph = scene.spheres@;
    while i < scene.spheres.len()
        invariant
            0 <= i <= sph.len(),
            match spec_best(*ray, sph.take(i as int)) {
                None => min_dist == i64::MAX,
                Some(p) => {
                    &&& min_dist == p.0
                    &&& 0 < min_dist < T_MAX
                    &&& best < i
                    &&& sph[best as int] == p.1
                },
            },
        decreases sph.len() - i,
    {
        let sphere: Sphere = scene.spheres[i];
        if let Some(cur_dist) = sphere.intersects_ray(ray) {
            if cur_dist < min_dist {
                min_dist = cur_dist;
                best = i;
            }
        }
        proof {
            assert(sph.take(i as int + 1).drop_last() =~= sph.take(i as int));
            assert(sph.take(i as int + 1).last() == sph[i as int]);
        }
        i = i + 1;
    }
    proof {
        assert(sph.take(sph.len() as int) =~= sph);
    }
    if min_dist < max_dist {
        let sphere: Sphere = scene.spheres[best];
        proof {
            lemma_sscale_bound(ray.dir, min_dist as int, UNIT_MAX as int, max_dist as int);
            assert((UNIT_MAX as int) * (max_dist as int) == (3 * (max_dist as int)) * (
            SCALE as int)) by (nonlinear_arith);
            lemma_div_by_multiple(3 * (max_dist as int), SCALE as int);
        }
        let surface_point: Vec3 = ray.origin.add(&ray.dir.scale(min_dist));
        let surface_normal: Vec3 = surface_point.sub(&sphere.center).normalized();
        Some(RaycastHit { point: surface_point, normal: surface_normal, mat: sphere.mat })
    } else {
        None
    }
}

/// The diffuse and specular intensities the scene's lights contribute at a
/// hit, each light shadow-tested and skipped when occluded.
#[verifier::loop_isolation(false)]
fn shade_lights(scene: &Scene, point: Vec3, normal: Vec3, raydir: Vec3, mat: Material) -> (r: (
    i64,
    i64,
))
    requires
        scene_wf(*scene),
        in_range(point, 0x8000_0000),
        in_range(normal, UNIT_MAX as int),
        in_range(raydir, UNIT_MAX as int),
    ensures
        r.0 == spec_light_sums(*scene, point, normal, raydir, mat, scene.lights@.len() as int).0,
        r.1 == spec_light_sums(*scene, point, normal, raydir, mat, scene.lights@.len() as int).1,
        -0x2_0000_0000 <= r.0 <= 0x2_0000_0000,
        -0x1000_0000 <= r.1 <= 0x1000_0000,
{
    let mut diffuse_intensity: i64 = 0;
    let mut specular_intensity: i64 = 0;
    let mut li: usize = 0;
    while li < scene.lights.len()
        invariant
            0 <= li <= scene.lights@.len(),
            (diffuse_intensity as int) == spec_light_sums(
                *scene,
                point,
                normal,
                raydir,
                mat,
                li as int,
            ).0,
            (specular_intensity as int) == spec_light_sums(
                *scene,
                point,
                normal,
                raydir,
                mat,
                li as int,
            ).1,
            -(li as int) * 0x80_0000 <= diffuse_intensity as int <= (li as int) * 0x80_0000,
            -(li as int) * 0x4_0000 <= specular_intensity as int <= (li as int) * 0x4_0000,
        decreases scene.lights@.len() - li,
    {
        let light: PointLight = scene.lights[li];
        let light_vec: Vec3 = light.origin.sub(&point);
        proof {
            lemma_smag_bound(light_vec, 0x2_0000_0000);
        }
        let light_dir: Vec3 = light_vec.normalized();
        let light_dist: i64 = light_vec.mag();

        // Check if the point is in shadow
        proof {
            lemma_sscale_bound(normal, EPS_BIAS as int, UNIT_MAX as int, EPS_BIAS as int);
        }
        let shadow_point: Vec3 = point.add(&normal.scale(EPS_BIAS));
        let shadow_ray = Ray { origin: shadow_point, dir: light_dir };
        let shadow_hit = scene_hit(&shadow_ray, scene, light_dist);
        if shadow_hit.is_none() {
            let ld: i64 = light_dir.dot(&normal);
            let dmax: i64 = if ld > 0 {
                ld
            } else {
                0
            };
            proof {
                lemma_sdot_bound(light_dir, normal, UNIT_MAX as int);
                lemma_abs_mul(dmax as int, light.intensity as int, 0x1B_0000, 0x4_0000);
                lemma_fxmul_le(dmax as int, light.intensity as int, 0x1B_0000int * 0x4_0000int);
            }
            diffuse_intensity = diffuse_intensity + fx_mul(dmax, light.intensity);

            let rl: Vec3 = light_dir.reflect_on(&normal);
            let sd: i64 = rl.dot(&raydir);
            let smin: i64 = if sd < 0 {
                sd
            } else {
                0
            };
            let base: i64 = if smin < -SCALE {
                -SCALE
            } else {
                smin
            };
            let p: i64 = fx_pow(base, mat.phong_exp);
            proof {
                lemma_abs_mul(p as int, light.intensity as int, 65536, 0x4_0000);
                lemma_fxmul_le(p as int, light.intensity as int, 65536int * 0x4_0000int);
            }
            specular_intensity = specular_intensity + fx_mul(p, light.intensity);
        }
        li = li + 1;
    }
    (diffuse_intensity, specular_intensity)
}

/// The shading sum: diffuse, specular, ambient and reflected contributions,
/// each weighted by its material coefficient.
fn combine_colors(
    mat: Material,
    diffuse_intensity: i64,
    specular_intensity: i64,
    reflect_color: Vec3,
    Ghost(rc_cap): Ghost<int>,
) -> (r: Vec3)
    requires
        mat_wf(mat),
        -0x2_0000_0000 <= diffuse_intensity <= 0x2_0000_0000,
        -0x1000_0000 <= specular_intensity <= 0x1000_0000,
        0 <= rc_cap <= 0xC00_0000_0000,
        in_range(reflect_color, rc_cap),
    ensures
        r == svadd(
            svadd(
                svadd(
                    sscale(sscale(mat.color, diffuse_intensity as int), mat.diffuse_const as int),
                    sscale(sscale(swhite(), specular_intensity as int), mat.phong_const as int),
                ),
                sscale(mat.color, mat.ambient_const as int),
            ),
            sscale(reflect_color, mat.reflectance as int),
        ),
        in_range(r, 0x21_0000_0000 + 4 * rc_cap),
{
    proof {
        lemma_sscale_bound(mat.color, diffuse_intensity as int, MAT_MAX as int, 0x2_0000_0000);
    }
    let dc1: Vec3 = mat.color.scale(diffuse_intensity);
    proof {
        lemma_sscale_bound(dc1, mat.diffuse_const as int, 0x8_0000_0000, MAT_MAX as int);
    }
    let diffuse_color: Vec3 = dc1.scale(mat.diffuse_const);

    let white: Vec3 = Vec3::new(SCALE, SCALE, SCALE);
    proof {
        lemma_sscale_bound(white, specular_intensity as int, SCALE as int, 0x1000_0000);
    }
    let sc1: Vec3 = white.scale(specular_intensity);
    proof {
        lemma_sscale_bound(sc1, mat.phong_const as int, 0x1000_0000, MAT_MAX as int);
    }
    let specular_color: Vec3 = sc1.scale(mat.phong_const);

    proof {
        lemma_sscale_bound(mat.color, mat.ambient_const as int, MAT_MAX as int, MAT_MAX as int);
    }
    let ambient_color: Vec3 = mat.color.scale(mat.ambient_const);

    proof {
        lemma_sscale_bound(reflect_color, mat.reflectance as int, rc_cap, MAT_MAX as int);
        assert(rc_cap * (MAT_MAX as int) == (4 * rc_cap) * (SCALE as int)) by (nonlinear_arith);
        lemma_div_by_multiple(4 * rc_cap, SCALE as int);
    }
    let reflection: Vec3 = reflect_color.scale(mat.reflectance);

    diffuse_color.add(&specular_color).add(&ambient_color).add(&reflection)
}

/// Shade a ray against the scene: background on a miss or at the depth
/// limit; otherwise ambient light plus, per unshadowed light, a Lambertian
/// diffuse term and a Phong specular term, plus the reflectance-weighted
/// color of the mirrored ray traced one level deeper.
#[verifier::rlimit(50)]
pub fn raycast(ray: &Ray, scene: &Scene, depth: i32) -> (r: Vec3)
    requires
        scene_wf(*scene),
        rc_wf(*ray, depth as int),
    ensures
        r == spec_raycast(*ray, *scene, depth as int),
        in_range(r, color_cap(depth as int)),
    decreases 4 - depth,
{
    proof {
        lemma_color_cap_range(depth as int);
    }
    if depth < MAX_DEPTH {
        let hit = scene_hit(ray, scene, DRAW_DIST);
        if let Some(hit_info) = hit {
            let surface_mat: Material = hit_info.mat;
            let surface_point: Vec3 = hit_info.point;
            let surface_normal: Vec3 = hit_info.normal;

            // Reflect
            proof {
                lemma_sscale_bound(surface_normal, EPS_BIAS as int, UNIT_MAX as int, EPS_BIAS as int);
            }
            let reflect_dir: Vec3 = ray.dir.reflect_on(&surface_normal).normalized().negate();
            let reflect_point: Vec3 = surface_point.add(&surface_normal.scale(EPS_BIAS));
            let reflect_ray = Ray { origin: reflect_point, dir: reflect_dir };
            let reflect_color: Vec3 = raycast(&reflect_ray, scene, depth + 1);
            proof {
                lemma_color_cap_range(depth as int + 1);
            }

            let sums: (i64, i64) = shade_lights(
                scene,
                surface_point,
                surface_normal,
                ray.dir,
                surface_mat,
            );
            let out: Vec3 = combine_colors(
                surface_mat,
                sums.0,
                sums.1,
                reflect_color,
                Ghost(color_cap(depth as int + 1)),
            );
            return out;
        }
    }

    let height: i64 = ray.dir.y;
    Vec3::new(height, height, height)
}

} // verus!
