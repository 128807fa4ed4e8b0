//! Scene data: rays, materials, spheres, point lights, and the ray–sphere
//! intersection test.
//!
//! A well-formed scene keeps every coordinate within ±8192.0 and every
//! material coefficient, color channel and light intensity within [0, 4.0];
//! those bounds are what make every intermediate product of the tracer fit in
//! an `i64`.

use crate::fx::{fxmul, is_isqrt, lemma_abs_mul, lemma_fxmul_le, sqrt_floor, SCALE};
use crate::vec3::{
    in_range, lemma_sdot_bound2, sdot, snormalized, svsub, Vec3, COMP_MAX, UNIT_MAX,
};
use vstd::prelude::*;

verus! {

/// Largest coordinate magnitude of a scene body or light: 8192.0.
pub const COORD_MAX: i64 = 0x2000_0000;

/// Largest material coefficient, color channel or light intensity: 4.0.
pub const MAT_MAX: i64 = 0x4_0000;

/// Largest ray-origin component the intersection test accepts.
pub const ORIGIN_MAX: i64 = 0x1_0000_0000;

/// Largest ray-direction component the intersection test accepts.
pub const DIR_MAX: i64 = 0x4_0000;

/// Strict bound on every intersection distance the test can report.
pub const T_MAX: i64 = 0x40_0000_0000;

/// Largest distance bound a nearest-hit query accepts.
pub const DIST_MAX: i64 = 0x8_0000_0000;

/// Most lights a well-formed scene may hold.
pub const MAX_LIGHTS: usize = 1024;

/// A half-line: origin plus direction. The direction is normalized by the
/// intersection test itself, so it need not be unit length.
#[derive(Debug, Clone, Copy, PartialEq, Eq, Structural)]
pub struct Ray {
    pub origin: Vec3,
    pub dir: Vec3,
}

/// Surface properties: color, Phong exponent and the lighting coefficients.
/// The exponent is a whole number, so the specular power is an exact
/// repeated product; a negative base raised to it is well defined and a
/// zero exponent gives 1.0.
#[derive(Debug, Clone, Copy, PartialEq, Eq, Structural)]
pub struct Material {
    pub color: Vec3,
    pub phong_exp: u32,
    pub phong_const: i64,
    pub diffuse_const: i64,
    pub ambient_const: i64,
    pub reflectance: i64,
}

/// A sphere with its material.
#[derive(Debug, Clone, Copy, PartialEq, Eq, Structural)]
pub struct Sphere {
    pub center: Vec3,
    pub radius: i64,
    pub mat: Material,
}

/// A point light source.
#[derive(Debug, Clone, Copy, PartialEq, Eq, Structural)]
pub struct PointLight {
    pub origin: Vec3,
    pub intensity: i64,
}

/// The spheres and lights to render, in order.
pub struct Scene {
    pub spheres: Vec<Sphere>,
    pub lights: Vec<PointLight>,
}

/// What one nearest-hit query reports: the hit point, the outward unit
/// normal there, and the material of the sphere that was hit.
#[derive(Debug, Clone, Copy, PartialEq, Eq, Structural)]
pub struct RaycastHit {
    pub point: Vec3,
    pub normal: Vec3,
    pub mat: Material,
}

/// Every channel and coefficient in [0, 4.0].
pub open spec fn mat_wf(m: Material) -> bool {
    &&& 0 <= m.color.x <= MAT_MAX
    &&& 0 <= m.color.y <= MAT_MAX
    &&& 0 <= m.color.z <= MAT_MAX
    &&& 0 <= m.phong_const <= MAT_MAX
    &&& 0 <= m.diffuse_const <= MAT_MAX
    &&& 0 <= m.ambient_const <= MAT_MAX
    &&& 0 <= m.reflectance <= MAT_MAX
}

/// Center within the world bounds, radius positive and bounded.
pub open spec fn sphere_wf(s: Sphere) -> bool {
    &&& in_range(s.center, COORD_MAX as int)
    &&& 0 < s.radius <= COORD_MAX
    &&& mat_wf(s.mat)
}

pub open spec fn light_wf(l: PointLight) -> bool {
    &&& in_range(l.origin, COORD_MAX as int)
    &&& 0 <= l.intensity <= MAT_MAX
}

/// All bodies and lights well-formed, and not more lights than the shading
/// sums can carry without overflow.
pub open spec fn scene_wf(s: Scene) -> bool {
    &&& forall|i: int| 0 <= i < s.spheres@.len() ==> sphere_wf(#[trigger] s.spheres@[i])
    &&& forall|i: int| 0 <= i < s.lights@.len() ==> light_wf(#[trigger] s.lights@[i])
    &&& s.lights@.len() <= MAX_LIGHTS
}

impl Material {
    /// The all-zero material.
    pub fn blank() -> (r: Self)
        ensures
            r == (Material {
                color: Vec3 { x: 0i64, y: 0i64, z: 0i64 },
                phong_exp: 0u32,
                phong_const: 0i64,
                diffuse_const: 0i64,
                ambient_const: 0i64,
                reflectance: 0i64,
            }),
    {
        Material {
            color: Vec3::new(0, 0, 0),
            phong_exp: 0,
            phong_const: 0,
            diffuse_const: 0,
            ambient_const: 0,
            reflectance: 0,
        }
    }

    pub fn new(
        color: Vec3,
        phong_exp: u32,
        phong_const: i64,
        diffuse_const: i64,
        ambient_const: i64,
        reflectance: i64,
    ) -> (r: Self)
        ensures
            r == (Material { color, phong_exp, phong_const, diffuse_const, ambient_const, reflectance }),
    {
        Material { color, phong_exp, phong_const, diffuse_const, ambient_const, reflectance }
    }
}

/// The intersection distance the test reports for a sphere and a ray: the
/// nearer root of the quadratic when it lies in front of the origin, else the
/// farther root when that does (the origin is inside the sphere), else none.
pub open spec fn spec_intersect(s: Sphere, ray: Ray) -> Option<i64> {
    let l = svsub(s.center, ray.origin);
    let dirn = snormalized(ray.dir);
    let pld = sdot(l, dirn);
    let ll = sdot(l, l);
    let d2 = ll - fxmul(pld, pld);
    let r2 = fxmul(s.radius as int, s.radius as int);
    if d2 > r2 {
        None
    } else {
        let td = sqrt_floor((r2 - d2) * (SCALE as int));
        let t0 = pld - td;
        let t1 = pld + td;
        if t0 > 0 {
            Some(t0 as i64)
        } else if t1 > 0 {
            Some(t1 as i64)
        } else {
            None
        }
    }
}

impl Sphere {
    pub fn new(center: Vec3, radius: i64, mat: Material) -> (r: Self)
        ensures
            r == (Sphere { center, radius, mat }),
    {
        Sphere { center, radius, mat }
    }

    /// The distance along the ray to this sphere, or None when the ray
    /// misses it or it lies wholly behind the origin.
    pub fn intersects_ray(&self, ray: &Ray) -> (r: Option<i64>)
        requires
            sphere_wf(*self),
            in_range(ray.origin, ORIGIN_MAX as int),
            in_range(ray.dir, DIR_MAX as int),
        ensures
            r == spec_intersect(*self, *ray),
            match r {
                Some(t) => 0 < t < T_MAX,
                None => true,
            },
    {
        let l: Vec3 = self.center.sub(&ray.origin);
        let dirn: Vec3 = ray.dir.normalized();
        proof {
            assert(in_range(l, 0x2_0000_0000));
            lemma_sdot_bound2(l, dirn, 0x2_0000_0000, UNIT_MAX as int);
            lemma_sdot_bound2(l, l, 0x2_0000_0000, 0x2_0000_0000);
        }
        let pld: i64 = l.dot(&dirn);
        let ll: i64 = l.dot(&l);
        proof {
            lemma_abs_mul(pld as int, pld as int, 0x12_0000_0000, 0x12_0000_0000);
            lemma_fxmul_le(pld as int, pld as int, 0x12_0000_0000int * 0x12_0000_0000int);
            lemma_abs_mul(self.radius as int, self.radius as int, COORD_MAX as int, COORD_MAX as int);
            lemma_fxmul_le(self.radius as int, self.radius as int, (COORD_MAX as int) * (
            COORD_MAX as int));
        }
        let pld2: i64 = crate::fx::fx_mul(pld, pld);
        let d2: i64 = ll - pld2;
        let r2: i64 = crate::fx::fx_mul(self.radius, self.radius);
        if d2 > r2 {
            return None;
        }
        proof {
            crate::vec3::lemma_sdot_self_nonneg(l);
            assert(r2 - d2 <= 0x145_0000_0000_0000);
        }
        let diff: i64 = r2 - d2;
        let td64: u64 = crate::fx::fx_sqrt((diff as u128) * 65536);
        proof {
            assert((td64 as int) * (td64 as int) <= (diff as int) * (SCALE as int));
            assert((diff as int) * (SCALE as int) <= 0x145_0000_0000_0000_0000) by (nonlinear_arith)
                requires
                    0 <= diff as int <= 0x145_0000_0000_0000,
            ;
            assert(td64 < 0x16_0000_0000) by (nonlinear_arith)
                requires
                    (td64 as int) * (td64 as int) <= 0x145_0000_0000_0000_0000,
                    td64 >= 0,
            ;
        }
        let td: i64 = td64 as i64;
        let t0: i64 = pld - td;
        let t1: i64 = pld + td;
        if t0 > 0 {
            Some(t0)
        } else if t1 > 0 {
            Some(t1)
        } else {
            None
        }
    }
}

} // verus!
