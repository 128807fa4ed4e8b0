use whitted::fx::SCALE;
use whitted::scene::{Material, Ray, Scene, Sphere};
use whitted::trace::{scene_hit, DRAW_DIST};
use whitted::vec3::Vec3;

fn plain_mat() -> Material {
    Material::new(Vec3::new(SCALE, SCALE, SCALE), 1, 0, SCALE, 0, 0)
}

fn unit_sphere_ahead() -> Sphere {
    // Unit sphere centered five units down the negative z axis.
    Sphere::new(Vec3::new(0, 0, -5 * SCALE), SCALE, plain_mat())
}

#[test]
fn head_on_hit_at_distance_to_center_minus_radius() {
    // Origin outside, direction straight at the center: the reported
    // distance is the distance to the center minus the radius, here exactly.
    let s = unit_sphere_ahead();
    let ray = Ray { origin: Vec3::new(0, 0, 0), dir: Vec3::new(0, 0, -SCALE) };
    assert_eq!(s.intersects_ray(&ray), Some(4 * SCALE));
}

#[test]
fn pointing_away_misses() {
    // Origin outside, direction straight away from the sphere: no hit.
    let s = unit_sphere_ahead();
    let ray = Ray { origin: Vec3::new(0, 0, 0), dir: Vec3::new(0, 0, SCALE) };
    assert_eq!(s.intersects_ray(&ray), None);
}

#[test]
fn perpendicular_direction_misses() {
    let s = unit_sphere_ahead();
    let ray = Ray { origin: Vec3::new(0, 0, 0), dir: Vec3::new(0, SCALE, 0) };
    assert_eq!(s.intersects_ray(&ray), None);
}

#[test]
fn origin_at_center_exits_at_radius() {
    // From the center the ray leaves through the surface: the far root, at
    // exactly one radius.
    let s = unit_sphere_ahead();
    let ray = Ray { origin: Vec3::new(0, 0, -5 * SCALE), dir: Vec3::new(0, 0, -SCALE) };
    assert_eq!(s.intersects_ray(&ray), Some(SCALE));
}

#[test]
fn origin_inside_reports_far_exit_not_negative_near_root() {
    // Origin half a unit before the center: the near root is behind the
    // origin (negative), so the far exit at 1.5 units is reported.
    let s = unit_sphere_ahead();
    let ray = Ray {
        origin: Vec3::new(0, 0, -4 * SCALE - SCALE / 2),
        dir: Vec3::new(0, 0, -SCALE),
    };
    assert_eq!(s.intersects_ray(&ray), Some(3 * SCALE / 2));
}

#[test]
fn small_sphere_has_unit_normal() {
    // A sphere well under half a unit in radius still reports an exact hit
    // with an exact outward unit normal.
    let mut spheres = Vec::new();
    spheres.push(Sphere::new(Vec3::new(0, 0, -5 * SCALE), SCALE / 4, plain_mat()));
    let scene = Scene { spheres, lights: Vec::new() };
    let ray = Ray { origin: Vec3::new(0, 0, 0), dir: Vec3::new(0, 0, -SCALE) };
    let hit = scene_hit(&ray, &scene, DRAW_DIST).expect("should hit");
    assert_eq!(hit.point, Vec3::new(0, 0, -311296));
    assert_eq!(hit.normal, Vec3::new(0, 0, SCALE));
}

#[test]
fn grazing_offset_still_hits() {
    // Half a unit off axis: the perpendicular distance is under the radius,
    // so the ray still strikes the sphere.
    let s = unit_sphere_ahead();
    let ray = Ray {
        origin: Vec3::new(SCALE / 2, 0, 0),
        dir: Vec3::new(0, 0, -SCALE),
    };
    let t = s.intersects_ray(&ray).expect("should hit");
    // The chord entry lies between 4 and 5 units out.
    assert!(4 * SCALE < t && t < 5 * SCALE, "distance {t}");
}
