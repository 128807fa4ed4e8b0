use whitted::fx::SCALE;
use whitted::scene::{Material, PointLight, Ray, Scene, Sphere};
use whitted::trace::{raycast, scene_hit, DRAW_DIST};
use whitted::vec3::Vec3;

fn white_diffuse_mat() -> Material {
    // Pure diffuse: no specular, no ambient, no reflection.
    Material::new(Vec3::new(SCALE, SCALE, SCALE), 1, 0, SCALE, 0, 0)
}

fn lit_sphere_scene(with_blocker: bool) -> Scene {
    // A unit sphere five units ahead; a light up and behind the camera so
    // the lit hemisphere faces the hit point; optionally a second sphere
    // squarely between the hit point and the light.
    let mut spheres = Vec::new();
    spheres.push(Sphere::new(Vec3::new(0, 0, -5 * SCALE), SCALE, white_diffuse_mat()));
    if with_blocker {
        spheres.push(Sphere::new(Vec3::new(0, 4 * SCALE, 0), 2 * SCALE, white_diffuse_mat()));
    }
    let mut lights = Vec::new();
    lights.push(PointLight { origin: Vec3::new(0, 8 * SCALE, 4 * SCALE), intensity: SCALE });
    Scene { spheres, lights }
}

#[test]
fn nearest_hit_reports_front_surface() {
    let scene = lit_sphere_scene(false);
    let ray = Ray { origin: Vec3::new(0, 0, 0), dir: Vec3::new(0, 0, -SCALE) };
    let hit = scene_hit(&ray, &scene, DRAW_DIST).expect("should hit");
    assert_eq!(hit.point, Vec3::new(0, 0, -4 * SCALE));
    assert_eq!(hit.normal, Vec3::new(0, 0, SCALE));
    assert_eq!(hit.mat, white_diffuse_mat());
}

#[test]
fn nearest_hit_misses_beyond_draw_distance() {
    let scene = lit_sphere_scene(false);
    let ray = Ray { origin: Vec3::new(0, 0, 0), dir: Vec3::new(0, 0, -SCALE) };
    // The front surface is four units out; a three-unit bound misses it.
    assert!(scene_hit(&ray, &scene, 3 * SCALE).is_none());
}

#[test]
fn shadowed_light_contributes_exactly_zero() {
    // With the blocker squarely between the hit point and the light, the
    // diffuse contribution vanishes and the shaded color is exactly zero
    // (no ambient, no specular, no reflectance in this material).
    let scene = lit_sphere_scene(true);
    let ray = Ray { origin: Vec3::new(0, 0, 0), dir: Vec3::new(0, 0, -SCALE) };
    let color = raycast(&ray, &scene, 0);
    assert_eq!(color, Vec3::new(0, 0, 0));
}

#[test]
fn unshadowed_light_contributes() {
    // The same scene without the blocker: the light reaches the point and
    // the diffuse term is positive.
    let scene = lit_sphere_scene(false);
    let ray = Ray { origin: Vec3::new(0, 0, 0), dir: Vec3::new(0, 0, -SCALE) };
    let color = raycast(&ray, &scene, 0);
    assert!(color.x > 0 && color.y > 0 && color.z > 0, "color {color:?}");
    assert_eq!(color.x, color.y);
    assert_eq!(color.y, color.z);
}

#[test]
fn depth_limit_returns_background() {
    // At the recursion limit the shader returns the sky gradient: the ray
    // direction's vertical component on all channels, even though the ray
    // would hit the sphere.
    let scene = lit_sphere_scene(false);
    let dir = Vec3::new(0, SCALE / 2, -SCALE).normalized();
    let ray = Ray { origin: Vec3::new(0, 0, 0), dir };
    let color = raycast(&ray, &scene, 4);
    assert_eq!(color, Vec3::new(dir.y, dir.y, dir.y));
}

#[test]
fn miss_returns_background() {
    let scene = lit_sphere_scene(false);
    let dir = Vec3::new(0, SCALE, 0);
    let ray = Ray { origin: Vec3::new(0, 0, 0), dir };
    let color = raycast(&ray, &scene, 0);
    assert_eq!(color, Vec3::new(SCALE, SCALE, SCALE));
}

#[test]
fn mirror_sees_reflected_color() {
    // A pure mirror facing the camera: the shaded color is the reflected
    // ray's background, scaled by the reflectance.
    let mirror = Material::new(Vec3::new(SCALE, SCALE, SCALE), 1, 0, 0, 0, SCALE / 2);
    let mut spheres = Vec::new();
    spheres.push(Sphere::new(Vec3::new(0, 0, -5 * SCALE), SCALE, mirror));
    let scene = Scene { spheres, lights: Vec::new() };
    // Slightly upward ray: the mirrored ray keeps climbing, so the
    // reflected background is positive and the result is half of it.
    let dir = Vec3::new(0, SCALE / 8, -SCALE).normalized();
    let ray = Ray { origin: Vec3::new(0, 0, 0), dir };
    let color = raycast(&ray, &scene, 0);
    assert!(color.y > 0, "reflected sky should be bright, got {color:?}");
    assert_eq!(color.x, color.y);
    assert_eq!(color.y, color.z);
}
