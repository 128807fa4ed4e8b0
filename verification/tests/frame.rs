use whitted::fx::SCALE;
use whitted::render::{quantize_channel, render};
use whitted::scene::{Material, PointLight, Scene, Sphere};
use whitted::vec3::Vec3;

fn ambient_white() -> Material {
    // Ambient only: a hit shows as pure white, a miss as the sky gradient.
    Material::new(Vec3::new(SCALE, SCALE, SCALE), 1, 0, 0, SCALE, 0)
}

fn single_sphere_scene() -> Scene {
    let mut spheres = Vec::new();
    spheres.push(Sphere::new(Vec3::new(0, 0, -5 * SCALE), SCALE, ambient_white()));
    Scene { spheres, lights: Vec::new() }
}

#[test]
fn center_pixel_hits_edge_pixel_misses() {
    // A 500x500 frame with a 90-degree field of view (half-angle tangent
    // exactly 1.0): the center ray passes through the sphere's center and
    // shades to the ambient white; a corner ray points far outside the
    // sphere's angular radius and shades to the background gradient.
    let scene = single_sphere_scene();
    let grid = render(&scene, 500, 500, SCALE);
    assert_eq!(grid.len(), 250_000);

    let center = grid[250 * 500 + 250];
    assert_eq!(center, Vec3::new(SCALE, SCALE, SCALE));

    let corner = grid[0];
    assert_ne!(corner, Vec3::new(SCALE, SCALE, SCALE));
    // The background puts the ray direction's vertical component on all
    // three channels; at the top of the image it is positive.
    assert_eq!(corner.x, corner.y);
    assert_eq!(corner.y, corner.z);
    assert!(corner.y > 0);
}

#[test]
fn rendering_twice_is_bit_identical() {
    // The full scene of the demo renderer, in fixed point: four spheres
    // (one mirror, one huge ground sphere) and two lights.
    let m_blue = Material::new(Vec3::new(6554, 6554, 26214), 40, 26214, 65536, 6554, 0);
    let m_red = Material::new(Vec3::new(45875, 1311, 3277), 250, 65536, 78643, 13107, 0);
    let m_mirror = Material::new(Vec3::new(65536, 65536, 65536), 1500, 65536, 0, 0, 49152);
    let m_ground = Material::new(Vec3::new(13107, 13107, 13107), 0, 0, 65536, 6554, 11141);
    let mut spheres = Vec::new();
    spheres.push(Sphere::new(Vec3::new(0, -81920, -327680), 65536, m_red));
    spheres.push(Sphere::new(Vec3::new(-131072, -49152, -458752), 78643, m_mirror));
    spheres.push(Sphere::new(Vec3::new(52429, 29491, -262144), 65536, m_blue));
    spheres.push(Sphere::new(Vec3::new(0, -458899456, 0), 458752000, m_ground));
    let mut lights = Vec::new();
    lights.push(PointLight { origin: Vec3::new(524288, 524288, 655360), intensity: 52429 });
    lights.push(PointLight { origin: Vec3::new(-196608, 262144, 327680), intensity: 42598 });
    let scene = Scene { spheres, lights };

    // tan(pi/6) in fixed point, for a 60-degree vertical field of view.
    let tan_half = 37837;
    let first = render(&scene, 64, 48, tan_half);
    let second = render(&scene, 64, 48, tan_half);
    assert_eq!(first.len(), 64 * 48);
    assert_eq!(first, second);
}

#[test]
fn empty_scene_renders_sky_gradient_row_major() {
    // With nothing to hit, every pixel is the background: the ray
    // direction's vertical component on all channels. Row 0 is the top of
    // the image (looking up, positive), the last row the bottom (negative).
    let scene = Scene { spheres: Vec::new(), lights: Vec::new() };
    let grid = render(&scene, 3, 2, SCALE);
    assert_eq!(grid.len(), 6);
    for p in &grid {
        assert_eq!(p.x, p.y);
        assert_eq!(p.y, p.z);
    }
    // Row-major: the top row occupies indices 0..3, the bottom row 3..6.
    assert!(grid[0].y > 0, "top row should look upward, got {:?}", grid[0]);
    assert!(grid[3].y < 0, "bottom row should look downward, got {:?}", grid[3]);
}

#[test]
fn quantize_clamps_and_scales() {
    assert_eq!(quantize_channel(-5), 0);
    assert_eq!(quantize_channel(0), 0);
    assert_eq!(quantize_channel(SCALE / 2), 127);
    assert_eq!(quantize_channel(SCALE - 1), 254);
    assert_eq!(quantize_channel(SCALE), 255);
    // Over-bright channels clamp to full intensity rather than wrapping.
    assert_eq!(quantize_channel(2 * SCALE), 255);
}
