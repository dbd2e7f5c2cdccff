use tracer::vec3::Vec3;
use tracer::ray::Ray;
use tracer::hittable::{HittableList, Object};
use tracer::geometry::{Sphere, Plane};
use tracer::camera::Camera;
use tracer::color::{write_color, lerp_colors};
use tracer::SCALE;

fn simple_world() -> HittableList {
    HittableList {
        list: vec![
            Object::Plane(Plane::new(Vec3::new(0, -SCALE, 0), Vec3::new(0, SCALE, 0))),
            Object::Sphere(Sphere::new(Vec3::new(0, 0, -12 * SCALE), 2 * SCALE)),
        ],
    }
}

#[test]
fn ray_color_zero_depth_is_black() {
    let world = simple_world();
    let ray = Ray::new(Vec3::zero(), Vec3::new(0, 0, -SCALE));
    let c = Camera::ray_color(&ray, &world, 0);
    assert_eq!(c, Vec3::new(0, 0, 0));
}

#[test]
fn averaging_identical_samples_reproduces_sample() {
    // A miss is deterministic: the same ray always sees the same sky color.
    let world = HittableList { list: vec![] };
    let ray = Ray::new(Vec3::zero(), Vec3::new(0, 0, -SCALE));
    let one = Camera::ray_color(&ray, &world, 3);
    let n: u16 = 7;
    let mut acc = Vec3::zero();
    let mut k = 0;
    while k < n {
        acc.add_assign(&Camera::ray_color(&ray, &world, 3));
        k += 1;
    }
    let avg = Camera::average_samples(acc, n);
    assert_eq!(avg, one);
}

#[test]
fn average_samples_truncates_toward_zero() {
    let avg = Camera::average_samples(Vec3::new(300, 601, 902), 3);
    assert_eq!(avg, Vec3::new(100, 200, 300));
}

#[test]
fn gamma_bytes_for_full_and_zero_channels() {
    assert_eq!(write_color(Vec3::new(SCALE, SCALE, SCALE)), (255, 255, 255));
    assert_eq!(write_color(Vec3::new(0, 0, 0)), (0, 0, 0));
}

#[test]
fn gamma_byte_for_quarter_channel() {
    // sqrt(1/4) = 1/2, and half of the byte range is 128.
    assert_eq!(write_color(Vec3::new(SCALE / 4, SCALE / 4, SCALE / 4)), (128, 128, 128));
}

#[test]
fn lerp_midpoint_is_exact() {
    let white = Vec3::new(SCALE, SCALE, SCALE);
    let blue = Vec3::new(SCALE / 2, 45875, SCALE);
    let mid = lerp_colors(SCALE / 2, white, blue);
    assert_eq!(mid, Vec3::new(49152, 55705, SCALE));
}

#[test]
fn lerp_endpoints_are_exact() {
    let white = Vec3::new(SCALE, SCALE, SCALE);
    let blue = Vec3::new(SCALE / 2, 45875, SCALE);
    assert_eq!(lerp_colors(0, white, blue), white);
    assert_eq!(lerp_colors(SCALE, white, blue), blue);
}

#[test]
fn render_dimensions_follow_configuration() {
    // Bounce budget zero: every pixel is exactly black, whatever the scene.
    let mut cam = Camera {
        aspect_ratio: 2 * SCALE,
        image_width: 16,
        samples_per_pixel: 1,
        max_bounces: 0,
        ..Default::default()
    };
    let world = simple_world();
    let image = cam.render(&world);
    assert_eq!(image.len(), 8);
    for row in &image {
        assert_eq!(row.len(), 16);
        for px in row {
            assert_eq!(*px, (0, 0, 0));
        }
    }
}

#[test]
fn center_sphere_dark_corners_background() {
    // A ground plane and one sphere straight ahead of the camera.  With a
    // single bounce the center pixel is the attenuated black of an exhausted
    // bounce budget; the upper corners see only the bright sky gradient; the
    // lower corners land on the (infinite) ground plane.
    let mut cam = Camera {
        aspect_ratio: SCALE,
        image_width: 9,
        samples_per_pixel: 1,
        max_bounces: 1,
        ..Default::default()
    };
    let world = simple_world();
    let image = cam.render(&world);
    assert_eq!(image.len(), 9);
    assert_eq!(image[4].len(), 9);

    // Center pixel: a hit, hence not a background color.
    assert_eq!(image[4][4], (0, 0, 0));

    // Upper corners: the sky gradient, bright in every channel.
    for &(x, y) in [(0usize, 0usize), (8, 0)].iter() {
        let (r, g, b) = image[y][x];
        assert!(r >= 100 && g >= 100 && b >= 100);
    }

    // Lower corners: the ground plane, shaded like the center.
    for &(x, y) in [(0usize, 8usize), (8, 8)].iter() {
        assert_eq!(image[y][x], (0, 0, 0));
    }
}

#[test]
fn ray_through_center_pixel_formula() {
    let mut cam = Camera {
        aspect_ratio: SCALE,
        image_width: 9,
        samples_per_pixel: 1,
        max_bounces: 1,
        ..Default::default()
    };
    cam.initialize();
    let ray = cam.ray_through(4, 4, 0, 0);
    assert_eq!(ray.origin, Vec3::new(0, 0, 0));
    assert_eq!(ray.direction, Vec3::new(-14564, 14564, -655360));
}

#[test]
fn random_range_is_within_bounds() {
    // A one-wide window pins the draw: this fails if the generator handed
    // anything back but a value of the requested range.
    let v = Vec3::random_range(5, 6);
    assert_eq!(v, Vec3::new(5, 5, 5));
    let w = Vec3::random_range(-SCALE, SCALE);
    assert!(-SCALE <= w.x && w.x < SCALE);
    assert!(-SCALE <= w.y && w.y < SCALE);
    assert!(-SCALE <= w.z && w.z < SCALE);
}

#[test]
fn random_unit_is_bounded() {
    let mut k = 0;
    while k < 50 {
        let v = Vec3::random_unit();
        assert!(v.x.abs() <= 0x100_0000);
        assert!(v.y.abs() <= 0x100_0000);
        assert!(v.z.abs() <= 0x100_0000);
        k += 1;
    }
}

#[test]
fn random_on_hemisphere_is_bounded() {
    let n = Vec3::new(0, SCALE, 0);
    let mut k = 0;
    while k < 50 {
        let v = Vec3::random_on_hemisphere(&n);
        assert!(v.x.abs() <= SCALE && v.y.abs() <= SCALE && v.z.abs() <= SCALE);
        k += 1;
    }
}
