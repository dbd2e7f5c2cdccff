use tracer::vec3::Vec3;
use tracer::ray::{Ray, T_LIMIT};
use tracer::hittable::{HitRecord, Hittable, HittableList, Object};
use tracer::geometry::{Sphere, Plane};
use tracer::SCALE;

#[test]
fn gt0() {
    let mut rec = HitRecord::default();
    let ray = Ray::new(Vec3::zero(), Vec3::zero());
    let normal = Vec3::new(-SCALE, SCALE, 0).normalize();
    rec.set_face_normal(&ray, normal);
}

#[test]
fn face_normal_points_against_ray() {
    let mut rec = HitRecord::default();
    let ray = Ray::new(Vec3::zero(), Vec3::new(0, 0, -SCALE));
    // Outward normal along the ray: must be flipped.
    rec.set_face_normal(&ray, Vec3::new(0, 0, -SCALE));
    assert!(!rec.front_face);
    assert_eq!(rec.normal, Vec3::new(0, 0, SCALE));
    assert!(ray.direction.dot(&rec.normal) <= 0);
    // Outward normal against the ray: kept as is.
    rec.set_face_normal(&ray, Vec3::new(0, 0, SCALE));
    assert!(rec.front_face);
    assert_eq!(rec.normal, Vec3::new(0, 0, SCALE));
    assert!(ray.direction.dot(&rec.normal) <= 0);
}

#[test]
fn sphere_head_on_hit_distance_is_radius() {
    // A ray from outside the sphere aimed at its center.
    let sphere = Sphere::new(Vec3::new(0, 0, -3 * SCALE), SCALE);
    let ray = Ray::new(Vec3::zero(), Vec3::new(0, 0, -SCALE));
    let mut rec = HitRecord::default();
    let hit = sphere.hit(&ray, 0, T_LIMIT, &mut rec);
    assert!(hit);
    assert!(rec.t > 0);
    assert_eq!(rec.t, 2 * SCALE);
    assert_eq!(rec.p, Vec3::new(0, 0, -2 * SCALE));
    // The hit point lies at exactly one radius from the center.
    let to_center = rec.p.add(&sphere.center.neg());
    assert_eq!(to_center.len(), sphere.radius);
    assert!(rec.front_face);
    assert_eq!(rec.normal, Vec3::new(0, 0, SCALE));
}

#[test]
fn sphere_ray_pointing_away_misses() {
    let sphere = Sphere::new(Vec3::new(0, 0, -3 * SCALE), SCALE);
    let ray = Ray::new(Vec3::zero(), Vec3::new(0, 0, SCALE));
    let mut rec = HitRecord::default();
    assert!(!sphere.hit(&ray, 0, T_LIMIT, &mut rec));
}

#[test]
fn sphere_lateral_miss() {
    let sphere = Sphere::new(Vec3::new(3 * SCALE, 0, -3 * SCALE), SCALE);
    let ray = Ray::new(Vec3::zero(), Vec3::new(0, 0, -SCALE));
    let mut rec = HitRecord::default();
    assert!(!sphere.hit(&ray, 0, T_LIMIT, &mut rec));
}

#[test]
fn plane_unit_hit() {
    // The plane {point: (0,-1,0), normal: (0,1,0)} and the ray straight down.
    let plane = Plane::new(Vec3::new(0, -SCALE, 0), Vec3::new(0, SCALE, 0));
    let ray = Ray::new(Vec3::zero(), Vec3::new(0, -SCALE, 0));
    let mut rec = HitRecord::default();
    let hit = plane.hit(&ray, 0, T_LIMIT, &mut rec);
    assert!(hit);
    assert_eq!(rec.t, SCALE);
    assert_eq!(rec.p, Vec3::new(0, -SCALE, 0));
}

#[test]
fn plane_parallel_ray_misses() {
    let plane = Plane::new(Vec3::new(0, -SCALE, 0), Vec3::new(0, SCALE, 0));
    let ray = Ray::new(Vec3::zero(), Vec3::new(SCALE, 0, 0));
    let mut rec = HitRecord::default();
    assert!(!plane.hit(&ray, 0, T_LIMIT, &mut rec));
}

#[test]
fn plane_behind_ray_misses() {
    let plane = Plane::new(Vec3::new(0, -SCALE, 0), Vec3::new(0, SCALE, 0));
    let ray = Ray::new(Vec3::zero(), Vec3::new(0, SCALE, 0));
    let mut rec = HitRecord::default();
    assert!(!plane.hit(&ray, 0, T_LIMIT, &mut rec));
}

#[test]
fn aggregate_reports_nearer_of_two_overlapping() {
    // Two spheres on the same axis; the nearer one wins, in either order.
    let near = Object::Sphere(Sphere::new(Vec3::new(0, 0, -3 * SCALE), SCALE));
    let far = Object::Sphere(Sphere::new(Vec3::new(0, 0, -6 * SCALE), SCALE));
    let ray = Ray::new(Vec3::zero(), Vec3::new(0, 0, -SCALE));

    let world = HittableList { list: vec![far, near] };
    let mut rec = HitRecord::default();
    assert!(world.hit(&ray, 0, T_LIMIT, &mut rec));
    assert_eq!(rec.t, 2 * SCALE);

    let world2 = HittableList { list: vec![near, far] };
    let mut rec2 = HitRecord::default();
    assert!(world2.hit(&ray, 0, T_LIMIT, &mut rec2));
    assert_eq!(rec2.t, 2 * SCALE);
}

#[test]
fn aggregate_empty_reports_nothing() {
    let world = HittableList { list: vec![] };
    let ray = Ray::new(Vec3::zero(), Vec3::new(0, 0, -SCALE));
    let mut rec = HitRecord::default();
    assert!(!world.hit(&ray, 0, T_LIMIT, &mut rec));
}

#[test]
fn aggregate_equal_parameter_keeps_a_hit() {
    // A plane and a sphere touching the same point at the same parameter.
    let plane = Object::Plane(Plane::new(Vec3::new(0, 0, -2 * SCALE), Vec3::new(0, 0, SCALE)));
    let sphere = Object::Sphere(Sphere::new(Vec3::new(0, 0, -3 * SCALE), SCALE));
    let ray = Ray::new(Vec3::zero(), Vec3::new(0, 0, -SCALE));
    let world = HittableList { list: vec![plane, sphere] };
    let mut rec = HitRecord::default();
    assert!(world.hit(&ray, 0, T_LIMIT, &mut rec));
    assert_eq!(rec.t, 2 * SCALE);
    assert_eq!(rec.p, Vec3::new(0, 0, -2 * SCALE));
}

#[test]
fn hit_window_excludes_near_and_far() {
    let sphere = Sphere::new(Vec3::new(0, 0, -3 * SCALE), SCALE);
    let ray = Ray::new(Vec3::zero(), Vec3::new(0, 0, -SCALE));
    let mut rec = HitRecord::default();
    // The only roots are t = 2 and t = 4; a window past both sees nothing.
    assert!(!sphere.hit(&ray, 5 * SCALE, T_LIMIT, &mut rec));
    // A window in between picks the far root.
    assert!(sphere.hit(&ray, 3 * SCALE, T_LIMIT, &mut rec));
    assert_eq!(rec.t, 4 * SCALE);
    assert!(!rec.front_face);
}
