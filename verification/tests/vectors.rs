use tracer::vec3::Vec3;
use tracer::SCALE;

#[test]
fn zero_and_new() {
    assert_eq!(Vec3::zero(), Vec3::new(0, 0, 0));
    let v = Vec3::new(1, -2, 3);
    assert_eq!((v.x, v.y, v.z), (1, -2, 3));
}

#[test]
fn add_neg_and_add_assign() {
    let a = Vec3::new(SCALE, 2 * SCALE, -3 * SCALE);
    let b = Vec3::new(10, -20, 30);
    assert_eq!(a.add(&b), Vec3::new(SCALE + 10, 2 * SCALE - 20, -3 * SCALE + 30));
    assert_eq!(a.neg(), Vec3::new(-SCALE, -2 * SCALE, 3 * SCALE));
    let mut c = a;
    c.add_assign(&b);
    assert_eq!(c, a.add(&b));
}

#[test]
fn scale_and_div_scale() {
    let a = Vec3::new(SCALE, -2 * SCALE, 3 * SCALE);
    assert_eq!(a.scale(SCALE / 2), Vec3::new(SCALE / 2, -SCALE, 3 * SCALE / 2));
    assert_eq!(a.div_scale(2 * SCALE), Vec3::new(SCALE / 2, -SCALE, 3 * SCALE / 2));
}

#[test]
fn dot_is_exact() {
    let a = Vec3::new(SCALE, 2 * SCALE, 3 * SCALE);
    let b = Vec3::new(4 * SCALE, 5 * SCALE, 6 * SCALE);
    assert_eq!(a.dot(&b), 32 * SCALE);
}

#[test]
fn cross_of_axes() {
    let x = Vec3::new(SCALE, 0, 0);
    let y = Vec3::new(0, SCALE, 0);
    assert_eq!(x.cross(&y), Vec3::new(0, 0, SCALE));
    assert_eq!(y.cross(&x), Vec3::new(0, 0, -SCALE));
}

#[test]
fn len_of_pythagorean_triple() {
    let v = Vec3::new(3 * SCALE, 4 * SCALE, 0);
    assert_eq!(v.len_squared(), 25 * SCALE);
    assert_eq!(v.len(), 5 * SCALE);
}

#[test]
fn normalize_truncates_toward_zero() {
    let v = Vec3::new(3 * SCALE, 4 * SCALE, 0);
    // 3/5 and 4/5 of one, rounded toward zero in the last fixed-point digit.
    assert_eq!(v.normalize(), Vec3::new(39321, 52428, 0));
    let unit = Vec3::new(0, 0, -SCALE);
    assert_eq!(unit.normalize(), unit);
}
