//! Concrete surfaces: spheres and infinite planes.

use vstd::prelude::*;
use crate::math::{fmul, fdiv, sqrt_i, SCALE};
use crate::math::{lemma_tdiv_sign, lemma_tdiv_bound, lemma_tdiv_shrinks, lemma_mul_bound,
    lemma_tdiv_monotone, lemma_sqrt_exists, lemma_sqrt_le_of_square_ge, is_sqrt};
use crate::vec3::{Vec3, vec_in, dot3, dot_fixed, len_sq_fixed, lemma_dot3_bound};
use crate::ray::{Ray, ray_wf, ray_at_spec, COORD_LIMIT, DIR_LIMIT, T_LIMIT};
use crate::hittable::{HitRecord, Hittable};

verus! {

/// An implicit sphere: all points at distance `radius` from `center`.
#[derive(Clone, Copy)]
pub struct Sphere {
    pub center: Vec3,
    pub radius: i128,
}

/// Bounds under which the sphere intersection arithmetic cannot overflow.
pub open spec fn sphere_wf(s: Sphere) -> bool {
    &&& vec_in(s.center, COORD_LIMIT as int)
    &&& 1 <= s.radius <= COORD_LIMIT
}

/// Orient `outward` against the ray and assemble the record, as
/// `HitRecord::set_face_normal` does.
pub open spec fn oriented_record(r: Ray, p: Vec3, t: int, outward: Vec3) -> HitRecord {
    let ff = dot_fixed(r.direction, outward) < 0;
    HitRecord {
        p,
        normal: if ff {
            outward
        } else {
            Vec3 { x: (-outward.x) as i128, y: (-outward.y) as i128, z: (-outward.z) as i128 }
        },
        t: t as i128,
        front_face: ff,
    }
}

/// The center shifted against the ray origin.
pub open spec fn sph_oc(s: Sphere, r: Ray) -> Vec3 {
    Vec3 {
        x: (s.center.x - r.origin.x) as i128,
        y: (s.center.y - r.origin.y) as i128,
        z: (s.center.z - r.origin.z) as i128,
    }
}

/// The quadratic coefficient `a`: squared length of the ray direction.
pub open spec fn sph_a(r: Ray) -> int {
    dot_fixed(r.direction, r.direction)
}

/// The half-coefficient `h = dot(direction, center - origin)`.
pub open spec fn sph_h(s: Sphere, r: Ray) -> int {
    dot_fixed(r.direction, sph_oc(s, r))
}

/// The constant coefficient `c = |center - origin|^2 - radius^2`.
pub open spec fn sph_c(s: Sphere, r: Ray) -> int {
    len_sq_fixed(sph_oc(s, r)) - fmul(s.radius as int, s.radius as int)
}

/// The quarter-discriminant `h^2 - a c`.
pub open spec fn sph_delta(s: Sphere, r: Ray) -> int {
    fmul(sph_h(s, r), sph_h(s, r)) - fmul(sph_a(r), sph_c(s, r))
}

/// Square root of the discriminant, in fixed point.
pub open spec fn sph_sqrt_delta(s: Sphere, r: Ray) -> int {
    sqrt_i(sph_delta(s, r) * (SCALE as int))
}

/// The nearer quadratic root `(h - sqrt(delta)) / a`.
pub open spec fn sph_root1(s: Sphere, r: Ray) -> int {
    fdiv(sph_h(s, r) - sph_sqrt_delta(s, r), sph_a(r))
}

/// The farther quadratic root `(h + sqrt(delta)) / a`.
pub open spec fn sph_root2(s: Sphere, r: Ray) -> int {
    fdiv(sph_h(s, r) + sph_sqrt_delta(s, r), sph_a(r))
}

/// The root the intersection reports: the nearer one if it lies strictly
/// inside the window, else the farther one, else none.
pub open spec fn sph_chosen_root(s: Sphere, r: Ray, tmin: int, tmax: int) -> Option<int> {
    if sph_delta(s, r) < 0 {
        None
    } else if tmin < sph_root1(s, r) < tmax {
        Some(sph_root1(s, r))
    } else if tmin < sph_root2(s, r) < tmax {
        Some(sph_root2(s, r))
    } else {
        None
    }
}

/// The record reported for a hit of the sphere at parameter `t`.
pub open spec fn sphere_record(s: Sphere, r: Ray, t: int) -> HitRecord {
    let p = ray_at_spec(r, t);
    let outward = Vec3 {
        x: fdiv(p.x - s.center.x, s.radius as int) as i128,
        y: fdiv(p.y - s.center.y, s.radius as int) as i128,
        z: fdiv(p.z - s.center.z, s.radius as int) as i128,
    };
    oriented_record(r, p, t, outward)
}

/// What `Sphere::hit` reports.
pub open spec fn sphere_hit_spec(s: Sphere, r: Ray, tmin: int, tmax: int) -> Option<HitRecord> {
    match sph_chosen_root(s, r, tmin, tmax) {
        None => None,
        Some(t) => Some(sphere_record(s, r, t)),
    }
}

impl Sphere {
    pub fn new(center: Vec3, radius: i128) -> (s: Sphere)
        requires
            vec_in(center, COORD_LIMIT as int),
            1 <= radius <= COORD_LIMIT,
        ensures
            s == (Sphere { center, radius }),
            sphere_wf(s),
    {
        Sphere { center, radius }
    }
}

impl Hittable for Sphere {
    open spec fn wf(&self) -> bool {
        sphere_wf(*self)
    }

    open spec fn hit_spec(&self, r: Ray, ray_tmin: int, ray_tmax: int) -> Option<HitRecord> {
        sphere_hit_spec(*self, r, ray_tmin, ray_tmax)
    }

    fn hit(&self, r: &Ray, ray_tmin: i128, ray_tmax: i128, rec: &mut HitRecord) -> (b: bool) {
        let ghost tmin = ray_tmin as int;
        let ghost tmax = ray_tmax as int;
        proof {
            lemma_dot3_bound(r.direction, r.direction, DIR_LIMIT as int, DIR_LIMIT as int);
        }
        let neg_o = r.origin.neg();
        let oc = self.center.add(&neg_o);
        proof {
            assert(oc == sph_oc(*self, *r));
            assert(vec_in(oc, 2 * COORD_LIMIT as int));
            lemma_dot3_bound(r.direction, oc, DIR_LIMIT as int, 2 * COORD_LIMIT as int);
            lemma_dot3_bound(oc, oc, 2 * COORD_LIMIT as int, 2 * COORD_LIMIT as int);
        }
        let a = r.direction.len_squared();
        proof {
            // `a >= 1` because the direction has raw squared length >= SCALE.
            vstd::arithmetic::div_mod::lemma_div_is_ordered(
                SCALE as int,
                dot3(r.direction, r.direction),
                SCALE as int,
            );
            vstd::arithmetic::div_mod::lemma_div_by_self(SCALE as int);
            lemma_tdiv_bound(
                dot3(r.direction, r.direction),
                SCALE as int,
                3 * (DIR_LIMIT as int * DIR_LIMIT as int),
            );
            lemma_tdiv_bound(
                dot3(r.direction, oc),
                SCALE as int,
                3 * (DIR_LIMIT as int * (2 * COORD_LIMIT as int)),
            );
            lemma_tdiv_bound(
                dot3(oc, oc),
                SCALE as int,
                3 * ((2 * COORD_LIMIT as int) * (2 * COORD_LIMIT as int)),
            );
            lemma_mul_bound(
                self.radius as int,
                self.radius as int,
                COORD_LIMIT as int,
                COORD_LIMIT as int,
            );
            lemma_tdiv_bound(
                self.radius as int * self.radius as int,
                SCALE as int,
                COORD_LIMIT as int * COORD_LIMIT as int,
            );
        }
        let h = r.direction.dot(&oc);
        let ls_oc = oc.len_squared();
        let rr = crate::math::mul_fixed(self.radius, self.radius);
        let c = ls_oc - rr;
        proof {
            let hb = (3 * (DIR_LIMIT as int * (2 * COORD_LIMIT as int))) / (SCALE as int);
            let cb = (3 * ((2 * COORD_LIMIT as int) * (2 * COORD_LIMIT as int))) / (SCALE as int)
                + (COORD_LIMIT as int * COORD_LIMIT as int) / (SCALE as int);
            let ab = (3 * (DIR_LIMIT as int * DIR_LIMIT as int)) / (SCALE as int);
            lemma_mul_bound(h as int, h as int, hb, hb);
            lemma_mul_bound(a as int, c as int, ab, cb);
            lemma_tdiv_bound(h as int * h as int, SCALE as int, hb * hb);
            lemma_tdiv_bound(a as int * c as int, SCALE as int, ab * cb);
        }
        let hh = crate::math::mul_fixed(h, h);
        let ac = crate::math::mul_fixed(a, c);
        let delta = hh - ac;
        if delta < 0 {
            return false;
        }
        let sqrt_delta = crate::math::sqrt_fixed(delta);
        proof {
            lemma_tdiv_sign(h as int - sqrt_delta as int, a as int);
            lemma_tdiv_sign(h as int + sqrt_delta as int, a as int);
        }
        let mut root = crate::math::div_fixed(h - sqrt_delta, a);
        if root <= ray_tmin || root >= ray_tmax {
            root = crate::math::div_fixed(h + sqrt_delta, a);
            if root <= ray_tmin || root >= ray_tmax {
                proof {
                    assert(sph_chosen_root(*self, *r, tmin, tmax) is None);
                }
                return false;
            }
        }
        proof {
            assert(Some(root as int) == sph_chosen_root(*self, *r, tmin, tmax));
            lemma_dot3_bound(r.direction, r.direction, DIR_LIMIT as int, T_LIMIT as int);
            lemma_mul_bound(r.direction.x as int, root as int, DIR_LIMIT as int, T_LIMIT as int);
            lemma_mul_bound(r.direction.y as int, root as int, DIR_LIMIT as int, T_LIMIT as int);
            lemma_mul_bound(r.direction.z as int, root as int, DIR_LIMIT as int, T_LIMIT as int);
            lemma_tdiv_bound(
                r.direction.x as int * root as int,
                SCALE as int,
                DIR_LIMIT as int * T_LIMIT as int,
            );
            lemma_tdiv_bound(
                r.direction.y as int * root as int,
                SCALE as int,
                DIR_LIMIT as int * T_LIMIT as int,
            );
            lemma_tdiv_bound(
                r.direction.z as int * root as int,
                SCALE as int,
                DIR_LIMIT as int * T_LIMIT as int,
            );
        }
        rec.t = root;
        rec.p = r.at(rec.t);
        proof {
            let pb = COORD_LIMIT as int + (DIR_LIMIT as int * T_LIMIT as int) / (SCALE as int);
            assert(vec_in(rec.p, pb));
            lemma_tdiv_shrinks(
                (rec.p.x - self.center.x) * (SCALE as int),
                self.radius as int,
                (pb + COORD_LIMIT as int) * (SCALE as int),
            );
            lemma_tdiv_shrinks(
                (rec.p.y - self.center.y) * (SCALE as int),
                self.radius as int,
                (pb + COORD_LIMIT as int) * (SCALE as int),
            );
            lemma_tdiv_shrinks(
                (rec.p.z - self.center.z) * (SCALE as int),
                self.radius as int,
                (pb + COORD_LIMIT as int) * (SCALE as int),
            );
        }
        let neg_center = self.center.neg();
        let shifted = rec.p.add(&neg_center);
        let outward_normal = shifted.div_scale(self.radius);
        proof {
            let nb = (COORD_LIMIT as int + (DIR_LIMIT as int * T_LIMIT as int) / (SCALE as int)
                + COORD_LIMIT as int) * (SCALE as int);
            assert(vec_in(outward_normal, nb));
            lemma_dot3_bound(r.direction, outward_normal, DIR_LIMIT as int, nb);
        }
        rec.set_face_normal(r, outward_normal);
        proof {
            assert(*rec == sphere_record(*self, *r, root as int));
        }
        true
    }
}

/// An infinite plane through `point` with the given (unit) normal.
#[derive(Clone, Copy)]
pub struct Plane {
    pub point: Vec3,
    pub normal: Vec3,
}

/// Bounds under which the plane intersection arithmetic cannot overflow;
/// the normal is meant to be unit length, so its components are small.
pub open spec fn plane_wf(pl: Plane) -> bool {
    &&& vec_in(pl.point, COORD_LIMIT as int)
    &&& vec_in(pl.normal, 2 * SCALE as int)
}

/// The plane point shifted against the ray origin.
pub open spec fn pln_shift(pl: Plane, r: Ray) -> Vec3 {
    Vec3 {
        x: (pl.point.x - r.origin.x) as i128,
        y: (pl.point.y - r.origin.y) as i128,
        z: (pl.point.z - r.origin.z) as i128,
    }
}

/// The denominator `dot(normal, direction)`; zero for parallel rays.
pub open spec fn pln_den(pl: Plane, r: Ray) -> int {
    dot_fixed(pl.normal, r.direction)
}

/// The numerator `dot(normal, point - origin)`.
pub open spec fn pln_num(pl: Plane, r: Ray) -> int {
    dot_fixed(pl.normal, pln_shift(pl, r))
}

/// The intersection parameter of a non-parallel ray with the plane.
pub open spec fn pln_t(pl: Plane, r: Ray) -> int {
    fdiv(pln_num(pl, r), pln_den(pl, r))
}

/// What `Plane::hit` reports: parallel rays and parameters outside
/// `(0, ray_tmax)` yield no hit.
pub open spec fn plane_hit_spec(pl: Plane, r: Ray, ray_tmin: int, ray_tmax: int) -> Option<
    HitRecord,
> {
    if pln_den(pl, r) == 0 {
        None
    } else if !(0 < pln_t(pl, r) < ray_tmax) {
        None
    } else {
        Some(oriented_record(r, ray_at_spec(r, pln_t(pl, r)), pln_t(pl, r), pl.normal))
    }
}

impl Plane {
    pub fn new(point: Vec3, normal: Vec3) -> (pl: Plane)
        requires
            vec_in(point, COORD_LIMIT as int),
            vec_in(normal, 2 * SCALE as int),
        ensures
            pl == (Plane { point, normal }),
            plane_wf(pl),
    {
        Plane { point, normal }
    }
}

impl Hittable for Plane {
    open spec fn wf(&self) -> bool {
        plane_wf(*self)
    }

    open spec fn hit_spec(&self, r: Ray, ray_tmin: int, ray_tmax: int) -> Option<HitRecord> {
        plane_hit_spec(*self, r, ray_tmin, ray_tmax)
    }

    fn hit(&self, r: &Ray, ray_tmin: i128, ray_tmax: i128, rec: &mut HitRecord) -> (b: bool) {
        let ghost tmin = ray_tmin as int;
        let ghost tmax = ray_tmax as int;
        proof {
            lemma_dot3_bound(self.normal, r.direction, 2 * SCALE as int, DIR_LIMIT as int);
            lemma_tdiv_bound(
                dot3(self.normal, r.direction),
                SCALE as int,
                3 * (2 * SCALE as int * DIR_LIMIT as int),
            );
        }
        let den = self.normal.dot(&r.direction);
        // A parallel ray never intersects.
        if den == 0 {
            return false;
        }
        let neg_o = r.origin.neg();
        let shifted = self.point.add(&neg_o);
        proof {
            assert(shifted == pln_shift(*self, *r));
            lemma_dot3_bound(self.normal, shifted, 2 * SCALE as int, 2 * COORD_LIMIT as int);
            lemma_tdiv_bound(
                dot3(self.normal, shifted),
                SCALE as int,
                3 * (2 * SCALE as int * (2 * COORD_LIMIT as int)),
            );
        }
        let num = self.normal.dot(&shifted);
        let t = crate::math::div_fixed(num, den);
        if t <= 0 || t >= ray_tmax {
            return false;
        }
        proof {
            lemma_dot3_bound(r.direction, r.direction, DIR_LIMIT as int, T_LIMIT as int);
            lemma_mul_bound(r.direction.x as int, t as int, DIR_LIMIT as int, T_LIMIT as int);
            lemma_mul_bound(r.direction.y as int, t as int, DIR_LIMIT as int, T_LIMIT as int);
            lemma_mul_bound(r.direction.z as int, t as int, DIR_LIMIT as int, T_LIMIT as int);
            lemma_tdiv_bound(
                r.direction.x as int * t as int,
                SCALE as int,
                DIR_LIMIT as int * T_LIMIT as int,
            );
            lemma_tdiv_bound(
                r.direction.y as int * t as int,
                SCALE as int,
                DIR_LIMIT as int * T_LIMIT as int,
            );
            lemma_tdiv_bound(
                r.direction.z as int * t as int,
                SCALE as int,
                DIR_LIMIT as int * T_LIMIT as int,
            );
        }
        rec.t = t;
        rec.p = r.at(t);
        proof {
            lemma_dot3_bound(r.direction, self.normal, DIR_LIMIT as int, 2 * SCALE as int);
        }
        rec.set_face_normal(r, self.normal);
        proof {
            assert(*rec == oriented_record(*r, ray_at_spec(*r, t as int), t as int, self.normal));
        }
        true
    }
}

/// A well-formed ray has quadratic coefficient `a` at least one.
pub proof fn lemma_sph_a_pos(r: Ray)
    requires
        ray_wf(r),
    ensures
        1 <= sph_a(r),
{
    vstd::arithmetic::div_mod::lemma_div_is_ordered(
        SCALE as int,
        dot3(r.direction, r.direction),
        SCALE as int,
    );
    vstd::arithmetic::div_mod::lemma_div_by_self(SCALE as int);
}

/// With a nonnegative discriminant the nearer root is indeed no larger.
pub proof fn lemma_sph_roots_ordered(s: Sphere, r: Ray)
    requires
        ray_wf(r),
        sph_delta(s, r) >= 0,
    ensures
        0 <= sph_sqrt_delta(s, r),
        sph_root1(s, r) <= sph_root2(s, r),
{
    lemma_sph_a_pos(r);
    lemma_sqrt_exists(sph_delta(s, r) * (SCALE as int));
    let sq = sph_sqrt_delta(s, r);
    let h = sph_h(s, r);
    lemma_tdiv_monotone((h - sq) * (SCALE as int), (h + sq) * (SCALE as int), sph_a(r));
}

/// A ray that starts outside a sphere and points away from its center
/// reports no hit in any forward window.
pub proof fn lemma_sphere_points_away(s: Sphere, r: Ray, tmin: int, tmax: int)
    requires
        sphere_wf(s),
        ray_wf(r),
        0 <= tmin,
        dot3(r.direction, sph_oc(s, r)) <= 0,
        len_sq_fixed(sph_oc(s, r)) > fmul(s.radius as int, s.radius as int),
    ensures
        sphere_hit_spec(s, r, tmin, tmax) is None,
{
    let a = sph_a(r);
    let h = sph_h(s, r);
    let c = sph_c(s, r);
    let delta = sph_delta(s, r);
    lemma_sph_a_pos(r);
    lemma_tdiv_sign(dot3(r.direction, sph_oc(s, r)), SCALE as int);
    assert(h <= 0);
    if delta >= 0 {
        assert(0 < a * c) by (nonlinear_arith)
            requires
                1 <= a && 0 < c,
        ;
        lemma_tdiv_sign(a * c, SCALE as int);
        assert(0 <= h * h) by (nonlinear_arith);
        assert(fmul(h, h) == (h * h) / (SCALE as int));
        assert(delta * (SCALE as int) <= ((h * h) / (SCALE as int)) * (SCALE as int));
        assert(delta * (SCALE as int) <= h * h) by {
            vstd::arithmetic::div_mod::lemma_fundamental_div_mod(h * h, SCALE as int);
        }
        lemma_sqrt_exists(delta * (SCALE as int));
        let sq = sph_sqrt_delta(s, r);
        assert(delta * (SCALE as int) <= (-h) * (-h)) by (nonlinear_arith)
            requires
                delta * (SCALE as int) <= h * h,
        ;
        lemma_sqrt_le_of_square_ge(delta * (SCALE as int), sq, -h);
        assert(h + sq <= 0);
        lemma_tdiv_sign((h - sq) * (SCALE as int), a);
        lemma_tdiv_sign((h + sq) * (SCALE as int), a);
        assert(sph_root1(s, r) <= 0 && sph_root2(s, r) <= 0);
    }
}

/// Shrinking the far bound onto a sphere hit keeps exactly that hit.
pub proof fn lemma_sphere_shrink(s: Sphere, r: Ray, tmin: int, tmax: int, t2: int)
    requires
        ray_wf(r),
        sphere_hit_spec(s, r, tmin, tmax) is Some,
        sphere_hit_spec(s, r, tmin, tmax).unwrap().t < t2 <= tmax,
        0 <= tmin,
        tmax <= T_LIMIT,
    ensures
        sphere_hit_spec(s, r, tmin, t2) == sphere_hit_spec(s, r, tmin, tmax),
{
    lemma_sph_roots_ordered(s, r);
    let root = sph_chosen_root(s, r, tmin, tmax).unwrap();
    assert(sphere_hit_spec(s, r, tmin, tmax).unwrap().t == root);
}

/// No sphere hit is reported strictly before the reported one: under a far
/// bound at most the reported parameter the sphere reports nothing.
pub proof fn lemma_sphere_minimal(s: Sphere, r: Ray, tmin: int, tmax: int, t2: int)
    requires
        ray_wf(r),
        sphere_hit_spec(s, r, tmin, tmax) is Some,
        t2 <= sphere_hit_spec(s, r, tmin, tmax).unwrap().t,
        0 <= tmin,
        tmax <= T_LIMIT,
    ensures
        sphere_hit_spec(s, r, tmin, t2) is None,
{
    lemma_sph_roots_ordered(s, r);
    let root = sph_chosen_root(s, r, tmin, tmax).unwrap();
    assert(sphere_hit_spec(s, r, tmin, tmax).unwrap().t == root);
}

/// Shrinking the far bound onto a plane hit keeps exactly that hit.
pub proof fn lemma_plane_shrink(pl: Plane, r: Ray, tmin: int, tmax: int, t2: int)
    requires
        plane_hit_spec(pl, r, tmin, tmax) is Some,
        plane_hit_spec(pl, r, tmin, tmax).unwrap().t < t2 <= tmax,
        0 <= tmin,
        tmax <= T_LIMIT,
    ensures
        plane_hit_spec(pl, r, tmin, t2) == plane_hit_spec(pl, r, tmin, tmax),
{
    assert(plane_hit_spec(pl, r, tmin, tmax).unwrap().t == pln_t(pl, r));
}

/// No plane hit is reported strictly before the reported one.
pub proof fn lemma_plane_minimal(pl: Plane, r: Ray, tmin: int, tmax: int, t2: int)
    requires
        plane_hit_spec(pl, r, tmin, tmax) is Some,
        t2 <= plane_hit_spec(pl, r, tmin, tmax).unwrap().t,
        0 <= tmin,
        tmax <= T_LIMIT,
    ensures
        plane_hit_spec(pl, r, tmin, t2) is None,
{
    assert(plane_hit_spec(pl, r, tmin, tmax).unwrap().t == pln_t(pl, r));
}

} // verus!
