//! The surface-intersection protocol: hit records and the `Hittable` trait.

use vstd::prelude::*;
use crate::math::{tdiv, SCALE};
use crate::math::lemma_tdiv_sign;
use crate::vec3::{Vec3, vec_in, dot3, dot_fixed, sfit};
use crate::ray::{Ray, ray_wf, T_LIMIT};
use crate::geometry::{Sphere, Plane};

verus! {

/// Magnitude bound on the coordinates of a reported hit point.
pub const POINT_LIMIT: i128 = 0x4000_0000_0000_0000;

/// Magnitude bound on the components of a reported hit normal.
pub const NORMAL_LIMIT: i128 = 0x40000_0000_0000_0000_0000;

/// The result of a successful ray-surface intersection.
#[derive(Clone, Copy, Debug, PartialEq, Eq, Structural)]
pub struct HitRecord {
    pub p: Vec3,
    pub normal: Vec3,
    pub t: i128,
    pub front_face: bool,
}

impl Default for HitRecord {
    fn default() -> (r: Self)
        ensures
            r == (HitRecord {
                p: Vec3 { x: 0, y: 0, z: 0 },
                normal: Vec3 { x: 0, y: 0, z: 0 },
                t: 0,
                front_face: true,
            }),
    {
        HitRecord {
            p: Vec3 { x: 0, y: 0, z: 0 },
            normal: Vec3 { x: 0, y: 0, z: 0 },
            t: 0,
            front_face: true,
        }
    }
}

impl HitRecord {
    /// Orient `outward_normal` against the incoming ray: the stored normal
    /// always satisfies `dot(ray.direction, normal) <= 0`.
    pub fn set_face_normal(&mut self, r: &Ray, outward_normal: Vec3)
        requires
            sfit(r.direction.x * outward_normal.x),
            sfit(r.direction.y * outward_normal.y),
            sfit(r.direction.z * outward_normal.z),
            sfit(r.direction.x * outward_normal.x + r.direction.y * outward_normal.y),
            sfit(dot3(r.direction, outward_normal)),
            i128::MIN < outward_normal.x,
            i128::MIN < outward_normal.y,
            i128::MIN < outward_normal.z,
        ensures
            final(self).p == old(self).p,
            final(self).t == old(self).t,
            final(self).front_face == (dot_fixed(r.direction, outward_normal) < 0),
            final(self).normal.x == if final(self).front_face {
                outward_normal.x as int
            } else {
                -outward_normal.x as int
            },
            final(self).normal.y == if final(self).front_face {
                outward_normal.y as int
            } else {
                -outward_normal.y as int
            },
            final(self).normal.z == if final(self).front_face {
                outward_normal.z as int
            } else {
                -outward_normal.z as int
            },
            dot_fixed(r.direction, final(self).normal) <= 0,
    {
        let d = r.direction.dot(&outward_normal);
        self.front_face = d < 0;
        if self.front_face {
            self.normal = outward_normal;
        } else {
            self.normal = outward_normal.neg();
        }
        proof {
            let s = dot3(r.direction, outward_normal);
            if !self.front_face {
                assert(dot3(r.direction, self.normal) == -s) by (nonlinear_arith)
                    requires
                        self.normal.x == -outward_normal.x as int,
                        self.normal.y == -outward_normal.y as int,
                        self.normal.z == -outward_normal.z as int,
                        s == dot3(r.direction, outward_normal),
                ;
                if s >= 0 {
                    lemma_tdiv_sign(-s, SCALE as int);
                } else {
                    // tdiv(s, SCALE) == 0 here, so 0 <= -s < SCALE.
                    assert(tdiv(s, SCALE as int) == -((-s) / (SCALE as int)));
                    vstd::arithmetic::div_mod::lemma_div_pos_is_pos(-s, SCALE as int);
                    assert((-s) / (SCALE as int) == 0);
                    assert(tdiv(-s, SCALE as int) == (-s) / (SCALE as int));
                }
            }
        }
    }
}

/// Anything a ray can hit within a parameter window.
pub trait Hittable {
    /// The well-formedness bounds the intersection routine needs.
    spec fn wf(&self) -> bool;

    /// What `hit` reports, as a function of the surface, the ray and the
    /// parameter window.
    spec fn hit_spec(&self, r: Ray, ray_tmin: int, ray_tmax: int) -> Option<HitRecord>;

    /// Report the nearest intersection with a parameter inside
    /// `(ray_tmin, ray_tmax)`, if any, in `rec`.
    fn hit(&self, r: &Ray, ray_tmin: i128, ray_tmax: i128, rec: &mut HitRecord) -> (b: bool)
        requires
            self.wf(),
            ray_wf(*r),
            0 <= ray_tmin,
            0 <= ray_tmax <= T_LIMIT,
        ensures
            b == (self.hit_spec(*r, ray_tmin as int, ray_tmax as int) is Some),
            b ==> Some(*final(rec)) == self.hit_spec(*r, ray_tmin as int, ray_tmax as int),
            !b ==> *final(rec) == *old(rec),
            b ==> 0 < final(rec).t < ray_tmax,
            b ==> vec_in(final(rec).p, POINT_LIMIT as int),
            b ==> vec_in(final(rec).normal, NORMAL_LIMIT as int),
    ;
}

/// A surface of the closed set of shapes the scene can hold.
#[derive(Clone, Copy)]
pub enum Object {
    Sphere(Sphere),
    Plane(Plane),
}

impl Hittable for Object {
    open spec fn wf(&self) -> bool {
        match *self {
            Object::Sphere(s) => s.wf(),
            Object::Plane(pl) => pl.wf(),
        }
    }

    open spec fn hit_spec(&self, r: Ray, ray_tmin: int, ray_tmax: int) -> Option<HitRecord> {
        match *self {
            Object::Sphere(s) => s.hit_spec(r, ray_tmin, ray_tmax),
            Object::Plane(pl) => pl.hit_spec(r, ray_tmin, ray_tmax),
        }
    }

    fn hit(&self, r: &Ray, ray_tmin: i128, ray_tmax: i128, rec: &mut HitRecord) -> (b: bool) {
        match self {
            Object::Sphere(s) => s.hit(r, ray_tmin, ray_tmax, rec),
            Object::Plane(pl) => pl.hit(r, ray_tmin, ray_tmax, rec),
        }
    }
}

/// An ordered collection of surfaces, itself a surface.
pub struct HittableList {
    pub list: Vec<Object>,
}

/// The best hit after testing the first `n` members left to right, each
/// against the window shrunk to the best parameter found so far.
pub open spec fn scan_hit(objs: Seq<Object>, r: Ray, tmin: int, tmax: int, n: int) -> Option<
    HitRecord,
>
    decreases n,
{
    if n <= 0 {
        None
    } else {
        let prev = scan_hit(objs, r, tmin, tmax, n - 1);
        let bound = match prev {
            Some(h) => h.t as int,
            None => tmax,
        };
        match objs[n - 1].hit_spec(r, tmin, bound) {
            Some(h2) => Some(h2),
            None => prev,
        }
    }
}

impl Hittable for HittableList {
    open spec fn wf(&self) -> bool {
        forall|i: int| 0 <= i < self.list@.len() ==> (#[trigger] self.list@[i]).wf()
    }

    open spec fn hit_spec(&self, r: Ray, ray_tmin: int, ray_tmax: int) -> Option<HitRecord> {
        scan_hit(self.list@, r, ray_tmin, ray_tmax, self.list@.len() as int)
    }

    fn hit(&self, r: &Ray, ray_tmin: i128, ray_tmax: i128, rec: &mut HitRecord) -> (b: bool) {
        let ghost rec0 = *rec;
        let ghost tmin = ray_tmin as int;
        let ghost tmax = ray_tmax as int;
        let mut temp_record = HitRecord::default();
        let mut has_hit = false;
        let mut closest = ray_tmax;
        let mut i: usize = 0;
        while i < self.list.len()
            invariant
                self.wf(),
                ray_wf(*r),
                0 <= ray_tmin,
                0 <= ray_tmax <= T_LIMIT,
                tmin == ray_tmin as int,
                tmax == ray_tmax as int,
                0 <= i <= self.list@.len(),
                has_hit == (scan_hit(self.list@, *r, tmin, tmax, i as int) is Some),
                has_hit ==> Some(*rec) == scan_hit(self.list@, *r, tmin, tmax, i as int),
                has_hit ==> closest == rec.t && 0 < closest < ray_tmax,
                has_hit ==> vec_in(rec.p, POINT_LIMIT as int) && vec_in(
                    rec.normal,
                    NORMAL_LIMIT as int,
                ),
                !has_hit ==> closest == ray_tmax && *rec == rec0,
            decreases self.list@.len() - i,
        {
            let object = &self.list[i];
            let ghost prev = scan_hit(self.list@, *r, tmin, tmax, i as int);
            let ghost old_closest = closest as int;
            let hit_i = object.hit(r, ray_tmin, closest, &mut temp_record);
            proof {
                assert(old_closest == (match prev {
                    Some(h) => h.t as int,
                    None => tmax,
                }));
                assert(scan_hit(self.list@, *r, tmin, tmax, (i + 1) as int) == (
                match object.hit_spec(*r, tmin, old_closest) {
                    Some(h2) => Some(h2),
                    None => prev,
                }));
            }
            if hit_i {
                has_hit = true;
                closest = temp_record.t;
                *rec = temp_record;
            }
            i = i + 1;
        }
        has_hit
    }
}

/// Shrinking the far bound onto a reported hit keeps exactly that hit.
pub proof fn lemma_object_shrink(o: Object, r: Ray, tmin: int, tmax: int, t2: int)
    requires
        ray_wf(r),
        o.hit_spec(r, tmin, tmax) is Some,
        o.hit_spec(r, tmin, tmax).unwrap().t < t2 <= tmax,
        0 <= tmin,
        tmax <= T_LIMIT,
    ensures
        o.hit_spec(r, tmin, t2) == o.hit_spec(r, tmin, tmax),
{
    match o {
        Object::Sphere(s) => crate::geometry::lemma_sphere_shrink(s, r, tmin, tmax, t2),
        Object::Plane(pl) => crate::geometry::lemma_plane_shrink(pl, r, tmin, tmax, t2),
    }
}

/// No hit of a surface lies strictly before the one it reports.
pub proof fn lemma_object_minimal(o: Object, r: Ray, tmin: int, tmax: int, t2: int)
    requires
        ray_wf(r),
        o.hit_spec(r, tmin, tmax) is Some,
        t2 <= o.hit_spec(r, tmin, tmax).unwrap().t,
        0 <= tmin,
        tmax <= T_LIMIT,
    ensures
        o.hit_spec(r, tmin, t2) is None,
{
    match o {
        Object::Sphere(s) => crate::geometry::lemma_sphere_minimal(s, r, tmin, tmax, t2),
        Object::Plane(pl) => crate::geometry::lemma_plane_minimal(pl, r, tmin, tmax, t2),
    }
}

/// Over two overlapping surfaces along one ray, the aggregate search
/// reports the hit with the strictly smaller parameter.
pub proof fn lemma_pair_nearest(o1: Object, o2: Object, r: Ray, tmin: int, tmax: int)
    requires
        ray_wf(r),
        0 <= tmin,
        tmax <= T_LIMIT,
        o1.hit_spec(r, tmin, tmax) is Some,
        o2.hit_spec(r, tmin, tmax) is Some,
        o1.hit_spec(r, tmin, tmax).unwrap().t != o2.hit_spec(r, tmin, tmax).unwrap().t,
    ensures
        scan_hit(seq![o1, o2], r, tmin, tmax, 2) is Some,
        scan_hit(seq![o1, o2], r, tmin, tmax, 2).unwrap().t == if o1.hit_spec(
            r,
            tmin,
            tmax,
        ).unwrap().t < o2.hit_spec(r, tmin, tmax).unwrap().t {
            o1.hit_spec(r, tmin, tmax).unwrap().t
        } else {
            o2.hit_spec(r, tmin, tmax).unwrap().t
        },
{
    let objs = seq![o1, o2];
    let h1 = o1.hit_spec(r, tmin, tmax).unwrap();
    let h2 = o2.hit_spec(r, tmin, tmax).unwrap();
    assert(scan_hit(objs, r, tmin, tmax, 0) is None);
    assert(scan_hit(objs, r, tmin, tmax, 1) == Some(h1));
    if h2.t < h1.t {
        lemma_object_shrink(o2, r, tmin, tmax, h1.t as int);
        assert(scan_hit(objs, r, tmin, tmax, 2) == Some(h2));
    } else {
        lemma_object_minimal(o2, r, tmin, tmax, h1.t as int);
        assert(scan_hit(objs, r, tmin, tmax, 2) == Some(h1));
    }
}

} // verus!
