//! Rays: an origin and a direction, evaluated at a scalar parameter.

use vstd::prelude::*;
use crate::math::{fmul, SCALE};
use crate::math::mul_fixed;
use crate::vec3::{Vec3, vec_in, dot3, sfit};

verus! {

/// Largest magnitude allowed for a point or sphere-center coordinate.
pub const COORD_LIMIT: i128 = 0x2000_0000_0000;

/// Largest magnitude allowed for a direction component.
pub const DIR_LIMIT: i128 = 0x400_0000;

/// Upper bound on intersection parameters; stands in for "no far bound".
pub const T_LIMIT: i128 = 0x4_0000_0000_0000;

#[derive(Clone, Copy, Debug, PartialEq, Eq, Structural)]
pub struct Ray {
    pub origin: Vec3,
    pub direction: Vec3,
}

/// A ray the intersection routines accept: bounded coordinates and a
/// direction of length at least one.
pub open spec fn ray_wf(r: Ray) -> bool {
    &&& vec_in(r.origin, COORD_LIMIT as int)
    &&& vec_in(r.direction, DIR_LIMIT as int)
    &&& dot3(r.direction, r.direction) >= SCALE
}

/// The point `origin + direction * t`, in the fixed-point model.
pub open spec fn ray_at_spec(r: Ray, t: int) -> Vec3 {
    Vec3 {
        x: (r.origin.x + fmul(r.direction.x as int, t)) as i128,
        y: (r.origin.y + fmul(r.direction.y as int, t)) as i128,
        z: (r.origin.z + fmul(r.direction.z as int, t)) as i128,
    }
}

impl Ray {
    pub fn new(origin: Vec3, direction: Vec3) -> (r: Ray)
        ensures
            r == (Ray { origin, direction }),
    {
        Ray { origin, direction }
    }

    /// The point the ray reaches at parameter `t`.
    pub fn at(&self, t: i128) -> (p: Vec3)
        requires
            sfit(self.direction.x * t),
            sfit(self.direction.y * t),
            sfit(self.direction.z * t),
            sfit(self.origin.x + fmul(self.direction.x as int, t as int)),
            sfit(self.origin.y + fmul(self.direction.y as int, t as int)),
            sfit(self.origin.z + fmul(self.direction.z as int, t as int)),
        ensures
            p.x == self.origin.x + fmul(self.direction.x as int, t as int),
            p.y == self.origin.y + fmul(self.direction.y as int, t as int),
            p.z == self.origin.z + fmul(self.direction.z as int, t as int),
            p == ray_at_spec(*self, t as int),
    {
        let d = self.direction.scale(t);
        self.origin.add(&d)
    }
}

} // verus!
