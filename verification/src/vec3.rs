//! 3-D vectors over fixed-point scalars.
//!
//! A `Vec3` is used as a point, a direction, and a color alike.  Every
//! operation returns a new value; contracts state the result exactly over the
//! fixed-point model in `math`.

use vstd::prelude::*;
use crate::math::{tdiv, fmul, fdiv, fsqrt, SCALE};
use crate::math::{div_trunc, mul_fixed, div_fixed, sqrt_fixed};
use crate::math::{is_sqrt, lemma_tdiv_sign, lemma_tdiv_shrinks, lemma_sqrt_exists};
use crate::math::{lemma_tdiv_bound, lemma_mul_bound};

verus! {

#[derive(Clone, Copy, Debug, PartialEq, Eq, Structural)]
pub struct Vec3 {
    pub x: i128,
    pub y: i128,
    pub z: i128,
}

/// `a` stays strictly inside the `i128` range (symmetrically, so that
/// negation is always possible).
pub open spec fn sfit(a: int) -> bool {
    -(i128::MAX as int) <= a <= i128::MAX as int
}

/// Every component of `v` has magnitude at most `c`.
pub open spec fn vec_in(v: Vec3, c: int) -> bool {
    -c <= v.x <= c && -c <= v.y <= c && -c <= v.z <= c
}

/// The raw (unscaled) sum of the componentwise products: `SCALE` times the
/// fixed-point dot product, up to truncation.
pub open spec fn dot3(a: Vec3, b: Vec3) -> int {
    a.x * b.x + a.y * b.y + a.z * b.z
}

/// The fixed-point dot product.
pub open spec fn dot_fixed(a: Vec3, b: Vec3) -> int {
    tdiv(dot3(a, b), SCALE as int)
}

/// The fixed-point squared length.
pub open spec fn len_sq_fixed(v: Vec3) -> int {
    dot_fixed(v, v)
}

/// The fixed-point length.
pub open spec fn len_fixed(v: Vec3) -> int {
    fsqrt(len_sq_fixed(v))
}

/// The vector scaled to (approximately) unit length.
pub open spec fn normalize_spec(v: Vec3) -> Vec3 {
    Vec3 {
        x: fdiv(v.x as int, len_fixed(v)) as i128,
        y: fdiv(v.y as int, len_fixed(v)) as i128,
        z: fdiv(v.z as int, len_fixed(v)) as i128,
    }
}

/// The raw dot product of a vector with itself is a sum of squares.
pub proof fn lemma_dot3_self_nonneg(v: Vec3)
    by (nonlinear_arith)
    ensures
        dot3(v, v) >= 0,
        v.x * v.x <= dot3(v, v),
        v.y * v.y <= dot3(v, v),
        v.z * v.z <= dot3(v, v),
{
}

/// A componentwise bound on two vectors bounds the componentwise products
/// and the raw dot product.
pub proof fn lemma_dot3_bound(a: Vec3, b: Vec3, ca: int, cb: int)
    by (nonlinear_arith)
    requires
        0 <= ca,
        0 <= cb,
        vec_in(a, ca),
        vec_in(b, cb),
    ensures
        -(ca * cb) <= a.x * b.x <= ca * cb,
        -(ca * cb) <= a.y * b.y <= ca * cb,
        -(ca * cb) <= a.z * b.z <= ca * cb,
        -3 * (ca * cb) <= dot3(a, b) <= 3 * (ca * cb),
{
}

/// A vector of squared length at least one has raw dot at least `SCALE`, a
/// length of at least `256` raw units, and a bounded normalization.
pub proof fn lemma_normalize_bound(v: Vec3, cv: int)
    requires
        0 <= cv,
        cv * (SCALE as int) <= i128::MAX as int,
        vec_in(v, cv),
        len_sq_fixed(v) >= 1,
    ensures
        dot3(v, v) >= SCALE,
        len_fixed(v) >= 256,
        is_sqrt(len_sq_fixed(v) * (SCALE as int), len_fixed(v)),
        vec_in(normalize_spec(v), (cv * (SCALE as int)) / 256),
        fdiv(v.x as int, len_fixed(v)) == normalize_spec(v).x,
        fdiv(v.y as int, len_fixed(v)) == normalize_spec(v).y,
        fdiv(v.z as int, len_fixed(v)) == normalize_spec(v).z,
{
    lemma_dot3_self_nonneg(v);
    let d3 = dot3(v, v);
    if d3 < SCALE {
        vstd::arithmetic::div_mod::lemma_basic_div(d3, SCALE as int);
        assert(false);
    }
    let ls = len_sq_fixed(v);
    assert(ls * (SCALE as int) >= SCALE as int) by (nonlinear_arith)
        requires
            ls >= 1,
    ;
    lemma_sqrt_exists(ls * (SCALE as int));
    let len = len_fixed(v);
    assert(len >= 256) by (nonlinear_arith)
        requires
            0 <= len,
            ls * (SCALE as int) >= 65536,
            ls * (SCALE as int) < (len + 1) * (len + 1),
    ;
    lemma_mul_bound(v.x as int, SCALE as int, cv, SCALE as int);
    lemma_mul_bound(v.y as int, SCALE as int, cv, SCALE as int);
    lemma_mul_bound(v.z as int, SCALE as int, cv, SCALE as int);
    lemma_tdiv_bound(v.x as int * (SCALE as int), len, cv * (SCALE as int));
    lemma_tdiv_bound(v.y as int * (SCALE as int), len, cv * (SCALE as int));
    lemma_tdiv_bound(v.z as int * (SCALE as int), len, cv * (SCALE as int));
    vstd::arithmetic::div_mod::lemma_div_is_ordered_by_denominator(cv * (SCALE as int), 256, len);
}

impl Vec3 {
    /// The zero vector.
    pub fn zero() -> (r: Vec3)
        ensures
            r == (Vec3 { x: 0, y: 0, z: 0 }),
    {
        Vec3 { x: 0, y: 0, z: 0 }
    }

    pub fn new(x: i128, y: i128, z: i128) -> (r: Vec3)
        ensures
            r == (Vec3 { x, y, z }),
    {
        Vec3 { x, y, z }
    }

    /// Componentwise sum.
    pub fn add(&self, o: &Vec3) -> (r: Vec3)
        requires
            sfit(self.x + o.x),
            sfit(self.y + o.y),
            sfit(self.z + o.z),
        ensures
            r.x == self.x + o.x,
            r.y == self.y + o.y,
            r.z == self.z + o.z,
    {
        Vec3 { x: self.x + o.x, y: self.y + o.y, z: self.z + o.z }
    }

    /// Componentwise sum, in place.
    pub fn add_assign(&mut self, o: &Vec3)
        requires
            sfit(old(self).x + o.x),
            sfit(old(self).y + o.y),
            sfit(old(self).z + o.z),
        ensures
            final(self).x == old(self).x + o.x,
            final(self).y == old(self).y + o.y,
            final(self).z == old(self).z + o.z,
    {
        self.x = self.x + o.x;
        self.y = self.y + o.y;
        self.z = self.z + o.z;
    }

    /// Componentwise negation.
    pub fn neg(&self) -> (r: Vec3)
        requires
            i128::MIN < self.x,
            i128::MIN < self.y,
            i128::MIN < self.z,
        ensures
            r.x == -self.x,
            r.y == -self.y,
            r.z == -self.z,
    {
        Vec3 { x: -self.x, y: -self.y, z: -self.z }
    }

    /// Fixed-point dot product.
    pub fn dot(&self, b: &Vec3) -> (r: i128)
        requires
            sfit(self.x * b.x),
            sfit(self.y * b.y),
            sfit(self.z * b.z),
            sfit(self.x * b.x + self.y * b.y),
            sfit(dot3(*self, *b)),
        ensures
            r == dot_fixed(*self, *b),
    {
        div_trunc(self.x * b.x + self.y * b.y + self.z * b.z, SCALE)
    }

    /// Fixed-point squared length; never negative.
    pub fn len_squared(&self) -> (r: i128)
        requires
            sfit(self.x * self.x),
            sfit(self.y * self.y),
            sfit(self.z * self.z),
            sfit(self.x * self.x + self.y * self.y),
            sfit(dot3(*self, *self)),
        ensures
            r == len_sq_fixed(*self),
            r >= 0,
    {
        proof {
            lemma_dot3_self_nonneg(*self);
            lemma_tdiv_sign(dot3(*self, *self), SCALE as int);
        }
        self.dot(self)
    }

    /// Fixed-point length; never negative.
    pub fn len(&self) -> (r: i128)
        requires
            sfit(self.x * self.x),
            sfit(self.y * self.y),
            sfit(self.z * self.z),
            sfit(self.x * self.x + self.y * self.y),
            sfit(dot3(*self, *self) * (SCALE as int)),
        ensures
            r == len_fixed(*self),
            r >= 0,
    {
        proof {
            lemma_dot3_self_nonneg(*self);
            let d = dot3(*self, *self);
            assert(d <= i128::MAX as int) by (nonlinear_arith)
                requires
                    d >= 0,
                    d * (SCALE as int) <= i128::MAX as int,
            ;
            lemma_tdiv_sign(d, SCALE as int);
            lemma_tdiv_shrinks(d, SCALE as int, d);
            assert(len_sq_fixed(*self) * (SCALE as int) <= d * (SCALE as int))
                by (nonlinear_arith)
                requires
                    0 <= len_sq_fixed(*self) <= d,
            ;
        }
        let ls = self.len_squared();
        sqrt_fixed(ls)
    }

    /// Cross product.
    pub fn cross(&self, b: &Vec3) -> (r: Vec3)
        requires
            sfit(self.y * b.z),
            sfit(self.z * b.y),
            sfit(self.z * b.x),
            sfit(self.x * b.z),
            sfit(self.x * b.y),
            sfit(self.y * b.x),
            sfit(self.y * b.z - self.z * b.y),
            sfit(self.z * b.x - self.x * b.z),
            sfit(self.x * b.y - self.y * b.x),
        ensures
            r.x == tdiv(self.y * b.z - self.z * b.y, SCALE as int),
            r.y == tdiv(self.z * b.x - self.x * b.z, SCALE as int),
            r.z == tdiv(self.x * b.y - self.y * b.x, SCALE as int),
    {
        Vec3 {
            x: div_trunc(self.y * b.z - self.z * b.y, SCALE),
            y: div_trunc(self.z * b.x - self.x * b.z, SCALE),
            z: div_trunc(self.x * b.y - self.y * b.x, SCALE),
        }
    }

    /// Scale by a fixed-point factor.
    pub fn scale(&self, s: i128) -> (r: Vec3)
        requires
            sfit(self.x * s),
            sfit(self.y * s),
            sfit(self.z * s),
        ensures
            r.x == fmul(self.x as int, s as int),
            r.y == fmul(self.y as int, s as int),
            r.z == fmul(self.z as int, s as int),
    {
        Vec3 { x: mul_fixed(self.x, s), y: mul_fixed(self.y, s), z: mul_fixed(self.z, s) }
    }

    /// Divide by a fixed-point factor.
    pub fn div_scale(&self, s: i128) -> (r: Vec3)
        requires
            s != 0,
            i128::MIN < s,
            sfit(self.x * (SCALE as int)),
            sfit(self.y * (SCALE as int)),
            sfit(self.z * (SCALE as int)),
        ensures
            r.x == fdiv(self.x as int, s as int),
            r.y == fdiv(self.y as int, s as int),
            r.z == fdiv(self.z as int, s as int),
    {
        Vec3 { x: div_fixed(self.x, s), y: div_fixed(self.y, s), z: div_fixed(self.z, s) }
    }

    /// Scale to (approximately) unit length.  The vector must not be shorter
    /// than the smallest representable positive length.
    pub fn normalize(&self) -> (r: Vec3)
        requires
            sfit(self.x * self.x),
            sfit(self.y * self.y),
            sfit(self.z * self.z),
            sfit(self.x * self.x + self.y * self.y),
            sfit(dot3(*self, *self) * (SCALE as int)),
            dot3(*self, *self) >= SCALE,
            sfit(self.x * (SCALE as int)),
            sfit(self.y * (SCALE as int)),
            sfit(self.z * (SCALE as int)),
        ensures
            r.x == fdiv(self.x as int, len_fixed(*self)),
            r.y == fdiv(self.y as int, len_fixed(*self)),
            r.z == fdiv(self.z as int, len_fixed(*self)),
            r == normalize_spec(*self),
            len_fixed(*self) >= 1,
    {
        let len = self.len();
        proof {
            assert(len_sq_fixed(*self) >= 1) by {
                assert(tdiv(dot3(*self, *self), SCALE as int) == dot3(*self, *self) / (
                SCALE as int));
                vstd::arithmetic::div_mod::lemma_div_is_ordered(
                    SCALE as int,
                    dot3(*self, *self),
                    SCALE as int,
                );
                vstd::arithmetic::div_mod::lemma_div_by_self(SCALE as int);
            }
            assert(len_fixed(*self) >= 1) by {
                lemma_sqrt_exists(len_sq_fixed(*self) * (SCALE as int));
                assert(is_sqrt(len_sq_fixed(*self) * (SCALE as int), len_fixed(*self)));
                assert(len_sq_fixed(*self) * (SCALE as int) >= SCALE as int) by (nonlinear_arith)
                    requires
                        len_sq_fixed(*self) >= 1,
                ;
                let n = len_sq_fixed(*self) * (SCALE as int);
                let r = len_fixed(*self);
                assert(r >= 1) by (nonlinear_arith)
                    requires
                        0 <= r,
                        n < (r + 1) * (r + 1),
                        1 <= n,
                ;
            }
        }
        self.div_scale(len)
    }

    /// A vector whose components are uniform in `[min, max)`.
    pub fn random_range(min: i128, max: i128) -> (r: Vec3)
        requires
            min < max,
        ensures
            min <= r.x < max,
            min <= r.y < max,
            min <= r.z < max,
    {
        Vec3 {
            x: crate::rng::rand_range_i128(min, max),
            y: crate::rng::rand_range_i128(min, max),
            z: crate::rng::rand_range_i128(min, max),
        }
    }

    /// A random direction of (approximately) unit length: rejection-sample
    /// the cube, keep a candidate that is long enough to normalize, and give
    /// up on a fixed axis after a bounded number of draws (the chance of
    /// that is negligible).  The result is the normalization of some
    /// admissible draw, or that fixed axis.
    pub fn random_unit() -> (r: Vec3)
        ensures
            vec_in(r, 0x100_0000),
            (exists|v: Vec3|
                {
                    &&& vec_in(v, SCALE as int)
                    &&& len_sq_fixed(v) >= 1
                    &&& r == #[trigger] normalize_spec(v)
                }) || r == (Vec3 { x: 0, y: 0, z: SCALE }),
    {
        let mut attempts: u8 = 0;
        while attempts < 32
            invariant
                attempts <= 32,
            decreases 32 - attempts,
        {
            let v = Vec3::random_range(-SCALE, SCALE);
            proof {
                lemma_dot3_bound(v, v, SCALE as int, SCALE as int);
            }
            let ls = v.len_squared();
            if ls >= 1 {
                proof {
                    lemma_normalize_bound(v, SCALE as int);
                }
                let r = v.normalize();
                proof {
                    assert(vec_in(v, SCALE as int) && len_sq_fixed(v) >= 1 && r
                        == normalize_spec(v));
                }
                return r;
            }
            attempts = attempts + 1;
        }
        Vec3 { x: 0, y: 0, z: SCALE }
    }

    /// A random vector from the unit ball, flipped onto the hemisphere
    /// around `normal` (the flip tests the sample's own dot product); falls
    /// back to the normal itself after a bounded number of rejected draws.
    pub fn random_on_hemisphere(normal: &Vec3) -> (r: Vec3)
        requires
            vec_in(*normal, SCALE as int),
            len_sq_fixed(*normal) <= SCALE,
        ensures
            vec_in(r, SCALE as int),
            len_sq_fixed(r) <= SCALE,
            dot_fixed(r, *normal) >= 0,
    {
        let mut attempts: u8 = 0;
        while attempts < 32
            invariant
                attempts <= 32,
                vec_in(*normal, SCALE as int),
                len_sq_fixed(*normal) <= SCALE,
            decreases 32 - attempts,
        {
            let v = Vec3::random_range(-SCALE, SCALE);
            proof {
                lemma_dot3_bound(v, v, SCALE as int, SCALE as int);
                lemma_dot3_bound(v, *normal, SCALE as int, SCALE as int);
            }
            let ls = v.len_squared();
            if 1 <= ls && ls <= SCALE {
                // Dot product > 0 when pointing into the same hemisphere.
                let d = v.dot(normal);
                if d > 0 {
                    return v;
                } else {
                    let w = v.neg();
                    proof {
                        let s = dot3(v, *normal);
                        assert(dot3(w, *normal) == -s && dot3(w, w) == dot3(v, v))
                            by (nonlinear_arith)
                            requires
                                w.x == -v.x as int && w.y == -v.y as int && w.z == -v.z as int,
                                s == dot3(v, *normal),
                        ;
                        if s <= 0 {
                            lemma_tdiv_sign(-s, SCALE as int);
                        } else {
                            // `d <= 0` while `s > 0` forces `s < SCALE`, so
                            // the flipped dot product truncates to zero.
                            vstd::arithmetic::div_mod::lemma_div_pos_is_pos(s, SCALE as int);
                            assert(s / (SCALE as int) == 0);
                            assert(tdiv(-s, SCALE as int) == -(s / (SCALE as int)));
                        }
                    }
                    return w;
                }
            }
            attempts = attempts + 1;
        }
        // No acceptable draw: the normal lies on its own hemisphere.
        proof {
            lemma_dot3_self_nonneg(*normal);
            lemma_tdiv_sign(dot3(*normal, *normal), SCALE as int);
        }
        *normal
    }
}

} // verus!
