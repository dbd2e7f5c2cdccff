//! The camera: viewport geometry, per-pixel sampling and the recursive
//! shading function.

use vstd::prelude::*;
use crate::math::{tdiv, fmul, fdiv, SCALE};
use crate::math::{div_trunc, mul_fixed, div_fixed};
use crate::math::{lemma_tdiv_sign, lemma_tdiv_bound, lemma_tdiv_shrinks, lemma_tdiv_multiple,
    lemma_tdiv_monotone, lemma_mul_bound};
use crate::vec3::{Vec3, vec_in, dot3, len_sq_fixed, normalize_spec, lemma_dot3_bound,
    lemma_normalize_bound};
use crate::ray::{Ray, ray_wf, COORD_LIMIT, DIR_LIMIT, T_LIMIT};
use crate::hittable::{HitRecord, Hittable, HittableList};
use crate::color::{Color, color_ok, lerp_spec, lerp_colors, write_color, quantize_spec,
    lemma_lerp_term, lemma_quantize_zero};

verus! {

/// Lower intersection bound for shading rays: about 0.001, so a bounce does
/// not immediately re-hit the surface it starts on.
pub const ACNE_EPS: i128 = 66;

/// One half, as a fixed-point factor: the bounce reflectance.
pub const HALF: i128 = 32768;

/// Largest magnitude allowed for a configured camera center coordinate.
pub const CENTER_LIMIT: i128 = 0x4000_0000;

/// Largest accepted image width, in pixels: a limit of the fixed-point
/// viewport model, far beyond common render sizes.
pub const WIDTH_LIMIT: u32 = 65536;

/// Smallest accepted aspect ratio, 1/32, as a fixed-point scalar: with the
/// matching upper cap it keeps the viewport within the direction bounds the
/// intersection arithmetic admits.
pub const ASPECT_MIN: i128 = 2048;

/// Largest accepted aspect ratio, 32.
pub const ASPECT_MAX: i128 = 0x20_0000;

/// Viewport height: 4 length units.
pub const VIEWPORT_H: i128 = 262144;

pub struct Camera {
    pub aspect_ratio: i128,
    pub image_width: u32,
    pub samples_per_pixel: u16,
    pub max_bounces: u8,
    pub image_height: Option<u32>,
    pub center: Option<Vec3>,
    pub pixel00_loc: Option<Vec3>,
    pub pixel_delta_u: Option<Vec3>,
    pub pixel_delta_v: Option<Vec3>,
}

impl Default for Camera {
    /// An unconfigured camera: everything zero or not yet derived.
    fn default() -> (cam: Camera)
        ensures
            cam.aspect_ratio == 0 && cam.image_width == 0,
            cam.samples_per_pixel == 0 && cam.max_bounces == 0,
            cam.image_height is None && cam.center is None,
            cam.pixel00_loc is None && cam.pixel_delta_u is None && cam.pixel_delta_v is None,
    {
        Camera {
            aspect_ratio: 0,
            image_width: 0,
            samples_per_pixel: 0,
            max_bounces: 0,
            image_height: None,
            center: None,
            pixel00_loc: None,
            pixel_delta_u: None,
            pixel_delta_v: None,
        }
    }
}

/// The image height the configuration derives: `width / aspect_ratio`.
pub open spec fn spec_image_height(cam: Camera) -> int {
    tdiv(cam.image_width as int * SCALE, cam.aspect_ratio as int)
}

/// A renderable configuration: bounded width, an aspect ratio within
/// `[1/32, 32]` that yields at least one pixel row, and a bounded center.
/// The caps are limits of the fixed-point viewport model, not of the scene.
pub open spec fn config_wf(cam: Camera) -> bool {
    &&& 1 <= cam.image_width <= WIDTH_LIMIT
    &&& ASPECT_MIN <= cam.aspect_ratio <= ASPECT_MAX
    &&& 1 <= spec_image_height(cam)
    &&& (cam.center is Some ==> vec_in(cam.center.unwrap(), CENTER_LIMIT as int))
}

/// The camera center once initialized: the configured one, or the origin.
pub open spec fn cam_center(cam: Camera) -> Vec3 {
    match cam.center {
        Some(c) => c,
        None => Vec3 { x: 0, y: 0, z: 0 },
    }
}

/// Viewport width over viewport height, as the configuration derives it.
pub open spec fn cam_ratio(cam: Camera) -> int {
    fdiv(cam.image_width as int * SCALE, spec_image_height(cam) * SCALE)
}

/// The derived viewport width.
pub open spec fn cam_vw(cam: Camera) -> int {
    fmul(VIEWPORT_H as int, cam_ratio(cam))
}

/// The derived pixel-to-pixel step along the viewport's horizontal edge.
pub open spec fn cam_du(cam: Camera) -> Vec3 {
    Vec3 { x: fdiv(cam_vw(cam), cam.image_width as int * SCALE) as i128, y: 0, z: 0 }
}

/// The derived pixel-to-pixel step down the viewport's vertical edge.
pub open spec fn cam_dv(cam: Camera) -> Vec3 {
    Vec3 { x: 0, y: fdiv(-VIEWPORT_H as int, spec_image_height(cam) * SCALE) as i128, z: 0 }
}

/// The derived location of the upper-left pixel: the viewport corner moved
/// to the focal plane and shifted by the center.
pub open spec fn cam_p00(cam: Camera) -> Vec3 {
    Vec3 {
        x: (fmul(-cam_vw(cam), HALF as int) + cam_center(cam).x) as i128,
        y: (fmul(VIEWPORT_H as int, HALF as int) + cam_center(cam).y) as i128,
        z: (-10 * SCALE + cam_center(cam).z) as i128,
    }
}

/// The derived state a render needs: a well-formed configuration with every
/// `Option` holding exactly the value the configuration derives.
pub open spec fn cam_ready(cam: Camera) -> bool {
    &&& config_wf(cam)
    &&& 1 <= spec_image_height(cam) <= 0x20_0000
    &&& cam.image_height == Some(spec_image_height(cam) as u32)
    &&& cam.center is Some
    &&& cam.pixel00_loc == Some(cam_p00(cam))
    &&& cam.pixel_delta_u == Some(cam_du(cam))
    &&& cam.pixel_delta_v == Some(cam_dv(cam))
}

/// The sample direction through pixel `(i, j)`, jittered by `(ox, oy)`.
pub open spec fn cam_sample_dir(cam: Camera, i: int, j: int, ox: int, oy: int) -> Vec3 {
    let p00 = cam.pixel00_loc.unwrap();
    let du = cam.pixel_delta_u.unwrap();
    let dv = cam.pixel_delta_v.unwrap();
    let c = cam.center.unwrap();
    Vec3 {
        x: (p00.x + fmul(du.x as int, i * SCALE + ox) + fmul(dv.x as int, j * SCALE + oy)
            - c.x) as i128,
        y: (p00.y + fmul(du.y as int, i * SCALE + ox) + fmul(dv.y as int, j * SCALE + oy)
            - c.y) as i128,
        z: (p00.z + fmul(du.z as int, i * SCALE + ox) + fmul(dv.z as int, j * SCALE + oy)
            - c.z) as i128,
    }
}

/// A direction the intersection routines accept.
pub open spec fn dir_ok(v: Vec3) -> bool {
    vec_in(v, DIR_LIMIT as int) && len_sq_fixed(v) >= 1
}

/// Every jittered sample direction of a ready camera is one the
/// intersection routines accept: the horizontal reach never exceeds twice
/// the viewport width (itself under eight times the aspect ratio), the
/// vertical reach stays within a few units, and the viewing-axis component
/// is exactly -10 units.
pub proof fn lemma_sample_dir_ok(cam: Camera, i: int, j: int, ox: int, oy: int)
    requires
        cam_ready(cam),
        0 <= i < cam.image_width,
        0 <= j < spec_image_height(cam),
        -HALF <= ox <= HALF,
        -HALF <= oy <= HALF,
    ensures
        0 <= cam_vw(cam) < 0x100_0000,
        0 <= cam_du(cam).x <= cam_vw(cam),
        cam_du(cam).y == 0 && cam_du(cam).z == 0,
        -(4 * SCALE) <= cam_dv(cam).y <= 0,
        cam_dv(cam).x == 0 && cam_dv(cam).z == 0,
        vec_in(cam_p00(cam), 0x4100_0000),
        -cam_vw(cam) <= fmul(cam_du(cam).x as int, i * SCALE + ox) <= cam_vw(cam),
        -(4 * SCALE) <= fmul(cam_dv(cam).y as int, j * SCALE + oy) <= 4 * SCALE,
        fmul(0, i * SCALE + ox) == 0,
        fmul(0, j * SCALE + oy) == 0,
        cam_sample_dir(cam, i, j, ox, oy).x == fmul(-cam_vw(cam), HALF as int) + fmul(
            cam_du(cam).x as int,
            i * SCALE + ox,
        ),
        cam_sample_dir(cam, i, j, ox, oy).y == 2 * SCALE + fmul(
            cam_dv(cam).y as int,
            j * SCALE + oy,
        ),
        cam_sample_dir(cam, i, j, ox, oy).z == -10 * SCALE,
        dir_ok(cam_sample_dir(cam, i, j, ox, oy)),
        dot3(cam_sample_dir(cam, i, j, ox, oy), cam_sample_dir(cam, i, j, ox, oy)) >= SCALE,
{
    let sc = SCALE as int;
    let aspect = cam.aspect_ratio as int;
    let w_f = cam.image_width as int * sc;
    let h = spec_image_height(cam);
    let h_f = h * sc;
    let i_s = i * sc + ox;
    let j_s = j * sc + oy;

    // The derived height satisfies `width < 2 * aspect * height`.
    vstd::arithmetic::div_mod::lemma_fundamental_div_mod(w_f, aspect);
    vstd::arithmetic::div_mod::lemma_mod_bound(w_f, aspect);
    assert(w_f < aspect * h + aspect);
    assert(w_f < 2 * (aspect * h)) by (nonlinear_arith)
        requires
            w_f < aspect * h + aspect,
            1 <= h,
            0 < aspect,
    ;

    // Hence the width-over-height ratio is below twice the aspect ratio.
    let ratio = cam_ratio(cam);
    assert(w_f * sc < h_f * (2 * aspect)) by (nonlinear_arith)
        requires
            w_f < 2 * (aspect * h),
            h_f == h * sc,
            0 < sc,
    ;
    vstd::arithmetic::div_mod::lemma_div_pos_is_pos(w_f * sc, h_f);
    vstd::arithmetic::div_mod::lemma_multiply_divide_lt(w_f * sc, h_f, 2 * aspect);
    assert(0 <= ratio < 2 * aspect);

    // The viewport width is exactly four times the ratio.
    let vw = cam_vw(cam);
    assert(VIEWPORT_H as int * ratio == (4 * ratio) * sc) by (nonlinear_arith)
        requires
            sc == 65536,
    ;
    lemma_tdiv_multiple(4 * ratio, sc);
    assert(vw == 4 * ratio);
    assert(0 <= vw < 0x100_0000);

    // The horizontal step, scaled back up by any admissible column, stays
    // within the viewport width.
    let q = (vw * sc) / w_f;
    vstd::arithmetic::div_mod::lemma_div_pos_is_pos(vw * sc, w_f);
    vstd::arithmetic::div_mod::lemma_div_is_ordered_by_denominator(vw * sc, sc, w_f);
    vstd::arithmetic::div_mod::lemma_div_multiples_vanish(vw, sc);
    assert(sc * vw == vw * sc) by (nonlinear_arith);
    assert(0 <= q <= vw);
    assert(cam_du(cam).x == q);
    vstd::arithmetic::div_mod::lemma_fundamental_div_mod(vw * sc, w_f);
    vstd::arithmetic::div_mod::lemma_mod_bound(vw * sc, w_f);
    assert(i * sc <= w_f - sc) by (nonlinear_arith)
        requires
            i < cam.image_width,
            w_f == cam.image_width as int * sc,
            sc == 65536,
    ;
    assert(-(vw * sc) <= q * i_s <= vw * sc) by (nonlinear_arith)
        requires
            0 <= q <= vw,
            w_f * q + (vw * sc) % w_f == vw * sc,
            0 <= (vw * sc) % w_f,
            -HALF <= i_s <= w_f,
            0 < sc,
            HALF < sc,
            0 <= vw,
    ;
    lemma_tdiv_bound(q * i_s, sc, vw * sc);
    assert(-vw <= fmul(q, i_s) <= vw);

    // The vertical step, scaled back up by any admissible row, stays within
    // the viewport height.
    let m = (4 * sc * sc) / h_f;
    vstd::arithmetic::div_mod::lemma_div_pos_is_pos(4 * sc * sc, h_f);
    vstd::arithmetic::div_mod::lemma_div_is_ordered_by_denominator(4 * sc * sc, sc, h_f);
    assert((4 * sc * sc) / sc == 4 * sc) by {
        vstd::arithmetic::div_mod::lemma_div_multiples_vanish(4 * sc, sc);
        assert(sc * (4 * sc) == 4 * sc * sc) by (nonlinear_arith);
    }
    assert(0 <= m <= 4 * sc);
    assert(cam_dv(cam).y == -m);
    vstd::arithmetic::div_mod::lemma_fundamental_div_mod(4 * sc * sc, h_f);
    vstd::arithmetic::div_mod::lemma_mod_bound(4 * sc * sc, h_f);
    assert(j * sc <= h_f - sc) by (nonlinear_arith)
        requires
            j < h,
            h_f == h * sc,
            sc == 65536,
    ;
    assert(-(4 * sc * sc) <= (-m) * j_s <= 4 * sc * sc) by (nonlinear_arith)
        requires
            0 <= m <= 4 * sc,
            h_f * m + (4 * sc * sc) % h_f == 4 * sc * sc,
            0 <= (4 * sc * sc) % h_f,
            -HALF <= j_s <= h_f,
            0 < sc,
            HALF < sc,
    ;
    lemma_tdiv_bound((-m) * j_s, sc, 4 * sc * sc);
    assert(-(4 * sc) <= fmul(-m, j_s) <= 4 * sc);

    // The fixed components: the half-viewport corner offset, the exact
    // focal height, and the exact viewing-axis depth.
    assert(fmul(0, i_s) == 0 && fmul(0, j_s) == 0) by {
        assert(0 * i_s == 0 && 0 * j_s == 0) by (nonlinear_arith);
        vstd::arithmetic::div_mod::lemma_div_of0(sc);
    }
    assert(-(vw * sc) <= (-vw) * (HALF as int) <= vw * sc) by (nonlinear_arith)
        requires
            0 <= vw,
            0 <= HALF < sc,
    ;
    lemma_tdiv_bound((-vw) * (HALF as int), sc, vw * sc);
    assert(-vw <= fmul(-vw, HALF as int) <= vw);
    assert(VIEWPORT_H as int * (HALF as int) == (2 * sc) * sc) by (nonlinear_arith)
        requires
            sc == 65536,
    ;
    lemma_tdiv_multiple(2 * sc, sc);
    assert(fmul(VIEWPORT_H as int, HALF as int) == 2 * sc);

    // Assemble the direction and its bounds.
    let c = cam.center.unwrap();
    assert(cam.pixel00_loc.unwrap() == cam_p00(cam));
    assert(cam_p00(cam).x == fmul(-vw, HALF as int) + c.x);
    assert(cam_p00(cam).y == 2 * sc + c.y);
    assert(cam_p00(cam).z == -10 * sc + c.z);
    assert(vec_in(cam_p00(cam), 0x4100_0000));
    let d = cam_sample_dir(cam, i, j, ox, oy);
    assert(d.x == fmul(-vw, HALF as int) + fmul(q, i_s));
    assert(d.y == 2 * sc + fmul(-m, j_s));
    assert(d.z == -10 * sc);
    assert(vec_in(d, DIR_LIMIT as int));
    assert(dot3(d, d) >= SCALE) by (nonlinear_arith)
        requires
            d.z == -655360,
            dot3(d, d) == d.x * d.x + d.y * d.y + d.z * d.z,
    ;
    lemma_tdiv_monotone(SCALE as int, dot3(d, d), SCALE as int);
    vstd::arithmetic::div_mod::lemma_div_by_self(SCALE as int);
}

/// The sky: white at the horizon blended to blue at the zenith, driven by
/// the unit direction's height mapped (and clamped) into `[0, 1]`.
pub open spec fn sky_color_spec(r: Ray) -> Vec3 {
    let n = normalize_spec(r.direction);
    let a0 = fmul(n.y + SCALE, HALF as int);
    let a = if a0 < 0 {
        0
    } else if a0 > SCALE {
        SCALE as int
    } else {
        a0
    };
    lerp_spec(
        a,
        Vec3 { x: SCALE, y: SCALE, z: SCALE },
        Vec3 { x: HALF, y: 45875, z: SCALE },
    )
}

/// What one shading call may return: exact black at the recursion floor, the
/// exact sky gradient on a miss, and on a hit either half of a deeper result
/// along some admissible bounce, or black where the bounce degenerated.
pub open spec fn ray_color_rel(r: Ray, world: HittableList, depth: int, c: Vec3) -> bool
    decreases depth, 1int,
{
    if depth <= 0 {
        c == (Vec3 { x: 0, y: 0, z: 0 })
    } else {
        match world.hit_spec(r, ACNE_EPS as int, T_LIMIT as int) {
            None => c == sky_color_spec(r),
            Some(rec) => bounce_rel(world, rec.p, depth, c),
        }
    }
}

/// What shading a hit at `p` may return: half of a deeper result along some
/// admissible bounce direction, or black where the bounce degenerated.
pub open spec fn bounce_rel(world: HittableList, p: Vec3, depth: int, c: Vec3) -> bool
    decreases depth, 0int,
{
    if depth <= 0 {
        c == (Vec3 { x: 0, y: 0, z: 0 })
    } else {
        ||| c == (Vec3 { x: 0, y: 0, z: 0 })
        ||| exists|bounce: Vec3, deeper: Vec3|
            #![trigger dir_ok(bounce), color_ok(deeper)]
            {
                &&& vec_in(p, COORD_LIMIT as int)
                &&& dir_ok(bounce)
                &&& color_ok(deeper)
                &&& ray_color_rel(Ray { origin: p, direction: bounce }, world, depth - 1, deeper)
                &&& c == (Vec3 {
                    x: fmul(deeper.x as int, HALF as int) as i128,
                    y: fmul(deeper.y as int, HALF as int) as i128,
                    z: fmul(deeper.z as int, HALF as int) as i128,
                })
            }
    }
}

/// One admissible shading sample of pixel `(x, y)`: the color of a shading
/// recursion along a ray jittered within half a pixel.
pub open spec fn sample_ok(cam: Camera, world: HittableList, x: int, y: int, c: Vec3) -> bool {
    exists|ox: int, oy: int|
        {
            &&& -HALF <= ox < HALF
            &&& -HALF <= oy < HALF
            &&& ray_color_rel(
                Ray {
                    origin: cam_center(cam),
                    direction: #[trigger] cam_sample_dir(cam, x, y, ox, oy),
                },
                world,
                cam.max_bounces as int,
                c,
            )
        }
}

/// Componentwise sum of a sequence of sample colors.
pub open spec fn sum_colors(cs: Seq<Vec3>) -> (int, int, int)
    decreases cs.len(),
{
    if cs.len() == 0 {
        (0, 0, 0)
    } else {
        let rest = sum_colors(cs.drop_last());
        (rest.0 + cs.last().x, rest.1 + cs.last().y, rest.2 + cs.last().z)
    }
}

/// One finished pixel: a full set of admissible displayable samples whose
/// truncated mean, gamma-corrected and quantized, is the pixel.
pub open spec fn pixel_outcome(
    cam: Camera,
    world: HittableList,
    x: int,
    y: int,
    cs: Seq<Vec3>,
    px: (u8, u8, u8),
) -> bool {
    &&& cs.len() == cam.samples_per_pixel as int
    &&& (forall|k: int|
        0 <= k < cs.len() ==> color_ok(#[trigger] cs[k]) && sample_ok(cam, world, x, y, cs[k]))
    &&& px.0 == quantize_spec(tdiv(sum_colors(cs).0, cam.samples_per_pixel as int))
    &&& px.1 == quantize_spec(tdiv(sum_colors(cs).1, cam.samples_per_pixel as int))
    &&& px.2 == quantize_spec(tdiv(sum_colors(cs).2, cam.samples_per_pixel as int))
}

/// Some full set of admissible samples yields this pixel.
pub open spec fn pixel_rendered(
    cam: Camera,
    world: HittableList,
    x: int,
    y: int,
    px: (u8, u8, u8),
) -> bool {
    exists|cs: Seq<Vec3>| #[trigger] pixel_outcome(cam, world, x, y, cs, px)
}

impl Camera {
    /// Derive the viewport state from the configuration; an already
    /// configured center is kept, a missing one defaults to the origin.
    pub fn initialize(&mut self)
        requires
            config_wf(*old(self)),
        ensures
            final(self).aspect_ratio == old(self).aspect_ratio,
            final(self).image_width == old(self).image_width,
            final(self).samples_per_pixel == old(self).samples_per_pixel,
            final(self).max_bounces == old(self).max_bounces,
            final(self).image_height == Some(spec_image_height(*old(self)) as u32),
            1 <= spec_image_height(*old(self)) <= 0x20_0000,
            final(self).center == Some(cam_center(*old(self))),
            final(self).pixel00_loc == Some(cam_p00(*old(self))),
            final(self).pixel_delta_u == Some(cam_du(*old(self))),
            final(self).pixel_delta_v == Some(cam_dv(*old(self))),
            cam_ready(*final(self)),
    {
        let ghost cam0 = *self;
        let w_f: i128 = (self.image_width as i128) * SCALE;
        proof {
            lemma_tdiv_bound(w_f as int, self.aspect_ratio as int, 0x1_0000_0000);
            vstd::arithmetic::div_mod::lemma_div_is_ordered_by_denominator(
                0x1_0000_0000,
                ASPECT_MIN as int,
                self.aspect_ratio as int,
            );
        }
        let h_raw = div_trunc(w_f, self.aspect_ratio);
        self.image_height = Some(h_raw as u32);
        if self.center.is_none() {
            self.center = Some(Vec3::zero());
        }
        let center = self.center.unwrap();

        // Viewport dimensions.
        let h_f: i128 = h_raw * SCALE;
        proof {
            lemma_tdiv_bound(w_f as int * SCALE, h_f as int, 0x1_0000_0000_0000);
            vstd::arithmetic::div_mod::lemma_div_is_ordered_by_denominator(
                0x1_0000_0000_0000,
                SCALE as int,
                h_f as int,
            );
        }
        let ratio = div_fixed(w_f, h_f);
        proof {
            lemma_tdiv_bound(VIEWPORT_H as int * ratio as int, SCALE as int, 0x4_0000_0000_0000);
        }
        let vw = mul_fixed(VIEWPORT_H, ratio);

        // Pixel-to-pixel deltas along the viewport edges.
        let viewport_u = Vec3::new(vw, 0, 0);
        let viewport_v = Vec3::new(0, -VIEWPORT_H, 0);
        proof {
            lemma_tdiv_bound(vw as int * SCALE, w_f as int, 0x4_0000_0000_0000);
            vstd::arithmetic::div_mod::lemma_div_is_ordered_by_denominator(
                0x4_0000_0000_0000,
                SCALE as int,
                w_f as int,
            );
            vstd::arithmetic::div_mod::lemma_div_of0(w_f as int);
            vstd::arithmetic::div_mod::lemma_div_of0(h_f as int);
        }
        self.pixel_delta_u = Some(viewport_u.div_scale(w_f));
        self.pixel_delta_v = Some(viewport_v.div_scale(h_f));

        // The upper-left pixel.
        proof {
            lemma_tdiv_bound(-vw as int * HALF, SCALE as int, 0x2_0000_0000_0000);
        }
        let corner = Vec3::new(mul_fixed(-vw, HALF), mul_fixed(VIEWPORT_H, HALF), 0);
        let focal_point = Vec3::new(0, 0, -10 * SCALE);
        let shifted = corner.add(&focal_point);
        self.pixel00_loc = Some(shifted.add(&center));
        proof {
            assert(spec_image_height(*self) == spec_image_height(cam0));
            assert(cam_center(*self) == cam_center(cam0));
            assert(ratio == cam_ratio(cam0) && vw == cam_vw(cam0));
            assert(cam_du(*self) == cam_du(cam0) && cam_dv(*self) == cam_dv(cam0));
            assert(cam_p00(*self) == cam_p00(cam0));
        }
    }

    /// The ray from the camera center through the sample point of pixel
    /// `(i, j)` jittered by `(ox, oy)`.
    pub fn ray_through(&self, i: u32, j: u32, ox: i128, oy: i128) -> (ray: Ray)
        requires
            cam_ready(*self),
            i < self.image_width,
            j < self.image_height.unwrap(),
            -HALF <= ox <= HALF,
            -HALF <= oy <= HALF,
        ensures
            ray_wf(ray),
            ray == (Ray {
                origin: cam_center(*self),
                direction: cam_sample_dir(*self, i as int, j as int, ox as int, oy as int),
            }),
    {
        proof {
            lemma_sample_dir_ok(*self, i as int, j as int, ox as int, oy as int);
        }
        let p00 = self.pixel00_loc.unwrap();
        let du = self.pixel_delta_u.unwrap();
        let dv = self.pixel_delta_v.unwrap();
        let center = self.center.unwrap();
        let i_s: i128 = (i as i128) * SCALE + ox;
        let j_s: i128 = (j as i128) * SCALE + oy;
        proof {
            assert(self.image_height.unwrap() == spec_image_height(*self));
            lemma_mul_bound(du.x as int, i_s as int, 0x100_0000, 0x1_0000_8000);
            lemma_mul_bound(du.y as int, i_s as int, 0, 0x1_0000_8000);
            lemma_mul_bound(du.z as int, i_s as int, 0, 0x1_0000_8000);
            lemma_mul_bound(dv.x as int, j_s as int, 0, 0x20_0000_8000);
            lemma_mul_bound(dv.y as int, j_s as int, 0x40000, 0x20_0000_8000);
            lemma_mul_bound(dv.z as int, j_s as int, 0, 0x20_0000_8000);
        }
        let su = du.scale(i_s);
        let sv = dv.scale(j_s);
        let sample = p00.add(&su).add(&sv);
        let neg_c = center.neg();
        let direction = sample.add(&neg_c);
        proof {
            assert(direction == cam_sample_dir(
                *self,
                i as int,
                j as int,
                ox as int,
                oy as int,
            ));
        }
        Ray { origin: center, direction }
    }

    /// A ray through pixel `(i, j)`, jittered uniformly within the pixel:
    /// the sample ray of some offsets within half a pixel of its corner.
    pub fn get_ray(&self, i: u32, j: u32) -> (ray: Ray)
        requires
            cam_ready(*self),
            i < self.image_width,
            j < self.image_height.unwrap(),
        ensures
            ray_wf(ray),
            ray.origin == cam_center(*self),
            exists|ox: int, oy: int|
                -HALF <= ox < HALF && -HALF <= oy < HALF && ray == (Ray {
                    origin: cam_center(*self),
                    direction: #[trigger] cam_sample_dir(*self, i as int, j as int, ox, oy),
                }),
    {
        let ox = crate::rng::rand_range_i128(-HALF, HALF);
        let oy = crate::rng::rand_range_i128(-HALF, HALF);
        let ray = self.ray_through(i, j, ox, oy);
        proof {
            assert(ray == (Ray {
                origin: cam_center(*self),
                direction: cam_sample_dir(*self, i as int, j as int, ox as int, oy as int),
            }));
        }
        ray
    }

    /// The color a ray sees: black once the bounce budget is spent, the sky
    /// gradient on a miss, and half the color of a diffuse bounce on a hit.
    pub fn ray_color(r: &Ray, world: &HittableList, depth: u8) -> (c: Color)
        requires
            world.wf(),
            ray_wf(*r),
        ensures
            color_ok(c),
            depth == 0 ==> c == (Vec3 { x: 0, y: 0, z: 0 }),
            depth > 0 && world.hit_spec(*r, ACNE_EPS as int, T_LIMIT as int) is None ==> c
                == sky_color_spec(*r),
            depth > 0 && world.hit_spec(*r, ACNE_EPS as int, T_LIMIT as int) is Some ==> c.x
                <= HALF && c.y <= HALF && c.z <= HALF,
            ray_color_rel(*r, *world, depth as int, c),
        decreases depth,
    {
        // The bounce budget is spent: no further contribution.
        if depth == 0 {
            return Vec3::zero();
        }
        let mut rec = HitRecord::default();
        if world.hit(r, ACNE_EPS, T_LIMIT, &mut rec) {
            let ru = Vec3::random_unit();
            let bounce = rec.normal.add(&ru);
            let origin_ok = rec.p.x <= COORD_LIMIT && rec.p.x >= -COORD_LIMIT && rec.p.y
                <= COORD_LIMIT && rec.p.y >= -COORD_LIMIT && rec.p.z <= COORD_LIMIT && rec.p.z
                >= -COORD_LIMIT;
            let dir_small = bounce.x <= DIR_LIMIT && bounce.x >= -DIR_LIMIT && bounce.y
                <= DIR_LIMIT && bounce.y >= -DIR_LIMIT && bounce.z <= DIR_LIMIT && bounce.z
                >= -DIR_LIMIT;
            if origin_ok && dir_small {
                proof {
                    lemma_dot3_bound(bounce, bounce, DIR_LIMIT as int, DIR_LIMIT as int);
                }
                if bounce.len_squared() >= 1 {
                    proof {
                        lemma_normalize_bound(bounce, DIR_LIMIT as int);
                    }
                    let next = Ray::new(rec.p, bounce);
                    let rc = Self::ray_color(&next, world, depth - 1);
                    proof {
                        lemma_mul_bound(rc.x as int, HALF as int, SCALE as int, HALF as int);
                        lemma_mul_bound(rc.y as int, HALF as int, SCALE as int, HALF as int);
                        lemma_mul_bound(rc.z as int, HALF as int, SCALE as int, HALF as int);
                        lemma_lerp_term(rc.x as int, HALF as int);
                        lemma_lerp_term(rc.y as int, HALF as int);
                        lemma_lerp_term(rc.z as int, HALF as int);
                    }
                    let att = rc.scale(HALF);
                    proof {
                        assert(att == (Vec3 {
                            x: fmul(rc.x as int, HALF as int) as i128,
                            y: fmul(rc.y as int, HALF as int) as i128,
                            z: fmul(rc.z as int, HALF as int) as i128,
                        }));
                        assert(ray_color_rel(
                            Ray { origin: rec.p, direction: bounce },
                            *world,
                            depth as int - 1,
                            rc,
                        ));
                        assert(vec_in(rec.p, COORD_LIMIT as int));
                        assert(dir_ok(bounce));
                        assert(color_ok(rc));
                        assert(bounce_rel(*world, rec.p, depth as int, att));
                        assert(ray_color_rel(*r, *world, depth as int, att));
                    }
                    return att;
                }
            }
            // Degenerate geometry: treat the bounce as absorbed.
            return Vec3::zero();
        }
        // Nothing hit: the sky gradient from the direction's height.
        proof {
            lemma_dot3_bound(r.direction, r.direction, DIR_LIMIT as int, DIR_LIMIT as int);
            lemma_normalize_bound(r.direction, DIR_LIMIT as int);
        }
        let n = r.direction.normalize();
        let a0 = mul_fixed(n.y + SCALE, HALF);
        let a = if a0 < 0 {
            0
        } else if a0 > SCALE {
            SCALE
        } else {
            a0
        };
        let white = Vec3::new(SCALE, SCALE, SCALE);
        let blue = Vec3::new(HALF, 45875, SCALE);
        lerp_colors(a, white, blue)
    }

    /// The arithmetic mean of `n` accumulated samples.
    pub fn average_samples(acc: Color, n: u16) -> (r: Color)
        requires
            n >= 1,
            i128::MIN < acc.x,
            i128::MIN < acc.y,
            i128::MIN < acc.z,
        ensures
            r.x == tdiv(acc.x as int, n as int),
            r.y == tdiv(acc.y as int, n as int),
            r.z == tdiv(acc.z as int, n as int),
    {
        Vec3 {
            x: div_trunc(acc.x, n as i128),
            y: div_trunc(acc.y, n as i128),
            z: div_trunc(acc.z, n as i128),
        }
    }

    /// One finished pixel: `samples_per_pixel` jittered rays, averaged and
    /// quantized for display.
    pub fn render_pixel(&self, world: &HittableList, x: u32, y: u32) -> (px: (u8, u8, u8))
        requires
            cam_ready(*self),
            world.wf(),
            self.samples_per_pixel >= 1,
            x < self.image_width,
            y < self.image_height.unwrap(),
        ensures
            pixel_rendered(*self, *world, x as int, y as int, px),
            self.max_bounces == 0 ==> px == (0u8, 0u8, 0u8),
    {
        let mut acc = Vec3::zero();
        let ghost mut cs: Seq<Vec3> = Seq::empty();
        let mut s: u16 = 0;
        while s < self.samples_per_pixel
            invariant
                cam_ready(*self),
                world.wf(),
                self.samples_per_pixel >= 1,
                x < self.image_width,
                y < self.image_height.unwrap(),
                s <= self.samples_per_pixel,
                cs.len() == s as int,
                forall|k: int|
                    0 <= k < cs.len() ==> color_ok(#[trigger] cs[k]) && sample_ok(
                        *self,
                        *world,
                        x as int,
                        y as int,
                        cs[k],
                    ),
                acc.x == sum_colors(cs).0,
                acc.y == sum_colors(cs).1,
                acc.z == sum_colors(cs).2,
                0 <= acc.x <= s as int * SCALE,
                0 <= acc.y <= s as int * SCALE,
                0 <= acc.z <= s as int * SCALE,
                self.max_bounces == 0 ==> acc == (Vec3 { x: 0, y: 0, z: 0 }),
            decreases self.samples_per_pixel as int - s as int,
        {
            let ray = self.get_ray(x, y);
            let col = Self::ray_color(&ray, world, self.max_bounces);
            proof {
                let (ox, oy) = choose|ox: int, oy: int|
                    -HALF <= ox < HALF && -HALF <= oy < HALF && ray == (Ray {
                        origin: cam_center(*self),
                        direction: #[trigger] cam_sample_dir(*self, x as int, y as int, ox, oy),
                    });
                assert(ray_color_rel(
                    Ray {
                        origin: cam_center(*self),
                        direction: cam_sample_dir(*self, x as int, y as int, ox, oy),
                    },
                    *world,
                    self.max_bounces as int,
                    col,
                ));
                assert(sample_ok(*self, *world, x as int, y as int, col));
                let prev = cs;
                cs = cs.push(col);
                assert(cs.drop_last() =~= prev);
                assert(cs.last() == col);
                assert forall|k: int|
                    0 <= k < cs.len() implies color_ok(#[trigger] cs[k]) && sample_ok(
                    *self,
                    *world,
                    x as int,
                    y as int,
                    cs[k],
                ) by {
                    if k < prev.len() {
                        assert(cs[k] == prev[k]);
                    } else {
                        assert(cs[k] == col);
                    }
                }
            }
            acc.add_assign(&col);
            s = s + 1;
        }
        proof {
            lemma_tdiv_shrinks(acc.x as int, self.samples_per_pixel as int, 0x1_0000_0000);
            lemma_tdiv_shrinks(acc.y as int, self.samples_per_pixel as int, 0x1_0000_0000);
            lemma_tdiv_shrinks(acc.z as int, self.samples_per_pixel as int, 0x1_0000_0000);
            lemma_tdiv_sign(acc.x as int, self.samples_per_pixel as int);
            lemma_tdiv_sign(acc.y as int, self.samples_per_pixel as int);
            lemma_tdiv_sign(acc.z as int, self.samples_per_pixel as int);
            if self.max_bounces == 0 {
                vstd::arithmetic::div_mod::lemma_div_of0(self.samples_per_pixel as int);
                lemma_quantize_zero();
            }
        }
        let avg = Self::average_samples(acc, self.samples_per_pixel);
        let px = write_color(avg);
        proof {
            assert(pixel_outcome(*self, *world, x as int, y as int, cs, px));
        }
        px
    }

    /// Render the whole image: derive the viewport, then shade every pixel.
    /// The grid has `image_height` rows of `image_width` byte triples each.
    pub fn render(&mut self, world: &HittableList) -> (image: Vec<Vec<(u8, u8, u8)>>)
        requires
            config_wf(*old(self)),
            old(self).samples_per_pixel >= 1,
            world.wf(),
        ensures
            image@.len() == spec_image_height(*old(self)),
            forall|y: int|
                0 <= y < image@.len() ==> (#[trigger] image@[y])@.len() == old(
                    self,
                ).image_width as int,
            forall|y: int, x: int|
                0 <= y < image@.len() && 0 <= x < old(self).image_width as int
                    ==> #[trigger] pixel_rendered(*final(self), *world, x, y, image@[y]@[x]),
            cam_ready(*final(self)),
    {
        self.initialize();
        let h = self.image_height.unwrap();
        let w = self.image_width;
        let mut image: Vec<Vec<(u8, u8, u8)>> = Vec::new();
        let mut y: u32 = 0;
        while y < h
            invariant
                cam_ready(*self),
                world.wf(),
                self.samples_per_pixel >= 1,
                w == self.image_width,
                h == self.image_height.unwrap(),
                y <= h,
                image@.len() == y as int,
                forall|k: int| 0 <= k < y as int ==> (#[trigger] image@[k])@.len() == w as int,
                forall|yy: int, xx: int|
                    0 <= yy < y as int && 0 <= xx < w as int ==> #[trigger] pixel_rendered(
                        *self,
                        *world,
                        xx,
                        yy,
                        image@[yy]@[xx],
                    ),
            decreases h as int - y as int,
        {
            let mut row: Vec<(u8, u8, u8)> = Vec::new();
            let mut x: u32 = 0;
            while x < w
                invariant
                    cam_ready(*self),
                    world.wf(),
                    self.samples_per_pixel >= 1,
                    w == self.image_width,
                    h == self.image_height.unwrap(),
                    y < h,
                    x <= w,
                    row@.len() == x as int,
                    forall|k: int|
                        0 <= k < x as int ==> #[trigger] pixel_rendered(
                            *self,
                            *world,
                            k,
                            y as int,
                            row@[k],
                        ),
                decreases w as int - x as int,
            {
                let px = self.render_pixel(world, x, y);
                row.push(px);
                x = x + 1;
            }
            image.push(row);
            y = y + 1;
        }
        image
    }
}

/// Averaging `n` identical samples reproduces the single sample exactly:
/// the mean of an `n`-fold accumulated color is that color.
pub proof fn lemma_average_of_equal_samples(c: Vec3, n: int)
    requires
        1 <= n,
    ensures
        tdiv(c.x as int * n, n) == c.x,
        tdiv(c.y as int * n, n) == c.y,
        tdiv(c.z as int * n, n) == c.z,
{
    lemma_tdiv_multiple(c.x as int, n);
    lemma_tdiv_multiple(c.y as int, n);
    lemma_tdiv_multiple(c.z as int, n);
}

/// The componentwise sum of identical samples is the sample scaled by the
/// count.
pub proof fn lemma_sum_of_equal_colors(cs: Seq<Vec3>, c: Vec3)
    requires
        forall|k: int| 0 <= k < cs.len() ==> #[trigger] cs[k] == c,
    ensures
        sum_colors(cs).0 == c.x * cs.len(),
        sum_colors(cs).1 == c.y * cs.len(),
        sum_colors(cs).2 == c.z * cs.len(),
    decreases cs.len(),
{
    if cs.len() == 0 {
    } else {
        let rest = cs.drop_last();
        assert(forall|k: int| 0 <= k < rest.len() ==> #[trigger] rest[k] == c);
        lemma_sum_of_equal_colors(rest, c);
        assert(cs.last() == c);
        assert(c.x * (cs.len() - 1) + c.x == c.x * cs.len() && c.y * (cs.len() - 1) + c.y == c.y
            * cs.len() && c.z * (cs.len() - 1) + c.z == c.z * cs.len()) by (nonlinear_arith);
    }
}

/// A pixel whose samples all came out equal shows exactly that one sample,
/// quantized: averaging identical samples reproduces the sample.
pub proof fn lemma_pixel_of_equal_samples(
    cam: Camera,
    world: HittableList,
    x: int,
    y: int,
    cs: Seq<Vec3>,
    c: Vec3,
    px: (u8, u8, u8),
)
    requires
        1 <= cam.samples_per_pixel,
        pixel_outcome(cam, world, x, y, cs, px),
        forall|k: int| 0 <= k < cs.len() ==> #[trigger] cs[k] == c,
    ensures
        px.0 == quantize_spec(c.x as int),
        px.1 == quantize_spec(c.y as int),
        px.2 == quantize_spec(c.z as int),
{
    lemma_sum_of_equal_colors(cs, c);
    lemma_average_of_equal_samples(c, cam.samples_per_pixel as int);
}

} // verus!
