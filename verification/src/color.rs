//! Colors: blending, gamma correction, and quantization to display bytes.

use vstd::prelude::*;
pub use crate::vec3::Vec3 as Color;
use crate::math::{tdiv, fmul, fsqrt, sqrt_i, is_sqrt, SCALE};
use crate::math::{div_trunc, sqrt_fixed, lemma_tdiv_sign, lemma_mul_bound, lemma_sqrt_exists,
    lemma_sqrt_unique};
use crate::vec3::Vec3;

verus! {

/// Largest channel value the quantizer passes through: just under 1.0, so
/// that the byte range is never overrun by stochastic overshoot.
pub const CLAMP_MAX: i128 = 65470;

/// A displayable color: every channel within `[0, 1]`.
pub open spec fn color_ok(c: Vec3) -> bool {
    &&& 0 <= c.x <= SCALE
    &&& 0 <= c.y <= SCALE
    &&& 0 <= c.z <= SCALE
}

/// The blend `start * (1 - a) + end * a`.
pub open spec fn lerp_spec(a: int, start: Vec3, end: Vec3) -> Vec3 {
    Vec3 {
        x: (fmul(start.x as int, SCALE - a) + fmul(end.x as int, a)) as i128,
        y: (fmul(start.y as int, SCALE - a) + fmul(end.y as int, a)) as i128,
        z: (fmul(start.z as int, SCALE - a) + fmul(end.z as int, a)) as i128,
    }
}

/// Blend between two colors based on a parameter in `[0, 1]`.
pub fn lerp_colors(a: i128, start: Color, end: Color) -> (r: Color)
    requires
        0 <= a <= SCALE,
        color_ok(start),
        color_ok(end),
    ensures
        r == lerp_spec(a as int, start, end),
        color_ok(r),
{
    proof {
        lemma_mul_bound(start.x as int, SCALE - a, SCALE as int, SCALE as int);
        lemma_mul_bound(start.y as int, SCALE - a, SCALE as int, SCALE as int);
        lemma_mul_bound(start.z as int, SCALE - a, SCALE as int, SCALE as int);
        lemma_mul_bound(end.x as int, a as int, SCALE as int, SCALE as int);
        lemma_mul_bound(end.y as int, a as int, SCALE as int, SCALE as int);
        lemma_mul_bound(end.z as int, a as int, SCALE as int, SCALE as int);
        lemma_lerp_term(start.x as int, SCALE - a);
        lemma_lerp_term(start.y as int, SCALE - a);
        lemma_lerp_term(start.z as int, SCALE - a);
        lemma_lerp_term(end.x as int, a as int);
        lemma_lerp_term(end.y as int, a as int);
        lemma_lerp_term(end.z as int, a as int);
    }
    let s = start.scale(SCALE - a);
    let e = end.scale(a);
    s.add(&e)
}

/// One blend term stays within its weight: `0 <= (c * w) / SCALE <= w` for a
/// channel `c` in `[0, SCALE]`.
pub proof fn lemma_lerp_term(c: int, w: int)
    requires
        0 <= c <= SCALE,
        0 <= w <= SCALE,
    ensures
        0 <= fmul(c, w) <= w,
{
    assert(0 <= c * w <= SCALE as int * w) by (nonlinear_arith)
        requires
            0 <= c <= SCALE && 0 <= w,
    ;
    lemma_tdiv_sign(c * w, SCALE as int);
    vstd::arithmetic::div_mod::lemma_div_is_ordered(c * w, SCALE as int * w, SCALE as int);
    vstd::arithmetic::div_mod::lemma_div_multiples_vanish(w, SCALE as int);
}

/// A linear channel value taken to a display byte: square root for gamma,
/// clamp just under 1.0, then scale to the byte range.
pub open spec fn quantize_spec(c: int) -> int {
    let g = fsqrt(c);
    let cl = if g > CLAMP_MAX {
        CLAMP_MAX as int
    } else {
        g
    };
    tdiv(256 * cl, SCALE as int)
}

/// The zero channel quantizes to the zero byte.
pub proof fn lemma_quantize_zero()
    ensures
        quantize_spec(0) == 0,
{
    lemma_sqrt_exists(0);
    assert(is_sqrt(0, 0));
    lemma_sqrt_unique(0, 0, sqrt_i(0));
    assert(fsqrt(0) == 0);
    assert(tdiv(0, SCALE as int) == 0) by {
        vstd::arithmetic::div_mod::lemma_div_of0(SCALE as int);
    }
}

/// Gamma-correct and quantize one channel.
fn quantize_channel(c: i128) -> (b: u8)
    requires
        0 <= c <= 0x1_0000_0000,
    ensures
        b == quantize_spec(c as int),
{
    let g = sqrt_fixed(c);
    let cl = if g > CLAMP_MAX {
        CLAMP_MAX
    } else {
        g
    };
    proof {
        lemma_tdiv_sign(256 * cl as int, SCALE as int);
        vstd::arithmetic::div_mod::lemma_div_is_ordered(
            256 * cl as int,
            256 * (CLAMP_MAX as int),
            SCALE as int,
        );
    }
    div_trunc(256 * cl, SCALE) as u8
}

/// The displayable byte triple of an accumulated color.
pub fn write_color(pixel_color: Color) -> (bytes: (u8, u8, u8))
    requires
        0 <= pixel_color.x <= 0x1_0000_0000,
        0 <= pixel_color.y <= 0x1_0000_0000,
        0 <= pixel_color.z <= 0x1_0000_0000,
    ensures
        bytes.0 == quantize_spec(pixel_color.x as int),
        bytes.1 == quantize_spec(pixel_color.y as int),
        bytes.2 == quantize_spec(pixel_color.z as int),
{
    (
        quantize_channel(pixel_color.x),
        quantize_channel(pixel_color.y),
        quantize_channel(pixel_color.z),
    )
}

} // verus!
