//! Fixed-point scalar arithmetic.
//!
//! A scalar is an `i128` raw value `v` standing for the real number
//! `v / SCALE`.  Multiplication, division and square root truncate toward
//! zero, exactly as the executable operators do; the spec functions here are
//! the mathematical model of those operations and the executable functions
//! are proved equal to them.

use vstd::prelude::*;

verus! {

/// Raw value of 1.0: a raw scalar `v` stands for the real number `v / SCALE`.
pub const SCALE: i128 = 65536;

/// Truncated (round-toward-zero) division, the behaviour of `/` on the
/// machine's signed integers.  Meaningful only for `b != 0`.
pub open spec fn tdiv(a: int, b: int) -> int {
    if a >= 0 && b >= 0 {
        a / b
    } else if a < 0 && b < 0 {
        (-a) / (-b)
    } else if a < 0 {
        -((-a) / b)
    } else {
        -(a / (-b))
    }
}

/// Product of two fixed-point scalars.
pub open spec fn fmul(a: int, b: int) -> int {
    tdiv(a * b, SCALE as int)
}

/// Quotient of two fixed-point scalars.  Meaningful only for `b != 0`.
pub open spec fn fdiv(a: int, b: int) -> int {
    tdiv(a * (SCALE as int), b)
}

/// `r` is the integer square root of `n`.
pub open spec fn is_sqrt(n: int, r: int) -> bool {
    0 <= r && r * r <= n && n < (r + 1) * (r + 1)
}

/// The integer square root.  Meaningful only for `n >= 0`.
pub open spec fn sqrt_i(n: int) -> int {
    choose|r: int| #[trigger] is_sqrt(n, r)
}

/// Square root of a fixed-point scalar.  Meaningful only for `x >= 0`.
pub open spec fn fsqrt(x: int) -> int {
    sqrt_i(x * (SCALE as int))
}

/// Every nonnegative integer has an integer square root.
pub proof fn lemma_sqrt_exists(n: int)
    requires
        0 <= n,
    ensures
        is_sqrt(n, sqrt_i(n)),
    decreases n,
{
    if n == 0 {
        assert(is_sqrt(0, 0));
    } else {
        lemma_sqrt_exists(n - 1);
        let r = choose|r: int| #[trigger] is_sqrt(n - 1, r);
        if (r + 1) * (r + 1) <= n {
            assert(n - 1 < (r + 1) * (r + 1));
            assert(is_sqrt(n, r + 1)) by (nonlinear_arith)
                requires
                    0 <= r,
                    (r + 1) * (r + 1) <= n,
                    n <= (r + 1) * (r + 1),
            ;
        } else {
            assert(is_sqrt(n, r));
        }
        assert(exists|s: int| #[trigger] is_sqrt(n, s));
    }
}

/// The integer square root is unique.
pub proof fn lemma_sqrt_unique(n: int, r1: int, r2: int)
    by (nonlinear_arith)
    requires
        is_sqrt(n, r1),
        is_sqrt(n, r2),
    ensures
        r1 == r2,
{
}

/// Anything whose square bounds `n` from above bounds the root of `n`.
pub proof fn lemma_sqrt_le_of_square_ge(n: int, r: int, m: int)
    by (nonlinear_arith)
    requires
        is_sqrt(n, r),
        0 <= m,
        n <= m * m,
    ensures
        r <= m,
{
}

/// Truncated division keeps the sign of the dividend (positive divisor).
pub proof fn lemma_tdiv_sign(a: int, b: int)
    requires
        0 < b,
    ensures
        a >= 0 ==> tdiv(a, b) >= 0,
        a <= 0 ==> tdiv(a, b) <= 0,
{
    if a >= 0 {
        vstd::arithmetic::div_mod::lemma_div_pos_is_pos(a, b);
    } else {
        vstd::arithmetic::div_mod::lemma_div_pos_is_pos(-a, b);
    }
}

/// A bound on the dividend gives a bound on the truncated quotient.
pub proof fn lemma_tdiv_bound(a: int, b: int, c: int)
    requires
        0 < b,
        -c <= a <= c,
    ensures
        -(c / b) <= tdiv(a, b) <= c / b,
{
    if a >= 0 {
        vstd::arithmetic::div_mod::lemma_div_is_ordered(a, c, b);
        vstd::arithmetic::div_mod::lemma_div_pos_is_pos(a, b);
        vstd::arithmetic::div_mod::lemma_div_pos_is_pos(c, b);
    } else {
        vstd::arithmetic::div_mod::lemma_div_is_ordered(-a, c, b);
        vstd::arithmetic::div_mod::lemma_div_pos_is_pos(-a, b);
        vstd::arithmetic::div_mod::lemma_div_pos_is_pos(c, b);
    }
}

/// Dividing does not grow the magnitude (divisor at least one).
pub proof fn lemma_tdiv_shrinks(a: int, b: int, c: int)
    requires
        0 < b,
        0 <= c,
        -c <= a <= c,
    ensures
        -c <= tdiv(a, b) <= c,
{
    lemma_tdiv_bound(a, b, c);
    vstd::arithmetic::div_mod::lemma_div_nonincreasing(c, b);
}

/// Truncated division by a positive divisor is monotone in the dividend.
pub proof fn lemma_tdiv_monotone(x: int, y: int, b: int)
    requires
        x <= y,
        0 < b,
    ensures
        tdiv(x, b) <= tdiv(y, b),
{
    if x >= 0 {
        vstd::arithmetic::div_mod::lemma_div_is_ordered(x, y, b);
    } else if y < 0 {
        vstd::arithmetic::div_mod::lemma_div_is_ordered(-y, -x, b);
    } else {
        lemma_tdiv_sign(x, b);
        lemma_tdiv_sign(y, b);
    }
}

/// Dividing an exact multiple recovers the factor.
pub proof fn lemma_tdiv_multiple(c: int, n: int)
    requires
        0 < n,
    ensures
        tdiv(c * n, n) == c,
{
    if c >= 0 {
        vstd::arithmetic::div_mod::lemma_div_multiples_vanish(c, n);
        assert(c * n == n * c) by (nonlinear_arith);
        assert(c * n >= 0) by (nonlinear_arith)
            requires
                c >= 0 && n > 0,
        ;
    } else {
        vstd::arithmetic::div_mod::lemma_div_multiples_vanish(-c, n);
        assert(n * (-c) == -(c * n)) by (nonlinear_arith);
        assert(c * n < 0) by (nonlinear_arith)
            requires
                c < 0 && n > 0,
        ;
    }
}

/// Magnitudes multiply.
pub proof fn lemma_mul_bound(a: int, b: int, ca: int, cb: int)
    by (nonlinear_arith)
    requires
        -ca <= a <= ca,
        -cb <= b <= cb,
    ensures
        -(ca * cb) <= a * b <= ca * cb,
{
}

/// Truncated division of `a` by a positive `b`.
pub fn div_trunc(a: i128, b: i128) -> (r: i128)
    requires
        b != 0,
        i128::MIN < a,
        i128::MIN < b,
    ensures
        r == tdiv(a as int, b as int),
{
    let ua: u128 = if a < 0 {
        (-a) as u128
    } else {
        a as u128
    };
    let ub: u128 = if b < 0 {
        (-b) as u128
    } else {
        b as u128
    };
    let q: u128 = ua / ub;
    proof {
        assert(ua as int <= i128::MAX as int);
        vstd::arithmetic::div_mod::lemma_div_nonincreasing(ua as int, ub as int);
    }
    if (a < 0) != (b < 0) {
        -(q as i128)
    } else {
        q as i128
    }
}

/// Fixed-point product, truncated toward zero.
pub fn mul_fixed(a: i128, b: i128) -> (r: i128)
    requires
        i128::MIN < a * b <= i128::MAX,
    ensures
        r == fmul(a as int, b as int),
{
    div_trunc(a * b, SCALE)
}

/// Fixed-point quotient, truncated toward zero.
pub fn div_fixed(a: i128, b: i128) -> (r: i128)
    requires
        b != 0,
        i128::MIN < b,
        i128::MIN < a * SCALE <= i128::MAX,
    ensures
        r == fdiv(a as int, b as int),
{
    div_trunc(a * SCALE, b)
}

/// Integer square root by binary search.
pub fn isqrt_u(n: u128) -> (r: u128)
    ensures
        is_sqrt(n as int, r as int),
        r < 0x1_0000_0000_0000_0000,
{
    let mut lo: u128 = 0;
    let mut hi: u128 = 0x1_0000_0000_0000_0000;
    proof {
        assert((hi as int) * (hi as int) > n as int) by (nonlinear_arith)
            requires
                hi == 0x1_0000_0000_0000_0000u128,
                n <= u128::MAX,
        ;
    }
    while hi - lo > 1
        invariant
            lo < hi <= 0x1_0000_0000_0000_0000,
            (lo as int) * (lo as int) <= n as int,
            (n as int) < (hi as int) * (hi as int),
        decreases hi - lo,
    {
        let mid: u128 = lo + (hi - lo) / 2;
        proof {
            assert((mid as int) * (mid as int) <= u128::MAX as int) by (nonlinear_arith)
                requires
                    mid < 0x1_0000_0000_0000_0000u128,
            ;
        }
        if mid * mid <= n {
            lo = mid;
        } else {
            hi = mid;
        }
    }
    lo
}

/// Fixed-point square root, rounded down.
pub fn sqrt_fixed(x: i128) -> (r: i128)
    requires
        0 <= x,
        x * SCALE <= i128::MAX,
    ensures
        0 <= r < 0x1_0000_0000_0000_0000,
        is_sqrt(x * (SCALE as int), r as int),
        r == fsqrt(x as int),
{
    let m: u128 = (x * SCALE) as u128;
    let r = isqrt_u(m);
    proof {
        lemma_sqrt_exists(x * (SCALE as int));
        lemma_sqrt_unique(x * (SCALE as int), r as int, sqrt_i(x * (SCALE as int)));
    }
    r as i128
}

} // verus!
