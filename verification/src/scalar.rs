//! Scalars of the distance kernel.
//!
//! Every length is a whole number of grid steps, held in an `i64`; `ONE` steps make one
//! unit of length. Contracts speak about these numbers as mathematical integers, so each
//! result is stated exactly, including the direction in which a quotient or a root is
//! rounded.

use vstd::arithmetic::div_mod::lemma_fundamental_div_mod;
use vstd::arithmetic::div_mod::lemma_fundamental_div_mod_converse;
use vstd::arithmetic::div_mod::lemma_mod_bound;
use vstd::prelude::*;

verus! {

/// Grid steps in one unit of length.
pub const ONE: i64 = 65536;

/// Largest magnitude of a coordinate that the kernel accepts: 16384 units.
pub const LIMIT: i64 = 1073741824;

/// `v` is a coordinate the kernel accepts.
pub open spec fn in_grid(v: i64) -> bool {
    -LIMIT <= v <= LIMIT
}

/// The larger of two integers.
pub open spec fn max_int(a: int, b: int) -> int {
    if a >= b {
        a
    } else {
        b
    }
}

/// The smaller of two integers.
pub open spec fn min_int(a: int, b: int) -> int {
    if a <= b {
        a
    } else {
        b
    }
}

/// The magnitude of an integer.
pub open spec fn abs_int(a: int) -> int {
    if a >= 0 {
        a
    } else {
        -a
    }
}

/// The quotient `a / b` rounded towards minus infinity, for any `b` other than zero.
pub open spec fn floor_div(a: int, b: int) -> int {
    if b > 0 {
        a / b
    } else {
        (-a) / (-b)
    }
}

/// `r` is the square root of `v` rounded down.
pub open spec fn is_floor_sqrt(r: int, v: int) -> bool {
    0 <= r && r * r <= v && v < (r + 1) * (r + 1)
}

/// The square root of `v` rounded down (meaningful for `v >= 0`).
pub open spec fn floor_sqrt(v: int) -> int {
    choose|r: int| is_floor_sqrt(r, v)
}

/// Squaring keeps the order of non-negative integers.
pub proof fn lemma_square_monotonic(a: int, b: int)
    requires
        0 <= a <= b,
    ensures
        a * a <= b * b,
{
    assert(a * a <= b * b) by (nonlinear_arith)
        requires
            0 <= a <= b,
    ;
}

/// At most one integer is the rounded-down square root of `v`, and `floor_sqrt` names it.
pub proof fn lemma_floor_sqrt_unique(r: int, v: int)
    requires
        is_floor_sqrt(r, v),
    ensures
        floor_sqrt(v) == r,
{
    let s = floor_sqrt(v);
    assert(is_floor_sqrt(s, v));
    if s < r {
        lemma_square_monotonic(s + 1, r);
    } else if r < s {
        lemma_square_monotonic(r + 1, s);
    }
}

/// Every number from zero on has a rounded-down square root.
pub proof fn lemma_floor_sqrt_exists(v: int)
    requires
        0 <= v,
    ensures
        is_floor_sqrt(floor_sqrt(v), v),
    decreases v,
{
    if v == 0 {
        assert(is_floor_sqrt(0, 0));
    } else {
        lemma_floor_sqrt_exists(v - 1);
        let r = floor_sqrt(v - 1);
        if (r + 1) * (r + 1) <= v {
            assert((r + 2) * (r + 2) > (r + 1) * (r + 1)) by (nonlinear_arith)
                requires
                    r >= 0,
            ;
            assert(is_floor_sqrt(r + 1, v));
        } else {
            assert(is_floor_sqrt(r, v));
        }
    }
}

/// The rounded-down square root grows with its argument.
pub proof fn lemma_floor_sqrt_monotonic(a: int, b: int)
    requires
        0 <= a <= b,
    ensures
        floor_sqrt(a) <= floor_sqrt(b),
{
    lemma_floor_sqrt_exists(a);
    lemma_floor_sqrt_exists(b);
    let ra = floor_sqrt(a);
    let rb = floor_sqrt(b);
    if rb < ra {
        lemma_square_monotonic(rb + 1, ra);
    }
}

/// Whether `v` is a coordinate the kernel accepts.
pub fn fits(v: i64) -> (ok: bool)
    ensures
        ok == in_grid(v),
{
    -LIMIT <= v && v <= LIMIT
}

/// A quotient by a positive number is no larger in magnitude than what is divided, and
/// has its sign.
pub proof fn lemma_quotient_bound(a: int, b: int)
    requires
        b > 0,
    ensures
        a >= 0 ==> 0 <= a / b <= a,
        a < 0 ==> a <= a / b < 0,
{
    let q = a / b;
    let r = a % b;
    lemma_fundamental_div_mod(a, b);
    lemma_mod_bound(a, b);
    if a >= 0 {
        assert(0 <= q <= a) by (nonlinear_arith)
            requires
                a == b * q + r,
                0 <= r < b,
                a >= 0,
        ;
    } else {
        assert(a <= q < 0) by (nonlinear_arith)
            requires
                a == b * q + r,
                0 <= r < b,
                a < 0,
        ;
    }
}

/// A common factor of both sides of a quotient cancels: `(a * m) / (b * m) == a / b`.
pub proof fn lemma_cancel_factor(a: int, b: int, m: int)
    requires
        0 < b,
        0 < m,
    ensures
        (a * m) / (b * m) == a / b,
{
    let q = a / b;
    let r = a % b;
    lemma_fundamental_div_mod(a, b);
    lemma_mod_bound(a, b);
    assert(a * m == (b * m) * q + r * m && 0 <= r * m < b * m) by (nonlinear_arith)
        requires
            a == b * q + r,
            0 <= r < b,
            0 < m,
    ;
    lemma_fundamental_div_mod_converse(a * m, b * m, q, r * m);
}

/// A product of two integers of magnitude at most `m` has magnitude at most `m * m`.
pub proof fn lemma_product_bound(a: int, b: int, m: int)
    requires
        -m <= a <= m,
        -m <= b <= m,
    ensures
        -(m * m) <= a * b <= m * m,
{
    assert(-(m * m) <= a * b <= m * m) by (nonlinear_arith)
        requires
            -m <= a <= m,
            -m <= b <= m,
    ;
}

/// A square of an integer of magnitude at most `m` lies between 0 and `m * m`.
pub proof fn lemma_square_bound(a: int, m: int)
    requires
        -m <= a <= m,
    ensures
        0 <= a * a <= m * m,
{
    assert(0 <= a * a <= m * m) by (nonlinear_arith)
        requires
            -m <= a <= m,
    ;
}

/// Lagrange's identity in the plane: `(a^2 + b^2)(c^2 + d^2) - (ac + bd)^2 == (ad - bc)^2`.
pub proof fn lemma_lagrange_plane(a: int, b: int, c: int, d: int)
    ensures
        (a * a + b * b) * (c * c + d * d) - (a * c + b * d) * (a * c + b * d) == (a * d - b * c) * (a
            * d - b * c),
{
    let x = a * c;
    let y = b * d;
    let u = a * d;
    let w = b * c;
    assert((a * a + b * b) * (c * c + d * d) == (a * a) * (c * c) + (a * a) * (d * d) + (b * b) * (
    c * c) + (b * b) * (d * d)) by (nonlinear_arith);
    assert((a * a) * (c * c) == x * x) by (nonlinear_arith)
        requires
            x == a * c,
    ;
    assert((a * a) * (d * d) == u * u) by (nonlinear_arith)
        requires
            u == a * d,
    ;
    assert((b * b) * (c * c) == w * w) by (nonlinear_arith)
        requires
            w == b * c,
    ;
    assert((b * b) * (d * d) == y * y) by (nonlinear_arith)
        requires
            y == b * d,
    ;
    assert(x * y == u * w) by (nonlinear_arith)
        requires
            x == a * c,
            y == b * d,
            u == a * d,
            w == b * c,
    ;
    assert((x + y) * (x + y) == x * x + 2 * (x * y) + y * y) by (nonlinear_arith);
    assert((u - w) * (u - w) == u * u - 2 * (u * w) + w * w) by (nonlinear_arith);
}

/// `a / b` rounded towards minus infinity.
pub fn div_floor(a: i128, b: i128) -> (q: i128)
    requires
        b > 0,
    ensures
        q == floor_div(a as int, b as int),
        q == a as int / b as int,
{
    if a >= 0 {
        a / b
    } else {
        let m: i128 = -(a + 1);
        let k: i128 = m / b;
        proof {
            let r = m as int % b as int;
            lemma_fundamental_div_mod(m as int, b as int);
            assert(m as int == b as int * k as int + r);
            assert(a as int == b as int * (-(k as int) - 1) + (b as int - r - 1)) by (nonlinear_arith)
                requires
                    m as int == b as int * k as int + r,
                    a as int == -(m as int) - 1,
            ;
            lemma_fundamental_div_mod_converse(a as int, b as int, -(k as int) - 1, b as int - r - 1);
            assert(k >= 0);
            assert(k <= m);
        }
        -k - 1
    }
}

/// The square root of `v` rounded down.
pub fn isqrt(v: u128) -> (r: u64)
    ensures
        is_floor_sqrt(r as int, v as int),
        r == floor_sqrt(v as int),
{
    let mut lo: u128 = 0;
    let mut hi: u128 = 18446744073709551616;
    assert(hi * hi > v) by (nonlinear_arith)
        requires
            hi == 18446744073709551616u128,
            v <= u128::MAX,
    ;
    while hi - lo > 1
        invariant
            lo < hi <= 18446744073709551616,
            lo * lo <= v,
            v < hi * hi,
        decreases hi - lo,
    {
        let mid: u128 = lo + (hi - lo) / 2;
        assert(mid * mid <= 18446744073709551615 * 18446744073709551615) by (nonlinear_arith)
            requires
                0 <= mid <= 18446744073709551615,
        ;
        if mid * mid <= v {
            lo = mid;
        } else {
            hi = mid;
        }
    }
    proof {
        lemma_floor_sqrt_unique(lo as int, v as int);
    }
    lo as u64
}

} // verus!
