//! Distance bounds of the basic solids.
//!
//! The trapezoid and the slab are intersections of half-spaces: their value is exact on
//! the flat faces and a lower bound of the distance near edges and corners. The capped
//! cylinder is the distance to its spine less its radius.

use crate::scalar::abs_int;
use crate::scalar::div_floor;
use crate::scalar::floor_div;
use crate::scalar::floor_sqrt;
use crate::scalar::in_grid;
use crate::scalar::isqrt;
use crate::scalar::lemma_product_bound;
use crate::scalar::lemma_quotient_bound;
use crate::scalar::lemma_square_bound;
use crate::scalar::lemma_square_monotonic;
use crate::scalar::max_int;
use crate::vector::lemma_lagrange_in_space;
use crate::vector::Point3;
use crate::vector::Vector;
use vstd::arithmetic::div_mod::lemma_fundamental_div_mod;
use vstd::arithmetic::div_mod::lemma_mod_bound;
use vstd::prelude::*;

verus! {

/// Half the width of the trapezoid at the height `y`: the width goes linearly from `w1`
/// at `y = 0` to `w2` at `y = h`, `k(y) = (w1 + y * (w2 - w1) / h) / 2`. Both quotients
/// are rounded down.
pub open spec fn half_width(y: int, w1: int, w2: int, h: int) -> int {
    (w1 + floor_div(y * (w2 - w1), h)) / 2
}

/// The bound of the trapezoid: the largest of the four distances to the lines that
/// carry its sides, `max(x - k, -k - x, -y, y - h)`.
pub open spec fn trapezoid_bound(x: int, y: int, w1: int, w2: int, h: int) -> int {
    let k = half_width(y, w1, w2, h);
    max_int(max_int(max_int(x - k, -k - x), -y), y - h)
}

/// The bound of the slab with the half-extents `w` along `x`, `h` along `z` and `t`
/// along `y`: `max(|x| - w, |z| - h, |y| - t)`.
pub open spec fn slab_bound(p: Vector, w: int, h: int, t: int) -> int {
    max_int(max_int(abs_int(p.x) - w, abs_int(p.z) - h), abs_int(p.y) - t)
}

/// The square of the distance from `p` to the segment from `a` to `b`, rounded down.
///
/// With `v = b - a` and `w = p - a`, the nearest point of the segment is `a` when
/// `w.v <= 0`, `b` when `w.v >= v.v`, and otherwise the foot of the perpendicular from
/// `p`, whose squared distance from `p` is `|w x v|^2 / |v|^2`
/// (see `lemma_lagrange_in_space`).
pub open spec fn spine_dist_sq(p: Vector, a: Vector, b: Vector) -> int {
    let v = b.minus(a);
    let w = p.minus(a);
    let c1 = w.dot(v);
    let c2 = v.norm_sq();
    if c1 <= 0 {
        w.norm_sq()
    } else if c1 >= c2 {
        p.minus(b).norm_sq()
    } else {
        w.cross(v).norm_sq() / c2
    }
}

/// A spine whose squared length is below this many squared grid steps (a millionth of a
/// squared unit) counts as a single point.
pub const DEGENERATE_SQ: i64 = 4295;

/// The distance from `p` to the capped cylinder of the given radius around the segment
/// from `a` to `b`: the distance to the segment, rounded down, less the radius. A spine
/// shorter than `DEGENERATE_SQ` allows makes the cylinder a ball around `a`.
pub open spec fn cylinder_distance(p: Vector, a: Vector, b: Vector, radius: int) -> int {
    if b.minus(a).norm_sq() < DEGENERATE_SQ {
        floor_sqrt(p.minus(a).norm_sq()) - radius
    } else {
        floor_sqrt(spine_dist_sq(p, a, b)) - radius
    }
}

/// A point is within the trapezoid bound exactly when it lies between the two slanted
/// sides and between the bottom and the top.
pub proof fn lemma_trapezoid_inside(x: int, y: int, w1: int, w2: int, h: int)
    ensures
        trapezoid_bound(x, y, w1, w2, h) <= 0 <==> {
            let k = half_width(y, w1, w2, h);
            -k <= x <= k && 0 <= y <= h
        },
{
}

/// A point is within the slab bound exactly when each coordinate is within its
/// half-extent.
pub proof fn lemma_slab_inside(p: Vector, w: int, h: int, t: int)
    ensures
        slab_bound(p, w, h, t) <= 0 <==> abs_int(p.x) <= w && abs_int(p.z) <= h && abs_int(p.y)
            <= t,
{
}

/// A cylinder whose spine has length zero is the ball of its radius around `a`.
pub proof fn lemma_cylinder_degenerate(p: Vector, a: Vector, radius: int)
    ensures
        cylinder_distance(p, a, a, radius) == floor_sqrt(p.minus(a).norm_sq()) - radius,
{
}

/// The bound of the trapezoid that is `w1` wide at `y = 0` and `w2` wide at `y = h`,
/// at the point `(x, y)`.
pub fn trapezoid(x: i64, y: i64, w1: i64, w2: i64, h: i64) -> (d: i64)
    requires
        in_grid(x),
        in_grid(y),
        in_grid(w1),
        in_grid(w2),
        in_grid(h),
        h != 0,
    ensures
        d == trapezoid_bound(x as int, y as int, w1 as int, w2 as int, h as int),
{
    let dw: i128 = w2 as i128 - w1 as i128;
    proof {
        lemma_product_bound(y as int, dw as int, 2147483648);
    }
    let n: i128 = y as i128 * dw;
    let slope: i128 = if h > 0 {
        proof {
            lemma_quotient_bound(n as int, h as int);
        }
        div_floor(n, h as i128)
    } else {
        proof {
            lemma_quotient_bound(-(n as int), -(h as int));
        }
        div_floor(-n, -(h as i128))
    };
    assert(slope == floor_div(y as int * (w2 as int - w1 as int), h as int));
    proof {
        lemma_quotient_bound(w1 as int + slope as int, 2);
    }
    let k: i128 = div_floor(w1 as i128 + slope, 2);
    let mut d: i128 = x as i128 - k;
    if -k - x as i128 > d {
        d = -k - x as i128;
    }
    if -(y as i128) > d {
        d = -(y as i128);
    }
    if y as i128 - h as i128 > d {
        d = y as i128 - h as i128;
    }
    d as i64
}

/// The bound of the slab around the origin with the half-extents `w` along `x`, `h`
/// along `z` and `t` along `y`, at the point `p`.
pub fn slab(p: Point3, w: i64, h: i64, t: i64) -> (d: i64)
    requires
        p.in_grid(),
        in_grid(w),
        in_grid(h),
        in_grid(t),
    ensures
        d == slab_bound(p@, w as int, h as int, t as int),
{
    let ax: i64 = if p.x >= 0 {
        p.x
    } else {
        -p.x
    };
    let ay: i64 = if p.y >= 0 {
        p.y
    } else {
        -p.y
    };
    let az: i64 = if p.z >= 0 {
        p.z
    } else {
        -p.z
    };
    let mut d: i64 = ax - w;
    if az - h > d {
        d = az - h;
    }
    if ay - t > d {
        d = ay - t;
    }
    d
}

/// The largest squared distance between two points of the grid: `3 * 2^62`.
pub const MAX_NORM_SQ: u128 = 13835058055282163712;

fn norm_sq_of(x: i128, y: i128, z: i128) -> (s: u128)
    requires
        -2147483648 <= x <= 2147483648,
        -2147483648 <= y <= 2147483648,
        -2147483648 <= z <= 2147483648,
    ensures
        s == x * x + y * y + z * z,
        s <= MAX_NORM_SQ,
{
    proof {
        lemma_square_bound(x as int, 2147483648);
        lemma_square_bound(y as int, 2147483648);
        lemma_square_bound(z as int, 2147483648);
    }
    (x * x + y * y + z * z) as u128
}

fn root_less_radius(s: u128, radius: i64) -> (d: i64)
    requires
        s <= MAX_NORM_SQ,
        in_grid(radius),
    ensures
        d == floor_sqrt(s as int) - radius,
{
    let r = isqrt(s);
    proof {
        if r > 3719550786 {
            lemma_square_monotonic(3719550787, r as int);
        }
    }
    r as i64 - radius
}

/// The distance from `p` to the capped cylinder of the given radius whose spine is the
/// segment from `a` to `b`.
pub fn cylinder_between(p: Point3, a: Point3, b: Point3, radius: i64) -> (d: i64)
    requires
        p.in_grid(),
        a.in_grid(),
        b.in_grid(),
        in_grid(radius),
    ensures
        d == cylinder_distance(p@, a@, b@, radius as int),
{
    let vx: i128 = b.x as i128 - a.x as i128;
    let vy: i128 = b.y as i128 - a.y as i128;
    let vz: i128 = b.z as i128 - a.z as i128;
    let wx: i128 = p.x as i128 - a.x as i128;
    let wy: i128 = p.y as i128 - a.y as i128;
    let wz: i128 = p.z as i128 - a.z as i128;
    let c2 = norm_sq_of(vx, vy, vz);
    let ww = norm_sq_of(wx, wy, wz);
    if c2 < DEGENERATE_SQ as u128 {
        return root_less_radius(ww, radius);
    }
    proof {
        lemma_product_bound(wx as int, vx as int, 2147483648);
        lemma_product_bound(wy as int, vy as int, 2147483648);
        lemma_product_bound(wz as int, vz as int, 2147483648);
    }
    let c1: i128 = wx * vx + wy * vy + wz * vz;
    if c1 <= 0 {
        root_less_radius(ww, radius)
    } else if c1 >= c2 as i128 {
        let ux: i128 = p.x as i128 - b.x as i128;
        let uy: i128 = p.y as i128 - b.y as i128;
        let uz: i128 = p.z as i128 - b.z as i128;
        let uu = norm_sq_of(ux, uy, uz);
        root_less_radius(uu, radius)
    } else {
        proof {
            lemma_product_bound(wy as int, vz as int, 2147483648);
            lemma_product_bound(wz as int, vy as int, 2147483648);
            lemma_product_bound(wz as int, vx as int, 2147483648);
            lemma_product_bound(wx as int, vz as int, 2147483648);
            lemma_product_bound(wx as int, vy as int, 2147483648);
            lemma_product_bound(wy as int, vx as int, 2147483648);
        }
        let kx: i128 = wy * vz - wz * vy;
        let ky: i128 = wz * vx - wx * vz;
        let kz: i128 = wx * vy - wy * vx;
        proof {
            lemma_square_bound(kx as int, 9223372036854775808);
            lemma_square_bound(ky as int, 9223372036854775808);
            lemma_square_bound(kz as int, 9223372036854775808);
        }
        let kk: u128 = (kx * kx) as u128 + (ky * ky) as u128 + (kz * kz) as u128;
        let q: u128 = kk / c2;
        proof {
            let w = p@.minus(a@);
            let v = b@.minus(a@);
            lemma_lagrange_in_space(w, v);
            assert(kk as int == w.cross(v).norm_sq());
            assert(c1 as int * c1 as int >= 0) by (nonlinear_arith);
            assert(kk as int <= ww as int * c2 as int);
            lemma_fundamental_div_mod(kk as int, c2 as int);
            lemma_mod_bound(kk as int, c2 as int);
            assert(q as int <= ww as int) by (nonlinear_arith)
                requires
                    c2 as int > 0,
                    kk as int <= ww as int * c2 as int,
                    kk as int == c2 as int * q as int + kk as int % c2 as int,
                    0 <= kk as int % c2 as int,
            ;
        }
        root_less_radius(q, radius)
    }
}

} // verus!
