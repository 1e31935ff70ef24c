//! Transforms of the sample point.
//!
//! To move or turn a solid, the point at which it is sampled is moved or turned the
//! opposite way: every function here maps a sample point to the point at which the
//! solid has to be evaluated as it was before it was moved or turned.
//!
//! An angle is handed over as its cosine and sine. Cosines, sines, unit vectors and
//! matrix entries are fractions with the denominator `ONE`.

use crate::scalar::abs_int;
use crate::scalar::div_floor;
use crate::scalar::floor_sqrt;
use crate::scalar::in_grid;
use crate::scalar::is_floor_sqrt;
use crate::scalar::isqrt;
use crate::scalar::lemma_cancel_factor;
use crate::scalar::lemma_floor_sqrt_unique;
use crate::scalar::lemma_lagrange_plane;
use crate::scalar::lemma_square_bound;
use crate::scalar::lemma_square_monotonic;
use crate::scalar::ONE;
use crate::vector::lemma_cross_is_perpendicular;
use crate::vector::lemma_lagrange_in_space;
use crate::vector::Point3;
use crate::vector::Vector;
use vstd::arithmetic::div_mod::lemma_div_is_ordered;
use vstd::arithmetic::div_mod::lemma_div_multiples_vanish;
use vstd::arithmetic::div_mod::lemma_fundamental_div_mod;
use vstd::arithmetic::div_mod::lemma_mod_bound;
use vstd::prelude::*;

verus! {

/// An angle, held as its cosine and its sine in fractions of `ONE`.
#[derive(Debug, Clone, Copy)]
pub struct Angle {
    pub cos: i64,
    pub sin: i64,
}

/// `ONE` squared.
pub const ONE_SQ: i128 = 4294967296;

/// `ONE` cubed.
pub const ONE_CUBED: i128 = 281474976710656;

impl Angle {
    /// Cosine and sine lie between minus one and one.
    pub open spec fn valid(self) -> bool {
        -ONE <= self.cos <= ONE && -ONE <= self.sin <= ONE
    }

    /// The angle zero.
    pub fn zero() -> (a: Angle)
        ensures
            a.cos == ONE,
            a.sin == 0,
            a.valid(),
    {
        Angle { cos: ONE, sin: 0 }
    }

    /// Whether cosine and sine lie between minus one and one.
    pub fn is_valid(&self) -> (ok: bool)
        ensures
            ok == self.valid(),
    {
        -ONE <= self.cos && self.cos <= ONE && -ONE <= self.sin && self.sin <= ONE
    }
}

/// `axis` scaled to the length `ONE`: each coordinate times `ONE`, divided by the length
/// of `axis`. The length is taken as `floor_sqrt(|axis|^2 * ONE^2) / ONE`, and each
/// quotient is rounded down.
pub open spec fn unit_of(axis: Vector) -> Vector {
    let n = floor_sqrt(axis.norm_sq() * ONE_SQ);
    Vector {
        x: (axis.x * ONE_SQ) / n,
        y: (axis.y * ONE_SQ) / n,
        z: (axis.z * ONE_SQ) / n,
    }
}

/// Rodrigues' formula `p * c + (u x p) * s + u * (u . p) * (1 - c)` for the unit vector
/// `u`, the cosine `c` and the sine `s`, all three in fractions of `ONE`. Each
/// coordinate is rounded down once, at the end.
pub open spec fn rodrigues(p: Vector, u: Vector, c: int, s: int) -> Vector {
    let n = rodrigues_exact(p, u, c, s);
    Vector {
        x: n.x / (ONE_CUBED as int),
        y: n.y / (ONE_CUBED as int),
        z: n.z / (ONE_CUBED as int),
    }
}

/// Rodrigues' formula before it is rounded: the turned vector times `ONE` cubed.
pub open spec fn rodrigues_exact(p: Vector, u: Vector, c: int, s: int) -> Vector {
    let k = u.cross(p);
    let d = u.dot(p);
    Vector {
        x: p.x * c * ONE_SQ + k.x * s * ONE + u.x * d * (ONE - c),
        y: p.y * c * ONE_SQ + k.y * s * ONE + u.y * d * (ONE - c),
        z: p.z * c * ONE_SQ + k.z * s * ONE + u.z * d * (ONE - c),
    }
}

/// Where to sample a solid that was turned about `axis` by `angle`: `p` turned about
/// the same axis by the opposite angle, whose cosine is `angle.cos` and whose sine is
/// `-angle.sin`.
pub open spec fn turned_back(p: Vector, axis: Vector, angle: Angle) -> Vector {
    rodrigues(p, unit_of(axis), angle.cos as int, -(angle.sin as int))
}

/// The first coordinate axis, one unit long.
pub open spec fn axis_x() -> Vector {
    Vector { x: ONE as int, y: 0, z: 0 }
}

/// The second coordinate axis, one unit long.
pub open spec fn axis_y() -> Vector {
    Vector { x: 0, y: ONE as int, z: 0 }
}

/// The third coordinate axis, one unit long.
pub open spec fn axis_z() -> Vector {
    Vector { x: 0, y: 0, z: ONE as int }
}

/// `v` fits in an `i64`.
pub open spec fn fits_i64(v: int) -> bool {
    i64::MIN <= v <= i64::MAX
}

/// Where to sample a solid that was moved by `offset`: `p - offset`.
pub fn translate(p: Point3, offset: Point3) -> (r: Point3)
    requires
        fits_i64(p.x - offset.x),
        fits_i64(p.y - offset.y),
        fits_i64(p.z - offset.z),
    ensures
        r@ == p@.minus(offset@),
{
    Point3 { x: p.x - offset.x, y: p.y - offset.y, z: p.z - offset.z }
}

/// A product of an integer of magnitude at most `m` and one of magnitude at most `n` has
/// magnitude at most `m * n`.
pub proof fn lemma_product_bound_two(a: int, b: int, m: int, n: int)
    requires
        -m <= a <= m,
        -n <= b <= n,
    ensures
        -(m * n) <= a * b <= m * n,
{
    assert(-(m * n) <= a * b <= m * n) by (nonlinear_arith)
        requires
            -m <= a <= m,
            -n <= b <= n,
    ;
}

fn unit_coord(a: i64, n: i128) -> (u: i64)
    requires
        in_grid(a),
        0 < n,
        -(n * ONE) <= a * ONE_SQ <= n * ONE,
    ensures
        u == (a * ONE_SQ) / (n as int),
        -ONE <= u <= ONE,
{
    let q = div_floor(a as i128 * ONE_SQ, n);
    proof {
        lemma_div_is_ordered(-(n * ONE), a * ONE_SQ, n as int);
        lemma_div_is_ordered(a * ONE_SQ, n * ONE, n as int);
        lemma_div_multiples_vanish(ONE as int, n as int);
        lemma_div_multiples_vanish(-(ONE as int), n as int);
        assert(n * (-(ONE as int)) == -(n * ONE)) by (nonlinear_arith);
    }
    q as i64
}

proof fn lemma_coord_below_length(a: int, nn: int, n: int)
    requires
        0 <= a * a * ONE_SQ <= nn,
        is_floor_sqrt(n, nn),
    ensures
        -(n * ONE) <= a * ONE_SQ <= n * ONE,
{
    let m = if a >= 0 {
        a * ONE
    } else {
        -a * ONE
    };
    assert(m * m == a * a * ONE_SQ) by (nonlinear_arith)
        requires
            m == a * ONE || m == -a * ONE,
            ONE_SQ == ONE * ONE,
    ;
    if m > n {
        lemma_square_monotonic(n + 1, m);
    }
    assert(a * ONE_SQ == a * ONE * ONE) by (nonlinear_arith)
        requires
            ONE_SQ == ONE * ONE,
    ;
}

fn unit(axis: Point3) -> (u: Point3)
    requires
        axis.in_grid(),
        axis@.norm_sq() > 0,
    ensures
        u@ == unit_of(axis@),
        -ONE <= u.x <= ONE,
        -ONE <= u.y <= ONE,
        -ONE <= u.z <= ONE,
{
    let ax: i128 = axis.x as i128;
    let ay: i128 = axis.y as i128;
    let az: i128 = axis.z as i128;
    proof {
        lemma_square_bound(ax as int, 1073741824);
        lemma_square_bound(ay as int, 1073741824);
        lemma_square_bound(az as int, 1073741824);
    }
    let norm_sq: i128 = ax * ax + ay * ay + az * az;
    let nn: u128 = (norm_sq * ONE_SQ) as u128;
    let n: i128 = isqrt(nn) as i128;
    proof {
        assert(norm_sq == axis@.norm_sq());
        assert(nn >= 1);
        assert(n >= 1) by {
            if n < 1 {
                assert((n + 1) * (n + 1) == 1) by (nonlinear_arith)
                    requires
                        n == 0,
                ;
            }
        }
        assert(ax * ax * ONE_SQ <= nn) by (nonlinear_arith)
            requires
                nn == (ax * ax + ay * ay + az * az) * ONE_SQ,
                ONE_SQ > 0,
        ;
        assert(ay * ay * ONE_SQ <= nn) by (nonlinear_arith)
            requires
                nn == (ax * ax + ay * ay + az * az) * ONE_SQ,
                ONE_SQ > 0,
        ;
        assert(az * az * ONE_SQ <= nn) by (nonlinear_arith)
            requires
                nn == (ax * ax + ay * ay + az * az) * ONE_SQ,
                ONE_SQ > 0,
        ;
        assert(0 <= ax * ax * ONE_SQ && 0 <= ay * ay * ONE_SQ && 0 <= az * az * ONE_SQ)
            by (nonlinear_arith)
            requires
                ONE_SQ > 0,
        ;
        lemma_coord_below_length(ax as int, nn as int, n as int);
        lemma_coord_below_length(ay as int, nn as int, n as int);
        lemma_coord_below_length(az as int, nn as int, n as int);
    }
    Point3 { x: unit_coord(axis.x, n), y: unit_coord(axis.y, n), z: unit_coord(axis.z, n) }
}

fn rodrigues_coord(pc: i64, k: i128, uc: i64, d: i128, c: i128, s: i128) -> (r: i64)
    requires
        in_grid(pc),
        -140737488355328 <= k <= 140737488355328,
        -ONE <= uc <= ONE,
        -211106232532992 <= d <= 211106232532992,
        -ONE <= c <= ONE,
        -ONE <= s <= ONE,
    ensures
        r == (pc * c * ONE_SQ + k * s * ONE + uc * d * (ONE - c)) / (ONE_CUBED as int),
{
    proof {
        lemma_product_bound_two(pc as int, c as int, 1073741824, 65536);
        lemma_product_bound_two(k as int, s as int, 140737488355328, 65536);
        lemma_product_bound_two(uc as int, d as int, 65536, 211106232532992);
    }
    let pcc: i128 = pc as i128 * c;
    let ks: i128 = k * s;
    let ud: i128 = uc as i128 * d;
    let rest: i128 = ONE as i128 - c;
    proof {
        lemma_product_bound_two(ud as int, rest as int, 13835058055282163712, 131072);
    }
    let t1: i128 = pcc * ONE_SQ;
    let t2: i128 = ks * (ONE as i128);
    let t3: i128 = ud * rest;
    let q = div_floor(t1 + t2 + t3, ONE_CUBED);
    proof {
        let total = t1 as int + t2 as int + t3 as int;
        assert(-7000000000000000000000000 * ONE_CUBED <= total <= 7000000000000000000000000
            * ONE_CUBED);
        lemma_div_is_ordered(-7000000000000000000000000 * ONE_CUBED, total, ONE_CUBED as int);
        lemma_div_is_ordered(total, 7000000000000000000000000 * ONE_CUBED, ONE_CUBED as int);
        lemma_div_multiples_vanish(7000000000000000000000000, ONE_CUBED as int);
        lemma_div_multiples_vanish(-7000000000000000000000000, ONE_CUBED as int);
    }
    q as i64
}

/// Where to sample a solid that was turned about `axis` by `angle`.
///
/// The axis is scaled to unit length, then `p` is turned about it by the opposite
/// angle with Rodrigues' formula. The axis must not be the zero vector.
pub fn rotate_axis(p: Point3, axis: Point3, angle: Angle) -> (r: Point3)
    requires
        p.in_grid(),
        axis.in_grid(),
        axis@.norm_sq() > 0,
        angle.valid(),
    ensures
        r@ == turned_back(p@, axis@, angle),
{
    let u = unit(axis);
    let c: i128 = angle.cos as i128;
    let s: i128 = -(angle.sin as i128);
    proof {
        lemma_product_bound_two(u.y as int, p.z as int, 65536, 1073741824);
        lemma_product_bound_two(u.z as int, p.y as int, 65536, 1073741824);
        lemma_product_bound_two(u.z as int, p.x as int, 65536, 1073741824);
        lemma_product_bound_two(u.x as int, p.z as int, 65536, 1073741824);
        lemma_product_bound_two(u.x as int, p.y as int, 65536, 1073741824);
        lemma_product_bound_two(u.y as int, p.x as int, 65536, 1073741824);
        lemma_product_bound_two(u.x as int, p.x as int, 65536, 1073741824);
        lemma_product_bound_two(u.y as int, p.y as int, 65536, 1073741824);
        lemma_product_bound_two(u.z as int, p.z as int, 65536, 1073741824);
    }
    let kx: i128 = u.y as i128 * p.z as i128 - u.z as i128 * p.y as i128;
    let ky: i128 = u.z as i128 * p.x as i128 - u.x as i128 * p.z as i128;
    let kz: i128 = u.x as i128 * p.y as i128 - u.y as i128 * p.x as i128;
    let d: i128 = u.x as i128 * p.x as i128 + u.y as i128 * p.y as i128 + u.z as i128 * p.z as i128;
    Point3 {
        x: rodrigues_coord(p.x, kx, u.x, d, c, s),
        y: rodrigues_coord(p.y, ky, u.y, d, c, s),
        z: rodrigues_coord(p.z, kz, u.z, d, c, s),
    }
}

/// Where to sample a solid that was turned about the first coordinate axis.
pub fn rotate_x(p: Point3, angle: Angle) -> (r: Point3)
    requires
        p.in_grid(),
        angle.valid(),
    ensures
        r@ == turned_back(p@, axis_x(), angle),
{
    let axis = Point3 { x: ONE, y: 0, z: 0 };
    proof {
        assert(axis@ == axis_x());
        assert(axis@.norm_sq() == 4294967296) by (nonlinear_arith)
            requires
                axis@ == axis_x(),
        ;
    }
    rotate_axis(p, axis, angle)
}

/// Where to sample a solid that was turned about the second coordinate axis.
pub fn rotate_y(p: Point3, angle: Angle) -> (r: Point3)
    requires
        p.in_grid(),
        angle.valid(),
    ensures
        r@ == turned_back(p@, axis_y(), angle),
{
    let axis = Point3 { x: 0, y: ONE, z: 0 };
    proof {
        assert(axis@ == axis_y());
        assert(axis@.norm_sq() == 4294967296) by (nonlinear_arith)
            requires
                axis@ == axis_y(),
        ;
    }
    rotate_axis(p, axis, angle)
}

/// Where to sample a solid that was turned about the third coordinate axis.
pub fn rotate_z(p: Point3, angle: Angle) -> (r: Point3)
    requires
        p.in_grid(),
        angle.valid(),
    ensures
        r@ == turned_back(p@, axis_z(), angle),
{
    let axis = Point3 { x: 0, y: 0, z: ONE };
    proof {
        assert(axis@ == axis_z());
        assert(axis@.norm_sq() == 4294967296) by (nonlinear_arith)
            requires
                axis@ == axis_z(),
        ;
    }
    rotate_axis(p, axis, angle)
}

/// A matrix of three rows; its entries are fractions of `ONE`.
#[derive(Debug, Clone, Copy)]
pub struct Matrix3 {
    pub x: Point3,
    pub y: Point3,
    pub z: Point3,
}

/// A matrix of three rows of mathematical integers: what a `Matrix3` is in a contract.
pub struct Matrix {
    pub x: Vector,
    pub y: Vector,
    pub z: Vector,
}

impl View for Matrix3 {
    type V = Matrix;

    open spec fn view(&self) -> Matrix {
        Matrix { x: self.x@, y: self.y@, z: self.z@ }
    }
}

impl Matrix {
    /// The matrix applied to `p`: each row times `p`, over `ONE`, rounded down.
    pub open spec fn times(self, p: Vector) -> Vector {
        Vector {
            x: self.x.dot(p) / (ONE as int),
            y: self.y.dot(p) / (ONE as int),
            z: self.z.dot(p) / (ONE as int),
        }
    }

    /// The matrix with rows and columns swapped.
    pub open spec fn transposed(self) -> Matrix {
        Matrix {
            x: Vector { x: self.x.x, y: self.y.x, z: self.z.x },
            y: Vector { x: self.x.y, y: self.y.y, z: self.z.y },
            z: Vector { x: self.x.z, y: self.y.z, z: self.z.z },
        }
    }

    /// The matrix that changes nothing.
    pub open spec fn identity() -> Matrix {
        Matrix { x: axis_x(), y: axis_y(), z: axis_z() }
    }
}

impl Matrix3 {
    /// Every entry lies in the grid.
    pub open spec fn in_grid(self) -> bool {
        self.x.in_grid() && self.y.in_grid() && self.z.in_grid()
    }

    /// The matrix that changes nothing.
    pub fn identity() -> (m: Matrix3)
        ensures
            m@ == Matrix::identity(),
            m.in_grid(),
    {
        Matrix3 {
            x: Point3 { x: ONE, y: 0, z: 0 },
            y: Point3 { x: 0, y: ONE, z: 0 },
            z: Point3 { x: 0, y: 0, z: ONE },
        }
    }
}

/// The matrix of the turn that `rotate_euler` applies: the product
/// `Rx(-pitch) * Ry(-yaw) * Rz(-roll)` of the turns by the opposite angles about the
/// three coordinate axes, the one about `z` applied first. With `ca = cos pitch`,
/// `sa = -sin pitch`, `cb`, `sb` likewise of the yaw and `cc`, `sc` of the roll, its rows
/// are
///
/// ```text
/// cb cc                -cb sc               sb
/// ca sc + sa sb cc     ca cc - sa sb sc    -sa cb
/// sa sc - ca sb cc     sa cc + ca sb sc     ca cb
/// ```
///
/// Each entry is rounded down once.
pub open spec fn euler_matrix_of(pitch: Angle, yaw: Angle, roll: Angle) -> Matrix {
    let ca = pitch.cos as int;
    let sa = -(pitch.sin as int);
    let cb = yaw.cos as int;
    let sb = -(yaw.sin as int);
    let cc = roll.cos as int;
    let sc = -(roll.sin as int);
    Matrix {
        x: Vector { x: (cb * cc) / (ONE as int), y: (-(cb * sc)) / (ONE as int), z: sb },
        y: Vector {
            x: (ca * sc * ONE + sa * sb * cc) / (ONE_SQ as int),
            y: (ca * cc * ONE - sa * sb * sc) / (ONE_SQ as int),
            z: (-(sa * cb)) / (ONE as int),
        },
        z: Vector {
            x: (sa * sc * ONE - ca * sb * cc) / (ONE_SQ as int),
            y: (sa * cc * ONE + ca * sb * sc) / (ONE_SQ as int),
            z: (ca * cb) / (ONE as int),
        },
    }
}

fn row_times(row: Point3, p: Point3) -> (r: i64)
    requires
        row.in_grid(),
        p.in_grid(),
    ensures
        r == row@.dot(p@) / (ONE as int),
{
    proof {
        lemma_product_bound_two(row.x as int, p.x as int, 1073741824, 1073741824);
        lemma_product_bound_two(row.y as int, p.y as int, 1073741824, 1073741824);
        lemma_product_bound_two(row.z as int, p.z as int, 1073741824, 1073741824);
    }
    let sum: i128 = row.x as i128 * p.x as i128 + row.y as i128 * p.y as i128 + row.z as i128
        * p.z as i128;
    let q = div_floor(sum, ONE as i128);
    proof {
        lemma_div_is_ordered(-70368744177664 * ONE, sum as int, ONE as int);
        lemma_div_is_ordered(sum as int, 70368744177664 * ONE, ONE as int);
        lemma_div_multiples_vanish(70368744177664, ONE as int);
        lemma_div_multiples_vanish(-70368744177664, ONE as int);
    }
    q as i64
}

/// Where to sample a solid that was turned by the matrix `m`: the transpose of `m`
/// applied to `p`. For a matrix of a turn the transpose is the inverse.
pub fn rotate_matrix(p: Point3, m: Matrix3) -> (r: Point3)
    requires
        p.in_grid(),
        m.in_grid(),
    ensures
        r@ == m@.transposed().times(p@),
{
    let cx = Point3 { x: m.x.x, y: m.y.x, z: m.z.x };
    let cy = Point3 { x: m.x.y, y: m.y.y, z: m.z.y };
    let cz = Point3 { x: m.x.z, y: m.y.z, z: m.z.z };
    Point3 { x: row_times(cx, p), y: row_times(cy, p), z: row_times(cz, p) }
}

fn entry_two(a: i64, b: i64) -> (e: i64)
    requires
        -ONE <= a <= ONE,
        -ONE <= b <= ONE,
    ensures
        e == (a * b) / (ONE as int),
        -ONE <= e <= ONE,
{
    proof {
        lemma_product_bound_two(a as int, b as int, 65536, 65536);
    }
    let q = div_floor(a as i128 * b as i128, ONE as i128);
    proof {
        lemma_div_is_ordered(-65536 * ONE, a * b, ONE as int);
        lemma_div_is_ordered(a * b, 65536 * ONE, ONE as int);
        lemma_div_multiples_vanish(65536, ONE as int);
        lemma_div_multiples_vanish(-65536, ONE as int);
    }
    q as i64
}

fn entry_three(a: i64, b: i64, c: i64, d: i64, e: i64) -> (r: i64)
    requires
        -ONE <= a <= ONE,
        -ONE <= b <= ONE,
        -ONE <= c <= ONE,
        -ONE <= d <= ONE,
        -ONE <= e <= ONE,
    ensures
        r == (a * b * ONE + c * d * e) / (ONE_SQ as int),
        -2 * ONE <= r <= 2 * ONE,
{
    proof {
        lemma_product_bound_two(a as int, b as int, 65536, 65536);
        lemma_product_bound_two(c as int, d as int, 65536, 65536);
        lemma_product_bound_two(c * d, e as int, 4294967296, 65536);
    }
    let first: i128 = a as i128 * b as i128 * (ONE as i128);
    let second: i128 = c as i128 * d as i128 * e as i128;
    let q = div_floor(first + second, ONE_SQ);
    proof {
        let total = first as int + second as int;
        lemma_div_is_ordered(-131072 * ONE_SQ, total, ONE_SQ as int);
        lemma_div_is_ordered(total, 131072 * ONE_SQ, ONE_SQ as int);
        lemma_div_multiples_vanish(131072, ONE_SQ as int);
        lemma_div_multiples_vanish(-131072, ONE_SQ as int);
    }
    q as i64
}

/// The matrix of the turn by the opposite of the three angles: about `z` by the roll
/// first, then about `y` by the yaw, then about `x` by the pitch.
pub fn euler_matrix(pitch: Angle, yaw: Angle, roll: Angle) -> (m: Matrix3)
    requires
        pitch.valid(),
        yaw.valid(),
        roll.valid(),
    ensures
        m@ == euler_matrix_of(pitch, yaw, roll),
        m.in_grid(),
{
    let ca: i64 = pitch.cos;
    let sa: i64 = -pitch.sin;
    let cb: i64 = yaw.cos;
    let sb: i64 = -yaw.sin;
    let cc: i64 = roll.cos;
    let sc: i64 = -roll.sin;
    proof {
        assert(ca * cc * ONE - sa * sb * sc == ca * cc * ONE + (-sa) * sb * sc) by (nonlinear_arith);
        assert(sa * sc * ONE - ca * sb * cc == sa * sc * ONE + (-ca) * sb * cc) by (nonlinear_arith);
        assert(-(cb * sc) == cb * (-sc)) by (nonlinear_arith);
        assert(-(sa * cb) == (-sa) * cb) by (nonlinear_arith);
    }
    Matrix3 {
        x: Point3 { x: entry_two(cb, cc), y: entry_two(cb, -sc), z: sb },
        y: Point3 {
            x: entry_three(ca, sc, sa, sb, cc),
            y: entry_three(ca, cc, -sa, sb, sc),
            z: entry_two(-sa, cb),
        },
        z: Point3 {
            x: entry_three(sa, sc, -ca, sb, cc),
            y: entry_three(sa, cc, ca, sb, sc),
            z: entry_two(ca, cb),
        },
    }
}

/// Where to sample a solid that was turned by the three angles: the matrix of
/// `euler_matrix` applied to `p`.
pub fn rotate_euler(p: Point3, pitch: Angle, yaw: Angle, roll: Angle) -> (r: Point3)
    requires
        p.in_grid(),
        pitch.valid(),
        yaw.valid(),
        roll.valid(),
    ensures
        r@ == euler_matrix_of(pitch, yaw, roll).times(p@),
{
    let m = euler_matrix(pitch, yaw, roll);
    Point3 { x: row_times(m.x, p), y: row_times(m.y, p), z: row_times(m.z, p) }
}

/// The square of a sum of three.
proof fn lemma_square_of_three(a: int, b: int, c: int)
    ensures
        (a + b + c) * (a + b + c) == a * a + b * b + c * c + 2 * (a * b) + 2 * (a * c) + 2 * (b * c),
{
    assert((a + b + c) * (a + b + c) == a * a + b * b + c * c + 2 * (a * b) + 2 * (a * c) + 2 * (b
        * c)) by (nonlinear_arith);
}

/// A product of two scaled numbers.
proof fn lemma_scaled_product(m: int, x: int, n: int, y: int)
    ensures
        (m * x) * (n * y) == (m * n) * (x * y),
{
    assert((m * x) * (n * y) == (m * n) * (x * y)) by (nonlinear_arith);
}

/// The scalar product of two scaled vectors.
proof fn lemma_scaled_dot(m: int, v: Vector, n: int, w: Vector)
    ensures
        (m * v.x) * (n * w.x) + (m * v.y) * (n * w.y) + (m * v.z) * (n * w.z) == (m * n) * v.dot(w),
{
    lemma_scaled_product(m, v.x, n, w.x);
    lemma_scaled_product(m, v.y, n, w.y);
    lemma_scaled_product(m, v.z, n, w.z);
    let mn = m * n;
    assert(mn * (v.x * w.x) + mn * (v.y * w.y) + mn * (v.z * w.z) == mn * (v.x * w.x + v.y * w.y
        + v.z * w.z)) by (nonlinear_arith);
}

/// The squared length of a sum of three scaled vectors.
proof fn lemma_norm_of_combination(a: int, p: Vector, b: int, k: Vector, g: int, u: Vector)
    ensures
        (a * p.x + b * k.x + g * u.x) * (a * p.x + b * k.x + g * u.x) + (a * p.y + b * k.y + g * u.y)
            * (a * p.y + b * k.y + g * u.y) + (a * p.z + b * k.z + g * u.z) * (a * p.z + b * k.z + g
            * u.z) == (a * a) * p.norm_sq() + (b * b) * k.norm_sq() + (g * g) * u.norm_sq() + 2 * ((a
            * b) * p.dot(k)) + 2 * ((a * g) * p.dot(u)) + 2 * ((b * g) * k.dot(u)),
{
    lemma_square_of_three(a * p.x, b * k.x, g * u.x);
    lemma_square_of_three(a * p.y, b * k.y, g * u.y);
    lemma_square_of_three(a * p.z, b * k.z, g * u.z);
    lemma_scaled_dot(a, p, a, p);
    lemma_scaled_dot(b, k, b, k);
    lemma_scaled_dot(g, u, g, u);
    lemma_scaled_dot(a, p, b, k);
    lemma_scaled_dot(a, p, g, u);
    lemma_scaled_dot(b, k, g, u);
}

/// Before the rounding, Rodrigues' formula keeps the length of what it turns: if the
/// axis `u` is exactly `ONE` long and `c`, `s` are exactly the cosine and sine of an
/// angle (`c^2 + s^2 == ONE^2`), the turned vector times `ONE` cubed is exactly `ONE`
/// cubed times as long as `p`.
///
/// On the grid this is the case for the quarter turns about the coordinate axes. For
/// any other turn the unit axis, the cosine and the sine are themselves rounded, and the
/// length is kept up to that rounding and the rounding of the result.
pub proof fn lemma_rodrigues_keeps_length(p: Vector, u: Vector, c: int, s: int)
    requires
        u.norm_sq() == ONE_SQ,
        c * c + s * s == ONE_SQ,
    ensures
        rodrigues_exact(p, u, c, s).norm_sq() == ONE_CUBED * ONE_CUBED * p.norm_sq(),
{
    let k = u.cross(p);
    let d = u.dot(p);
    let a = c * ONE_SQ;
    let b = s * ONE;
    let g = d * (ONE - c);
    let n = rodrigues_exact(p, u, c, s);
    assert(n.x == a * p.x + b * k.x + g * u.x) by (nonlinear_arith)
        requires
            n.x == p.x * c * ONE_SQ + k.x * s * ONE + u.x * d * (ONE - c),
            a == c * ONE_SQ,
            b == s * ONE,
            g == d * (ONE - c),
    ;
    assert(n.y == a * p.y + b * k.y + g * u.y) by (nonlinear_arith)
        requires
            n.y == p.y * c * ONE_SQ + k.y * s * ONE + u.y * d * (ONE - c),
            a == c * ONE_SQ,
            b == s * ONE,
            g == d * (ONE - c),
    ;
    assert(n.z == a * p.z + b * k.z + g * u.z) by (nonlinear_arith)
        requires
            n.z == p.z * c * ONE_SQ + k.z * s * ONE + u.z * d * (ONE - c),
            a == c * ONE_SQ,
            b == s * ONE,
            g == d * (ONE - c),
    ;
    lemma_norm_of_combination(a, p, b, k, g, u);
    lemma_cross_is_perpendicular(u, p);
    assert(p.dot(k) == k.dot(p)) by (nonlinear_arith);
    assert(p.dot(u) == d) by (nonlinear_arith)
        requires
            d == u.dot(p),
    ;
    lemma_lagrange_in_space(u, p);
    let pp = p.norm_sq();
    let dd = d * d;
    let cc = c * c;
    let ss = s * s;
    let q = ONE_SQ as int;
    assert(k.norm_sq() == q * pp - dd);
    assert(n.norm_sq() == (a * a) * pp + (b * b) * (q * pp - dd) + (g * g) * q + 2 * ((a * g) * d));
    assert(a * a == cc * (q * q)) by (nonlinear_arith)
        requires
            a == c * q,
            cc == c * c,
    ;
    assert(b * b == ss * q) by (nonlinear_arith)
        requires
            b == s * ONE,
            ss == s * s,
            q == ONE * ONE,
    ;
    assert(g * g == dd * (q - 2 * (ONE * c) + cc)) by (nonlinear_arith)
        requires
            g == d * (ONE - c),
            dd == d * d,
            cc == c * c,
            q == ONE * ONE,
    ;
    assert((a * g) * d == (q * dd) * (ONE * c - cc)) by (nonlinear_arith)
        requires
            a == c * q,
            g == d * (ONE - c),
            dd == d * d,
            cc == c * c,
    ;
    let qqp = (q * q) * pp;
    let qdd = q * dd;
    assert((cc * (q * q)) * pp == cc * qqp) by (nonlinear_arith)
        requires
            qqp == (q * q) * pp,
    ;
    assert((ss * q) * (q * pp - dd) == ss * qqp - ss * qdd) by (nonlinear_arith)
        requires
            qqp == (q * q) * pp,
            qdd == q * dd,
    ;
    assert((dd * (q - 2 * (ONE * c) + cc)) * q == q * qdd - 2 * ((ONE * c) * qdd) + cc * qdd)
        by (nonlinear_arith)
        requires
            qdd == q * dd,
    ;
    assert((q * dd) * (ONE * c - cc) == (ONE * c) * qdd - cc * qdd) by (nonlinear_arith)
        requires
            qdd == q * dd,
    ;
    assert(cc * qqp + ss * qqp == q * qqp) by (nonlinear_arith)
        requires
            cc + ss == q,
    ;
    assert(cc * qdd + ss * qdd == q * qdd) by (nonlinear_arith)
        requires
            cc + ss == q,
    ;
    assert(q * qqp == ONE_CUBED * ONE_CUBED * pp) by (nonlinear_arith)
        requires
            qqp == (q * q) * pp,
            q == ONE_SQ,
            ONE_SQ * ONE_SQ * ONE_SQ == ONE_CUBED * ONE_CUBED,
    ;
}

/// Rounding one coordinate down to a multiple of `m` changes its square by at most
/// `2 m |n| + m^2`.
pub proof fn lemma_rounded_square(n: int, m: int)
    requires
        m > 0,
    ensures
        abs_int((m * (n / m)) * (m * (n / m)) - n * n) <= 2 * m * abs_int(n) + m * m,
{
    let q = n / m;
    let e = n % m;
    lemma_fundamental_div_mod(n, m);
    lemma_mod_bound(n, m);
    let a = abs_int(n);
    assert((m * q) * (m * q) - n * n == e * e - 2 * (n * e)) by (nonlinear_arith)
        requires
            n == m * q + e,
    ;
    assert(0 <= e * e <= m * m) by (nonlinear_arith)
        requires
            0 <= e < m,
    ;
    assert(-(a * m) <= n * e <= a * m) by (nonlinear_arith)
        requires
            0 <= e < m,
            -a <= n <= a,
    ;
    assert(2 * m * a == 2 * (a * m)) by (nonlinear_arith);
}

/// Rounding the three coordinates of `n` down to multiples of `m` changes the squared
/// length by at most `2 m (|n.x| + |n.y| + |n.z|) + 3 m^2`.
pub proof fn lemma_rounding_keeps_length(n: Vector, m: int)
    requires
        m > 0,
    ensures
        ({
            let r = Vector { x: n.x / m, y: n.y / m, z: n.z / m };
            abs_int(m * m * r.norm_sq() - n.norm_sq()) <= 2 * m * (abs_int(n.x) + abs_int(n.y)
                + abs_int(n.z)) + 3 * (m * m)
        }),
{
    let r = Vector { x: n.x / m, y: n.y / m, z: n.z / m };
    lemma_rounded_square(n.x, m);
    lemma_rounded_square(n.y, m);
    lemma_rounded_square(n.z, m);
    lemma_scaled_dot(m, r, m, r);
    let ax = abs_int(n.x);
    let ay = abs_int(n.y);
    let az = abs_int(n.z);
    assert(2 * m * (ax + ay + az) == 2 * m * ax + 2 * m * ay + 2 * m * az) by (nonlinear_arith);
}

/// A turn keeps the length of what it turns, up to the rounding of the result: if the
/// axis `u` is exactly `ONE` long and `c`, `s` are exactly the cosine and sine of an
/// angle, the squared length of the turned point, scaled by `ONE^6`, differs from that
/// of `p` by no more than the rounding of the three coordinates can change it.
pub proof fn lemma_turn_keeps_length_up_to_rounding(p: Vector, u: Vector, c: int, s: int)
    requires
        u.norm_sq() == ONE_SQ,
        c * c + s * s == ONE_SQ,
    ensures
        ({
            let n = rodrigues_exact(p, u, c, s);
            let r = rodrigues(p, u, c, s);
            abs_int(ONE_CUBED * ONE_CUBED * r.norm_sq() - ONE_CUBED * ONE_CUBED * p.norm_sq()) <= 2
                * ONE_CUBED * (abs_int(n.x) + abs_int(n.y) + abs_int(n.z)) + 3 * (ONE_CUBED
                * ONE_CUBED)
        }),
{
    lemma_rodrigues_keeps_length(p, u, c, s);
    lemma_rounding_keeps_length(rodrigues_exact(p, u, c, s), ONE_CUBED as int);
}

/// The two coordinates that a turn about a coordinate axis changes, before they are
/// rounded: `(a c + b s, b c - a s)`. Their squared length is `(a^2 + b^2)(c^2 + s^2)`:
/// the turn scales the length by the length of `(c, s)`, which is `ONE` for the cosine
/// and sine of an angle, up to their own rounding.
pub proof fn lemma_plane_turn_keeps_length(a: int, b: int, c: int, s: int)
    ensures
        (a * c + b * s) * (a * c + b * s) + (b * c - a * s) * (b * c - a * s) == (a * a + b * b) * (c
            * c + s * s),
{
    lemma_lagrange_plane(a, b, c, s);
    assert((b * c - a * s) * (b * c - a * s) == (a * s - b * c) * (a * s - b * c)) by (nonlinear_arith);
}

/// A turn about the third coordinate axis keeps the length up to rounding, for every
/// point and every angle: `z` stays, and the squared length of `(x, y)`, scaled by
/// `ONE^2`, differs from `(x^2 + y^2)(cos^2 + sin^2)` by no more than the rounding of the
/// two coordinates can change it. The same holds about the other two axes.
pub proof fn lemma_axis_turn_keeps_length_up_to_rounding(p: Vector, angle: Angle)
    ensures
        ({
            let r = turned_back(p, axis_z(), angle);
            let x = p.x * angle.cos + p.y * angle.sin;
            let y = p.y * angle.cos - p.x * angle.sin;
            &&& r.z == p.z
            &&& abs_int(ONE_SQ * (r.x * r.x + r.y * r.y) - (p.x * p.x + p.y * p.y) * (angle.cos
                * angle.cos + angle.sin * angle.sin)) <= 2 * ONE * (abs_int(x) + abs_int(y)) + 2
                * ONE_SQ
        }),
        ({
            let r = turned_back(p, axis_x(), angle);
            let y = p.y * angle.cos + p.z * angle.sin;
            let z = p.z * angle.cos - p.y * angle.sin;
            &&& r.x == p.x
            &&& abs_int(ONE_SQ * (r.y * r.y + r.z * r.z) - (p.y * p.y + p.z * p.z) * (angle.cos
                * angle.cos + angle.sin * angle.sin)) <= 2 * ONE * (abs_int(y) + abs_int(z)) + 2
                * ONE_SQ
        }),
        ({
            let r = turned_back(p, axis_y(), angle);
            let z = p.z * angle.cos + p.x * angle.sin;
            let x = p.x * angle.cos - p.z * angle.sin;
            &&& r.y == p.y
            &&& abs_int(ONE_SQ * (r.z * r.z + r.x * r.x) - (p.z * p.z + p.x * p.x) * (angle.cos
                * angle.cos + angle.sin * angle.sin)) <= 2 * ONE * (abs_int(z) + abs_int(x)) + 2
                * ONE_SQ
        }),
{
    lemma_turned_back_about_x(p, angle);
    lemma_turned_back_about_y(p, angle);
    lemma_turned_back_about_z(p, angle);
    lemma_plane_turn_rounded(p.x, p.y, angle.cos as int, angle.sin as int);
    lemma_plane_turn_rounded(p.y, p.z, angle.cos as int, angle.sin as int);
    lemma_plane_turn_rounded(p.z, p.x, angle.cos as int, angle.sin as int);
}

proof fn lemma_plane_turn_rounded(a: int, b: int, c: int, s: int)
    ensures
        ({
            let x = a * c + b * s;
            let y = b * c - a * s;
            let first = x / (ONE as int);
            let second = y / (ONE as int);
            abs_int(ONE_SQ * (first * first + second * second) - (a * a + b * b) * (c * c + s * s))
                <= 2 * ONE * (abs_int(x) + abs_int(y)) + 2 * ONE_SQ
        }),
{
    let x = a * c + b * s;
    let y = b * c - a * s;
    let first = x / (ONE as int);
    let second = y / (ONE as int);
    lemma_plane_turn_keeps_length(a, b, c, s);
    lemma_rounded_square(x, ONE as int);
    lemma_rounded_square(y, ONE as int);
    let one = ONE as int;
    assert((one * first) * (one * first) == ONE_SQ * (first * first)) by (nonlinear_arith)
        requires
            ONE_SQ == one * one,
    ;
    assert((one * second) * (one * second) == ONE_SQ * (second * second)) by (nonlinear_arith)
        requires
            ONE_SQ == one * one,
    ;
    assert(ONE_SQ * (first * first + second * second) == ONE_SQ * (first * first) + ONE_SQ * (
    second * second)) by (nonlinear_arith);
    let ax = abs_int(x);
    let ay = abs_int(y);
    assert(2 * ONE * (ax + ay) == 2 * one * ax + 2 * one * ay) by (nonlinear_arith)
        requires
            one == ONE,
    ;
}

/// `angle` is a whole number of quarter turns.
pub open spec fn quarter_turns(angle: Angle) -> bool {
    ||| angle.cos == ONE && angle.sin == 0
    ||| angle.cos == 0 && angle.sin == ONE
    ||| angle.cos == -ONE && angle.sin == 0
    ||| angle.cos == 0 && angle.sin == -ONE
}

proof fn lemma_quarter_turn_in_plane(a: int, b: int, angle: Angle)
    requires
        quarter_turns(angle),
    ensures
        ({
            let first = (a * angle.cos + b * angle.sin) / (ONE as int);
            let second = (b * angle.cos - a * angle.sin) / (ONE as int);
            first * first + second * second == a * a + b * b
        }),
{
    lemma_div_multiples_vanish(a, ONE as int);
    lemma_div_multiples_vanish(b, ONE as int);
    lemma_div_multiples_vanish(-a, ONE as int);
    lemma_div_multiples_vanish(-b, ONE as int);
    let c = angle.cos as int;
    let s = angle.sin as int;
    if c == ONE {
        assert(a * c + b * s == ONE * a && b * c - a * s == ONE * b) by (nonlinear_arith)
            requires
                c == ONE,
                s == 0,
        ;
    } else if c == -ONE {
        assert(a * c + b * s == ONE * (-a) && b * c - a * s == ONE * (-b)) by (nonlinear_arith)
            requires
                c == -ONE,
                s == 0,
        ;
        assert((-a) * (-a) == a * a && (-b) * (-b) == b * b) by (nonlinear_arith);
    } else if s == ONE {
        assert(a * c + b * s == ONE * b && b * c - a * s == ONE * (-a)) by (nonlinear_arith)
            requires
                c == 0,
                s == ONE,
        ;
        assert((-a) * (-a) == a * a) by (nonlinear_arith);
    } else {
        assert(a * c + b * s == ONE * (-b) && b * c - a * s == ONE * a) by (nonlinear_arith)
            requires
                c == 0,
                s == -ONE,
        ;
        assert((-b) * (-b) == b * b) by (nonlinear_arith);
    }
}

/// A quarter turn, or several, about a coordinate axis keeps the length of every
/// point exactly.
pub proof fn lemma_quarter_turns_keep_length(p: Vector, angle: Angle)
    requires
        quarter_turns(angle),
    ensures
        turned_back(p, axis_x(), angle).norm_sq() == p.norm_sq(),
        turned_back(p, axis_y(), angle).norm_sq() == p.norm_sq(),
        turned_back(p, axis_z(), angle).norm_sq() == p.norm_sq(),
{
    lemma_turned_back_about_x(p, angle);
    lemma_turned_back_about_y(p, angle);
    lemma_turned_back_about_z(p, angle);
    lemma_quarter_turn_in_plane(p.y, p.z, angle);
    lemma_quarter_turn_in_plane(p.z, p.x, angle);
    lemma_quarter_turn_in_plane(p.x, p.y, angle);
}

/// The identity matrix moves nothing, and neither does its transpose.
pub proof fn lemma_identity_matrix(p: Vector)
    ensures
        Matrix::identity().times(p) == p,
        Matrix::identity().transposed().times(p) == p,
{
    lemma_div_multiples_vanish(p.x, ONE as int);
    lemma_div_multiples_vanish(p.y, ONE as int);
    lemma_div_multiples_vanish(p.z, ONE as int);
    assert(axis_x().dot(p) == ONE * p.x) by (nonlinear_arith);
    assert(axis_y().dot(p) == ONE * p.y) by (nonlinear_arith);
    assert(axis_z().dot(p) == ONE * p.z) by (nonlinear_arith);
    assert(Matrix::identity().transposed() == Matrix::identity());
}

/// The three angles zero give the identity matrix.
pub proof fn lemma_euler_zero()
    ensures
        euler_matrix_of(
            Angle { cos: ONE, sin: 0 },
            Angle { cos: ONE, sin: 0 },
            Angle { cos: ONE, sin: 0 },
        ) == Matrix::identity(),
{
    let zero = Angle { cos: ONE, sin: 0 };
    let m = euler_matrix_of(zero, zero, zero);
    assert(m.x == axis_x()) by (nonlinear_arith)
        requires
            m == euler_matrix_of(zero, zero, zero),
            zero == (Angle { cos: ONE, sin: 0 }),
    ;
    assert(m.y == axis_y()) by (nonlinear_arith)
        requires
            m == euler_matrix_of(zero, zero, zero),
            zero == (Angle { cos: ONE, sin: 0 }),
    ;
    assert(m.z == axis_z()) by (nonlinear_arith)
        requires
            m == euler_matrix_of(zero, zero, zero),
            zero == (Angle { cos: ONE, sin: 0 }),
    ;
}

proof fn lemma_entry_keeps(a: int)
    ensures
        (a * ONE) / (ONE as int) == a,
        (ONE * a) / (ONE as int) == a,
        (a * ONE * ONE) / (ONE_SQ as int) == a,
        (ONE * a * ONE) / (ONE_SQ as int) == a,
{
    lemma_div_multiples_vanish(a, ONE as int);
    lemma_div_multiples_vanish(a, ONE_SQ as int);
    assert(a * ONE == ONE * a) by (nonlinear_arith);
    assert(a * ONE * ONE == ONE_SQ * a) by (nonlinear_arith);
    assert(ONE * a * ONE == ONE_SQ * a) by (nonlinear_arith);
}

/// With neither yaw nor roll, `rotate_euler` turns about the first coordinate axis by
/// the pitch, as `rotate_x` does.
pub proof fn lemma_euler_pitch_alone(p: Vector, pitch: Angle)
    ensures
        euler_matrix_of(pitch, Angle { cos: ONE, sin: 0 }, Angle { cos: ONE, sin: 0 }).times(p)
            == turned_back(p, axis_x(), pitch),
{
    let zero = Angle { cos: ONE, sin: 0 };
    let m = euler_matrix_of(pitch, zero, zero);
    let ca = pitch.cos as int;
    let sa = -(pitch.sin as int);
    lemma_entry_keeps(ONE as int);
    lemma_entry_keeps(ca);
    lemma_entry_keeps(sa);
    lemma_entry_keeps(-sa);
    assert(-(ONE * 0) == 0 && -(sa * ONE) == (-sa) * ONE) by (nonlinear_arith);
    assert(m.x == axis_x());
    assert(ca * 0 * ONE + sa * 0 * ONE == 0 && sa * 0 * ONE - ca * 0 * ONE == 0) by (nonlinear_arith);
    assert(ca * ONE * ONE - sa * 0 * 0 == ca * ONE * ONE && sa * ONE * ONE + ca * 0 * 0 == sa * ONE
        * ONE) by (nonlinear_arith);
    assert(m.y == Vector { x: 0, y: ca, z: -sa });
    assert(m.z == Vector { x: 0, y: sa, z: ca });
    lemma_turned_back_about_x(p, pitch);
    lemma_div_multiples_vanish(p.x, ONE as int);
    assert(m.x.dot(p) == ONE * p.x) by (nonlinear_arith)
        requires
            m.x == axis_x(),
    ;
    assert(m.y.dot(p) == p.y * pitch.cos + p.z * pitch.sin) by (nonlinear_arith)
        requires
            m.y == (Vector { x: 0, y: ca, z: -sa }),
            ca == pitch.cos,
            sa == -(pitch.sin as int),
    ;
    assert(m.z.dot(p) == p.z * pitch.cos - p.y * pitch.sin) by (nonlinear_arith)
        requires
            m.z == (Vector { x: 0, y: sa, z: ca }),
            ca == pitch.cos,
            sa == -(pitch.sin as int),
    ;
}

/// With neither pitch nor roll, `rotate_euler` turns about the second coordinate axis
/// by the yaw, as `rotate_y` does.
pub proof fn lemma_euler_yaw_alone(p: Vector, yaw: Angle)
    ensures
        euler_matrix_of(Angle { cos: ONE, sin: 0 }, yaw, Angle { cos: ONE, sin: 0 }).times(p)
            == turned_back(p, axis_y(), yaw),
{
    let zero = Angle { cos: ONE, sin: 0 };
    let m = euler_matrix_of(zero, yaw, zero);
    let cb = yaw.cos as int;
    let sb = -(yaw.sin as int);
    lemma_entry_keeps(ONE as int);
    lemma_entry_keeps(cb);
    lemma_entry_keeps(-sb);
    assert(cb * ONE == cb * ONE && -(cb * 0) == 0 && -(0 * cb) == 0) by (nonlinear_arith);
    assert(m.x == Vector { x: cb, y: 0, z: sb });
    assert(ONE * 0 * ONE + 0 * sb * ONE == 0 && ONE * ONE * ONE - 0 * sb * 0 == ONE * ONE * ONE)
        by (nonlinear_arith);
    assert(m.y == axis_y());
    assert(0 * 0 * ONE - ONE * sb * ONE == ONE * (-sb) * ONE && 0 * ONE * ONE + ONE * sb * 0 == 0)
        by (nonlinear_arith);
    assert(m.z == Vector { x: -sb, y: 0, z: cb });
    lemma_turned_back_about_y(p, yaw);
    lemma_div_multiples_vanish(p.y, ONE as int);
    assert(m.y.dot(p) == ONE * p.y) by (nonlinear_arith)
        requires
            m.y == axis_y(),
    ;
    assert(m.x.dot(p) == p.x * yaw.cos - p.z * yaw.sin) by (nonlinear_arith)
        requires
            m.x == (Vector { x: cb, y: 0, z: sb }),
            cb == yaw.cos,
            sb == -(yaw.sin as int),
    ;
    assert(m.z.dot(p) == p.z * yaw.cos + p.x * yaw.sin) by (nonlinear_arith)
        requires
            m.z == (Vector { x: -sb, y: 0, z: cb }),
            cb == yaw.cos,
            sb == -(yaw.sin as int),
    ;
}

/// With neither pitch nor yaw, `rotate_euler` turns about the third coordinate axis by
/// the roll, as `rotate_z` does.
pub proof fn lemma_euler_roll_alone(p: Vector, roll: Angle)
    ensures
        euler_matrix_of(Angle { cos: ONE, sin: 0 }, Angle { cos: ONE, sin: 0 }, roll).times(p)
            == turned_back(p, axis_z(), roll),
{
    let zero = Angle { cos: ONE, sin: 0 };
    let m = euler_matrix_of(zero, zero, roll);
    let cc = roll.cos as int;
    let sc = -(roll.sin as int);
    lemma_entry_keeps(ONE as int);
    lemma_entry_keeps(cc);
    lemma_entry_keeps(sc);
    lemma_entry_keeps(-sc);
    assert(-(ONE * sc) == ONE * (-sc)) by (nonlinear_arith);
    assert(m.x == Vector { x: cc, y: -sc, z: 0 });
    assert(ONE * sc * ONE + 0 * 0 * cc == ONE * sc * ONE && ONE * cc * ONE - 0 * 0 * sc == ONE * cc
        * ONE && -(0 * ONE) == 0) by (nonlinear_arith);
    assert(m.y == Vector { x: sc, y: cc, z: 0 });
    assert(0 * sc * ONE - ONE * 0 * cc == 0 && 0 * cc * ONE + ONE * 0 * sc == 0) by (nonlinear_arith);
    assert(m.z == axis_z());
    lemma_turned_back_about_z(p, roll);
    lemma_div_multiples_vanish(p.z, ONE as int);
    assert(m.z.dot(p) == ONE * p.z) by (nonlinear_arith)
        requires
            m.z == axis_z(),
    ;
    assert(m.x.dot(p) == p.x * roll.cos + p.y * roll.sin) by (nonlinear_arith)
        requires
            m.x == (Vector { x: cc, y: -sc, z: 0 }),
            cc == roll.cos,
            sc == -(roll.sin as int),
    ;
    assert(m.y.dot(p) == p.y * roll.cos - p.x * roll.sin) by (nonlinear_arith)
        requires
            m.y == (Vector { x: sc, y: cc, z: 0 }),
            cc == roll.cos,
            sc == -(roll.sin as int),
    ;
}

/// Turning by the angle zero moves nothing, whatever the axis.
pub proof fn lemma_zero_angle_is_identity(p: Vector, axis: Vector)
    ensures
        turned_back(p, axis, Angle { cos: ONE, sin: 0 }) == p,
{
    let u = unit_of(axis);
    let k = u.cross(p);
    let d = u.dot(p);
    lemma_keeps_coordinate(p.x, k.x, u.x * d);
    lemma_keeps_coordinate(p.y, k.y, u.y * d);
    lemma_keeps_coordinate(p.z, k.z, u.z * d);
}

proof fn lemma_keeps_coordinate(a: int, k: int, ud: int)
    ensures
        (a * ONE * ONE_SQ + k * 0 * ONE + ud * (ONE - ONE)) / (ONE_CUBED as int) == a,
{
    assert(a * ONE * ONE_SQ + k * 0 * ONE + ud * (ONE - ONE) == ONE_CUBED * a) by (nonlinear_arith);
    lemma_div_multiples_vanish(a, ONE_CUBED as int);
}

/// The coordinate axes have unit length already.
pub proof fn lemma_unit_of_axes()
    ensures
        unit_of(axis_x()) == axis_x(),
        unit_of(axis_y()) == axis_y(),
        unit_of(axis_z()) == axis_z(),
{
    assert(axis_x().norm_sq() == ONE_SQ) by (nonlinear_arith);
    assert(axis_y().norm_sq() == ONE_SQ) by (nonlinear_arith);
    assert(axis_z().norm_sq() == ONE_SQ) by (nonlinear_arith);
    assert(is_floor_sqrt(ONE_SQ as int, ONE_SQ * ONE_SQ)) by (nonlinear_arith);
    lemma_floor_sqrt_unique(ONE_SQ as int, ONE_SQ * ONE_SQ);
    lemma_div_multiples_vanish(ONE as int, ONE_SQ as int);
    lemma_div_multiples_vanish(0, ONE_SQ as int);
    assert(ONE * ONE_SQ == ONE_SQ * ONE) by (nonlinear_arith);
    assert(0 * ONE_SQ == ONE_SQ * 0) by (nonlinear_arith);
}

proof fn lemma_axis_coordinate(a: int, c: int, s: int)
    ensures
        (a * c * ONE_SQ + 0 * s * ONE + ONE * (ONE * a) * (ONE - c)) / (ONE_CUBED as int) == a,
{
    assert(a * c * ONE_SQ + 0 * s * ONE + ONE * (ONE * a) * (ONE - c) == ONE_CUBED * a)
        by (nonlinear_arith);
    lemma_div_multiples_vanish(a, ONE_CUBED as int);
}

proof fn lemma_plane_coordinate(a: int, b: int, c: int, s: int, uc: int, d: int)
    requires
        uc == 0,
    ensures
        (a * c * ONE_SQ + (ONE * b) * s * ONE + uc * d * (ONE - c)) / (ONE_CUBED as int) == (a * c + b
            * s) / (ONE as int),
{
    assert(a * c * ONE_SQ + (ONE * b) * s * ONE + uc * d * (ONE - c) == (a * c + b * s) * ONE_SQ)
        by (nonlinear_arith)
        requires
            uc == 0,
    ;
    lemma_cancel_factor(a * c + b * s, ONE as int, ONE_SQ as int);
}

/// Turning back about the first coordinate axis keeps `x` and turns `(y, z)` in their
/// plane: `y' = y cos + z sin`, `z' = z cos - y sin`.
pub proof fn lemma_turned_back_about_x(p: Vector, angle: Angle)
    ensures
        turned_back(p, axis_x(), angle) == (Vector {
            x: p.x,
            y: (p.y * angle.cos + p.z * angle.sin) / (ONE as int),
            z: (p.z * angle.cos - p.y * angle.sin) / (ONE as int),
        }),
{
    lemma_unit_of_axes();
    let u = axis_x();
    let c = angle.cos as int;
    let s = -(angle.sin as int);
    let k = u.cross(p);
    let d = u.dot(p);
    assert(k.x == 0 && k.y == ONE * (-p.z) && k.z == ONE * p.y && d == ONE * p.x)
        by (nonlinear_arith)
        requires
            k == u.cross(p),
            d == u.dot(p),
            u == axis_x(),
    ;
    lemma_axis_coordinate(p.x, c, s);
    lemma_plane_coordinate(p.y, -p.z, c, s, u.y, d);
    lemma_plane_coordinate(p.z, p.y, c, s, u.z, d);
    assert(p.y * c + (-p.z) * s == p.y * angle.cos + p.z * angle.sin) by (nonlinear_arith)
        requires
            c == angle.cos,
            s == -(angle.sin as int),
    ;
    assert(p.z * c + p.y * s == p.z * angle.cos - p.y * angle.sin) by (nonlinear_arith)
        requires
            c == angle.cos,
            s == -(angle.sin as int),
    ;
}

/// Turning back about the second coordinate axis keeps `y` and turns `(z, x)` in their
/// plane: `z' = z cos + x sin`, `x' = x cos - z sin`.
pub proof fn lemma_turned_back_about_y(p: Vector, angle: Angle)
    ensures
        turned_back(p, axis_y(), angle) == (Vector {
            x: (p.x * angle.cos - p.z * angle.sin) / (ONE as int),
            y: p.y,
            z: (p.z * angle.cos + p.x * angle.sin) / (ONE as int),
        }),
{
    lemma_unit_of_axes();
    let u = axis_y();
    let c = angle.cos as int;
    let s = -(angle.sin as int);
    let k = u.cross(p);
    let d = u.dot(p);
    assert(k.x == ONE * p.z && k.y == 0 && k.z == ONE * (-p.x) && d == ONE * p.y)
        by (nonlinear_arith)
        requires
            k == u.cross(p),
            d == u.dot(p),
            u == axis_y(),
    ;
    lemma_axis_coordinate(p.y, c, s);
    lemma_plane_coordinate(p.x, p.z, c, s, u.x, d);
    lemma_plane_coordinate(p.z, -p.x, c, s, u.z, d);
    assert(p.x * c + p.z * s == p.x * angle.cos - p.z * angle.sin) by (nonlinear_arith)
        requires
            c == angle.cos,
            s == -(angle.sin as int),
    ;
    assert(p.z * c + (-p.x) * s == p.z * angle.cos + p.x * angle.sin) by (nonlinear_arith)
        requires
            c == angle.cos,
            s == -(angle.sin as int),
    ;
}

/// Turning back about the third coordinate axis keeps `z` and turns `(x, y)` in their
/// plane: `x' = x cos + y sin`, `y' = y cos - x sin`.
pub proof fn lemma_turned_back_about_z(p: Vector, angle: Angle)
    ensures
        turned_back(p, axis_z(), angle) == (Vector {
            x: (p.x * angle.cos + p.y * angle.sin) / (ONE as int),
            y: (p.y * angle.cos - p.x * angle.sin) / (ONE as int),
            z: p.z,
        }),
{
    lemma_unit_of_axes();
    let u = axis_z();
    let c = angle.cos as int;
    let s = -(angle.sin as int);
    let k = u.cross(p);
    let d = u.dot(p);
    assert(k.x == ONE * (-p.y) && k.y == ONE * p.x && k.z == 0 && d == ONE * p.z)
        by (nonlinear_arith)
        requires
            k == u.cross(p),
            d == u.dot(p),
            u == axis_z(),
    ;
    lemma_axis_coordinate(p.z, c, s);
    lemma_plane_coordinate(p.x, -p.y, c, s, u.x, d);
    lemma_plane_coordinate(p.y, p.x, c, s, u.y, d);
    assert(p.x * c + (-p.y) * s == p.x * angle.cos + p.y * angle.sin) by (nonlinear_arith)
        requires
            c == angle.cos,
            s == -(angle.sin as int),
    ;
    assert(p.y * c + p.x * s == p.y * angle.cos - p.x * angle.sin) by (nonlinear_arith)
        requires
            c == angle.cos,
            s == -(angle.sin as int),
    ;
}

} // verus!
