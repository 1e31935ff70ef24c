//! Points of space and the integer vectors that stand for them in contracts.

use crate::scalar::in_grid;
use crate::scalar::lemma_lagrange_plane;
use crate::scalar::LIMIT;
use vstd::prelude::*;

verus! {

/// A point (or an offset) of space, in grid steps.
#[derive(Debug, Clone, Copy)]
pub struct Point3 {
    pub x: i64,
    pub y: i64,
    pub z: i64,
}

/// A vector of three mathematical integers: what a `Point3` is in a contract.
pub struct Vector {
    pub x: int,
    pub y: int,
    pub z: int,
}

impl View for Point3 {
    type V = Vector;

    open spec fn view(&self) -> Vector {
        Vector { x: self.x as int, y: self.y as int, z: self.z as int }
    }
}

impl Vector {
    /// The difference `self - other`.
    pub open spec fn minus(self, other: Vector) -> Vector {
        Vector { x: self.x - other.x, y: self.y - other.y, z: self.z - other.z }
    }

    /// The scalar product of `self` and `other`.
    pub open spec fn dot(self, other: Vector) -> int {
        self.x * other.x + self.y * other.y + self.z * other.z
    }

    /// The vector product of `self` and `other`.
    pub open spec fn cross(self, other: Vector) -> Vector {
        Vector {
            x: self.y * other.z - self.z * other.y,
            y: self.z * other.x - self.x * other.z,
            z: self.x * other.y - self.y * other.x,
        }
    }

    /// The square of the length of `self`.
    pub open spec fn norm_sq(self) -> int {
        self.dot(self)
    }
}

impl Point3 {
    /// All three coordinates lie in the grid.
    pub open spec fn in_grid(self) -> bool {
        in_grid(self.x) && in_grid(self.y) && in_grid(self.z)
    }

    /// Whether all three coordinates lie in the grid.
    pub fn fits(&self) -> (ok: bool)
        ensures
            ok == self.in_grid(),
    {
        -LIMIT <= self.x && self.x <= LIMIT && -LIMIT <= self.y && self.y <= LIMIT && -LIMIT
            <= self.z && self.z <= LIMIT
    }
}

/// Lagrange's identity: `|w|^2 |v|^2 - (w.v)^2 == |w x v|^2`. Hence the squared distance
/// from the tip of `w` to the line along `v`, `|w|^2 - (w.v)^2 / |v|^2`, is
/// `|w x v|^2 / |v|^2`.
pub proof fn lemma_lagrange_in_space(w: Vector, v: Vector)
    ensures
        w.norm_sq() * v.norm_sq() - w.dot(v) * w.dot(v) == w.cross(v).norm_sq(),
{
    let aa = w.x * w.x;
    let bb = w.y * w.y;
    let cc = w.z * w.z;
    let dd = v.x * v.x;
    let ee = v.y * v.y;
    let ff = v.z * v.z;
    let x1 = w.x * v.x;
    let x2 = w.y * v.y;
    let x3 = w.z * v.z;
    lemma_lagrange_plane(w.y, w.z, v.y, v.z);
    lemma_lagrange_plane(w.z, w.x, v.z, v.x);
    lemma_lagrange_plane(w.x, w.y, v.x, v.y);
    assert((bb + cc) * (ee + ff) == bb * ee + bb * ff + cc * ee + cc * ff) by (nonlinear_arith);
    assert((cc + aa) * (ff + dd) == cc * ff + cc * dd + aa * ff + aa * dd) by (nonlinear_arith);
    assert((aa + bb) * (dd + ee) == aa * dd + aa * ee + bb * dd + bb * ee) by (nonlinear_arith);
    assert((aa + bb + cc) * (dd + ee + ff) == aa * dd + aa * ee + aa * ff + bb * dd + bb * ee + bb
        * ff + cc * dd + cc * ee + cc * ff) by (nonlinear_arith);
    assert(aa * dd == x1 * x1) by (nonlinear_arith)
        requires
            aa == w.x * w.x,
            dd == v.x * v.x,
            x1 == w.x * v.x,
    ;
    assert(bb * ee == x2 * x2) by (nonlinear_arith)
        requires
            bb == w.y * w.y,
            ee == v.y * v.y,
            x2 == w.y * v.y,
    ;
    assert(cc * ff == x3 * x3) by (nonlinear_arith)
        requires
            cc == w.z * w.z,
            ff == v.z * v.z,
            x3 == w.z * v.z,
    ;
    assert((x2 + x3) * (x2 + x3) == x2 * x2 + 2 * (x2 * x3) + x3 * x3) by (nonlinear_arith);
    assert((x3 + x1) * (x3 + x1) == x3 * x3 + 2 * (x3 * x1) + x1 * x1) by (nonlinear_arith);
    assert((x1 + x2) * (x1 + x2) == x1 * x1 + 2 * (x1 * x2) + x2 * x2) by (nonlinear_arith);
    assert((x1 + x2 + x3) * (x1 + x2 + x3) == x1 * x1 + x2 * x2 + x3 * x3 + 2 * (x1 * x2) + 2 * (x2
        * x3) + 2 * (x3 * x1)) by (nonlinear_arith);
}

/// The vector product is perpendicular to both of its factors.
pub proof fn lemma_cross_is_perpendicular(u: Vector, p: Vector)
    ensures
        u.cross(p).dot(u) == 0,
        u.cross(p).dot(p) == 0,
{
    let a = u.y * p.z;
    let b = u.z * p.y;
    let c = u.z * p.x;
    let d = u.x * p.z;
    let e = u.x * p.y;
    let f = u.y * p.x;
    assert((a - b) * u.x == a * u.x - b * u.x) by (nonlinear_arith);
    assert((c - d) * u.y == c * u.y - d * u.y) by (nonlinear_arith);
    assert((e - f) * u.z == e * u.z - f * u.z) by (nonlinear_arith);
    assert(a * u.x == d * u.y) by (nonlinear_arith)
        requires
            a == u.y * p.z,
            d == u.x * p.z,
    ;
    assert(b * u.x == e * u.z) by (nonlinear_arith)
        requires
            b == u.z * p.y,
            e == u.x * p.y,
    ;
    assert(c * u.y == f * u.z) by (nonlinear_arith)
        requires
            c == u.z * p.x,
            f == u.y * p.x,
    ;
    assert((a - b) * p.x == a * p.x - b * p.x) by (nonlinear_arith);
    assert((c - d) * p.y == c * p.y - d * p.y) by (nonlinear_arith);
    assert((e - f) * p.z == e * p.z - f * p.z) by (nonlinear_arith);
    assert(a * p.x == f * p.z) by (nonlinear_arith)
        requires
            a == u.y * p.z,
            f == u.y * p.x,
    ;
    assert(b * p.x == c * p.y) by (nonlinear_arith)
        requires
            b == u.z * p.y,
            c == u.z * p.x,
    ;
    assert(d * p.y == e * p.z) by (nonlinear_arith)
        requires
            d == u.x * p.z,
            e == u.x * p.y,
    ;
}

} // verus!
