//! Signed distance to a closed polygon in the plane.
//!
//! The magnitude is the distance to the nearest edge, rounded down to a whole number of
//! grid steps; the sign comes from counting how many edges a ray from the point towards
//! `+x` meets: an odd count means inside and gives a negative distance.

use crate::scalar::fits;
use crate::scalar::floor_sqrt;
use crate::scalar::in_grid;
use crate::scalar::lemma_floor_sqrt_monotonic;
use crate::scalar::is_floor_sqrt;
use crate::scalar::isqrt;
use crate::scalar::lemma_lagrange_plane;
use crate::scalar::lemma_product_bound;
use crate::scalar::lemma_square_bound;
use crate::scalar::lemma_square_monotonic;
use crate::scalar::min_int;
use vstd::arithmetic::div_mod::lemma_div_pos_is_pos;
use vstd::arithmetic::div_mod::lemma_fundamental_div_mod;
use vstd::arithmetic::div_mod::lemma_mod_bound;
use vstd::prelude::*;

verus! {

/// A point of the plane, in grid steps.
#[derive(Debug, Clone, Copy)]
pub struct Point {
    pub x: i64,
    pub y: i64,
}

/// The square of the distance between `a` and `b`.
pub open spec fn dist_sq(a: Point, b: Point) -> int {
    (a.x - b.x) * (a.x - b.x) + (a.y - b.y) * (a.y - b.y)
}

/// The square of the distance from `p` to the segment from `a` to `b`, rounded down.
///
/// With `v = b - a` and `w = p - a`, the foot of the perpendicular from `p` lies at the
/// fraction `t = (w.v) / (v.v)` of the way from `a` to `b`. Clamped to `[0, 1]`, the
/// nearest point of the segment is `a` when `w.v <= 0`, `b` when `w.v >= v.v`, and the
/// foot itself otherwise, whose squared distance from `p` is `(w x v)^2 / (v.v)`
/// (see `lemma_foot_of_perpendicular`). A segment of length zero is the point `a`.
pub open spec fn segment_dist_sq(p: Point, a: Point, b: Point) -> int {
    let vx = b.x - a.x;
    let vy = b.y - a.y;
    let wx = p.x - a.x;
    let wy = p.y - a.y;
    let c1 = wx * vx + wy * vy;
    let c2 = vx * vx + vy * vy;
    if c1 <= 0 {
        dist_sq(p, a)
    } else if c1 >= c2 {
        dist_sq(p, b)
    } else {
        ((wx * vy - wy * vx) * (wx * vy - wy * vx)) / c2
    }
}

/// The ray from `p` towards `+x` meets the edge between `a` and `b`: exactly one of the
/// two ends lies strictly above `p`, and `p` lies strictly to the left of the edge's
/// point at the height of `p`.
///
/// That point has `x = a.x + (p.y - a.y) * (b.x - a.x) / (b.y - a.y)`; the comparison is
/// made exactly, by multiplying it out with the sign of `b.y - a.y`.
pub open spec fn crosses(p: Point, a: Point, b: Point) -> bool {
    let dy = b.y - a.y;
    let lhs = (p.x - a.x) * dy;
    let rhs = (p.y - a.y) * (b.x - a.x);
    &&& (a.y > p.y) != (b.y > p.y)
    &&& if dy > 0 {
        lhs < rhs
    } else {
        lhs > rhs
    }
}

/// The index before `i` on a closed polygon of `n` vertices.
pub open spec fn prev_index(i: int, n: int) -> int {
    if i == 0 {
        n - 1
    } else {
        i - 1
    }
}

/// The index after `i` on a closed polygon of `n` vertices.
pub open spec fn next_index(i: int, n: int) -> int {
    if i == n - 1 {
        0
    } else {
        i + 1
    }
}

/// How many of the edges that end in the vertices `0 .. upto` the ray from `p` meets.
/// The edge that ends in vertex `i` starts in the vertex before it.
pub open spec fn crossing_count(p: Point, vs: Seq<Point>, upto: int) -> int
    decreases upto,
{
    if upto <= 0 {
        0
    } else {
        crossing_count(p, vs, upto - 1) + if crosses(
            p,
            vs[upto - 1],
            vs[prev_index(upto - 1, vs.len() as int)],
        ) {
            1int
        } else {
            0int
        }
    }
}

/// `p` is outside the polygon: the ray from `p` meets an even number of edges.
pub open spec fn outside(p: Point, vs: Seq<Point>) -> bool {
    crossing_count(p, vs, vs.len() as int) % 2 == 0
}

/// The squared distance from `p` to the edge that starts in vertex `i`, rounded down.
pub open spec fn edge_dist_sq(p: Point, vs: Seq<Point>, i: int) -> int {
    segment_dist_sq(p, vs[i], vs[next_index(i, vs.len() as int)])
}

/// The least `edge_dist_sq` among the edges that start in the vertices `0 .. upto`
/// (of edge 0 alone when `upto <= 1`).
pub open spec fn min_edge_dist_sq(p: Point, vs: Seq<Point>, upto: int) -> int
    decreases upto,
{
    if upto <= 1 {
        edge_dist_sq(p, vs, 0)
    } else {
        min_int(min_edge_dist_sq(p, vs, upto - 1), edge_dist_sq(p, vs, upto - 1))
    }
}

/// The signed distance from `p` to the polygon `vs`: the distance to the nearest edge
/// rounded down, negative when `p` is inside.
pub open spec fn signed_distance(p: Point, vs: Seq<Point>) -> int {
    let d = floor_sqrt(min_edge_dist_sq(p, vs, vs.len() as int));
    if outside(p, vs) {
        d
    } else {
        -d
    }
}

/// Every vertex of `vs` lies in the grid.
pub open spec fn all_in_grid(vs: Seq<Point>) -> bool {
    forall|i: int| 0 <= i < vs.len() ==> (#[trigger] vs[i]).in_grid()
}

/// Lagrange's identity in the plane: for `v = b - a` and `w = p - a`,
/// `|w|^2 |v|^2 - (w.v)^2 == (w x v)^2`. Hence the squared distance from `p` to the foot
/// of its perpendicular on the line through `a` and `b`, `|w|^2 - (w.v)^2 / |v|^2`, is
/// `(w x v)^2 / |v|^2`.
pub proof fn lemma_foot_of_perpendicular(p: Point, a: Point, b: Point)
    ensures
        ({
            let vx = b.x - a.x;
            let vy = b.y - a.y;
            let wx = p.x - a.x;
            let wy = p.y - a.y;
            (wx * wx + wy * wy) * (vx * vx + vy * vy) - (wx * vx + wy * vy) * (wx * vx + wy
                * vy) == (wx * vy - wy * vx) * (wx * vy - wy * vx)
        }),
{
    lemma_lagrange_plane(p.x - a.x, p.y - a.y, b.x - a.x, b.y - a.y);
}

/// An edge is met from either direction alike: `crosses` does not depend on the order of
/// the edge's two ends.
pub proof fn lemma_crosses_symmetric(p: Point, a: Point, b: Point)
    ensures
        crosses(p, a, b) == crosses(p, b, a),
{
    let dy = b.y - a.y;
    let px = p.x as int;
    let py = p.y as int;
    let ax = a.x as int;
    let ay = a.y as int;
    let bx = b.x as int;
    let by = b.y as int;
    assert((px - bx) * (ay - by) - (py - by) * (ax - bx) == -((px - ax) * (by - ay) - (py - ay)
        * (bx - ax))) by (nonlinear_arith);
}

/// A horizontal edge is never met.
pub proof fn lemma_horizontal_edge_never_crosses(p: Point, a: Point, b: Point)
    requires
        a.y == b.y,
    ensures
        !crosses(p, a, b),
{
}

/// `min_edge_dist_sq` is the minimum over the edges: no edge is nearer, and some edge is
/// exactly that near.
pub proof fn lemma_min_edge_is_minimum(p: Point, vs: Seq<Point>, upto: int)
    requires
        1 <= upto,
    ensures
        forall|i: int| 0 <= i < upto ==> min_edge_dist_sq(p, vs, upto) <= #[trigger] edge_dist_sq(p, vs, i),
        exists|i: int| 0 <= i < upto && min_edge_dist_sq(p, vs, upto) == #[trigger] edge_dist_sq(p, vs, i),
    decreases upto,
{
    if upto > 1 {
        lemma_min_edge_is_minimum(p, vs, upto - 1);
        let k = choose|i: int| 0 <= i < upto - 1 && min_edge_dist_sq(p, vs, upto - 1) == #[trigger] edge_dist_sq(p, vs, i);
        if min_edge_dist_sq(p, vs, upto - 1) <= edge_dist_sq(p, vs, upto - 1) {
            assert(min_edge_dist_sq(p, vs, upto) == edge_dist_sq(p, vs, k));
        } else {
            assert(min_edge_dist_sq(p, vs, upto) == edge_dist_sq(p, vs, upto - 1));
        }
    } else {
        assert(min_edge_dist_sq(p, vs, upto) == edge_dist_sq(p, vs, 0));
    }
}

/// A squared distance to a segment is not negative.
pub proof fn lemma_segment_dist_sq_is_not_negative(p: Point, a: Point, b: Point)
    ensures
        segment_dist_sq(p, a, b) >= 0,
{
    let vx = b.x - a.x;
    let vy = b.y - a.y;
    let wx = p.x - a.x;
    let wy = p.y - a.y;
    let ux = p.x - b.x;
    let uy = p.y - b.y;
    let cross = wx * vy - wy * vx;
    let c2 = vx * vx + vy * vy;
    assert(wx * wx >= 0 && wy * wy >= 0 && ux * ux >= 0 && uy * uy >= 0 && cross * cross >= 0 && vx
        * vx >= 0 && vy * vy >= 0) by (nonlinear_arith);
    if c2 > 0 {
        lemma_div_pos_is_pos(cross * cross, c2);
    }
}

/// The distance to the polygon is the least of the distances to its edges: no edge is
/// nearer than `signed_distance` says, and some edge is exactly that near.
pub proof fn lemma_distance_is_least_edge_distance(p: Point, vs: Seq<Point>)
    requires
        vs.len() >= 1,
    ensures
        forall|i: int|
            0 <= i < vs.len() ==> floor_sqrt(min_edge_dist_sq(p, vs, vs.len() as int))
                <= floor_sqrt(#[trigger] edge_dist_sq(p, vs, i)),
        exists|i: int|
            0 <= i < vs.len() && floor_sqrt(min_edge_dist_sq(p, vs, vs.len() as int)) == floor_sqrt(
                #[trigger] edge_dist_sq(p, vs, i),
            ),
{
    let n = vs.len() as int;
    lemma_min_edge_is_minimum(p, vs, n);
    let k = choose|i: int| 0 <= i < n && min_edge_dist_sq(p, vs, n) == #[trigger] edge_dist_sq(p, vs, i);
    lemma_segment_dist_sq_is_not_negative(p, vs[k], vs[next_index(k, n)]);
    assert forall|i: int| 0 <= i < n implies floor_sqrt(min_edge_dist_sq(p, vs, n)) <= floor_sqrt(
        #[trigger] edge_dist_sq(p, vs, i),
    ) by {
        lemma_floor_sqrt_monotonic(min_edge_dist_sq(p, vs, n), edge_dist_sq(p, vs, i));
    }
    assert(floor_sqrt(min_edge_dist_sq(p, vs, n)) == floor_sqrt(edge_dist_sq(p, vs, k)));
}

/// Whether every vertex lies in the grid.
pub fn all_fit(vertices: &[Point]) -> (ok: bool)
    ensures
        ok == all_in_grid(vertices@),
{
    let mut i: usize = 0;
    while i < vertices.len()
        invariant
            0 <= i <= vertices@.len(),
            forall|k: int| 0 <= k < i ==> (#[trigger] vertices@[k]).in_grid(),
        decreases vertices@.len() - i,
    {
        if !vertices[i].fits() {
            return false;
        }
        i = i + 1;
    }
    true
}

impl Point {
    /// Both coordinates lie in the grid.
    pub open spec fn in_grid(self) -> bool {
        in_grid(self.x) && in_grid(self.y)
    }

    /// Whether both coordinates lie in the grid.
    pub fn fits(&self) -> (ok: bool)
        ensures
            ok == self.in_grid(),
    {
        fits(self.x) && fits(self.y)
    }

    /// The distance from `self` to `other`, rounded down to a whole number of grid steps.
    pub fn distance_to(&self, other: &Point) -> (d: i64)
        requires
            self.in_grid(),
            other.in_grid(),
        ensures
            d == floor_sqrt(dist_sq(*self, *other)),
            is_floor_sqrt(d as int, dist_sq(*self, *other)),
    {
        let s = dist_sq_of(self, other);
        root_of(s)
    }
}

/// The largest squared distance between two points of the grid: `2^63`.
pub const MAX_DIST_SQ: u128 = 9223372036854775808;

fn dist_sq_of(a: &Point, b: &Point) -> (s: u128)
    requires
        a.in_grid(),
        b.in_grid(),
    ensures
        s == dist_sq(*a, *b),
        s <= MAX_DIST_SQ,
{
    let dx: i128 = a.x as i128 - b.x as i128;
    let dy: i128 = a.y as i128 - b.y as i128;
    proof {
        lemma_square_bound(dx as int, 2147483648);
        lemma_square_bound(dy as int, 2147483648);
    }
    (dx * dx + dy * dy) as u128
}

fn root_of(s: u128) -> (d: i64)
    requires
        s <= MAX_DIST_SQ,
    ensures
        d == floor_sqrt(s as int),
        is_floor_sqrt(d as int, s as int),
        0 <= d <= 3037000499,
{
    let r = isqrt(s);
    proof {
        if r > 3037000499 {
            lemma_square_monotonic(3037000500, r as int);
        }
    }
    r as i64
}

fn segment_dist_sq_of(p: &Point, a: &Point, b: &Point) -> (s: u128)
    requires
        p.in_grid(),
        a.in_grid(),
        b.in_grid(),
    ensures
        s == segment_dist_sq(*p, *a, *b),
        s <= MAX_DIST_SQ,
{
    let vx: i128 = b.x as i128 - a.x as i128;
    let vy: i128 = b.y as i128 - a.y as i128;
    let wx: i128 = p.x as i128 - a.x as i128;
    let wy: i128 = p.y as i128 - a.y as i128;
    proof {
        lemma_product_bound(wx as int, vx as int, 2147483648);
        lemma_product_bound(wy as int, vy as int, 2147483648);
        lemma_product_bound(wx as int, vy as int, 2147483648);
        lemma_product_bound(wy as int, vx as int, 2147483648);
        lemma_square_bound(vx as int, 2147483648);
        lemma_square_bound(vy as int, 2147483648);
        lemma_square_bound(wx as int, 2147483648);
        lemma_square_bound(wy as int, 2147483648);
    }
    let c1: i128 = wx * vx + wy * vy;
    let c2: i128 = vx * vx + vy * vy;
    if c1 <= 0 {
        dist_sq_of(p, a)
    } else if c1 >= c2 {
        dist_sq_of(p, b)
    } else {
        let cross: i128 = wx * vy - wy * vx;
        proof {
            lemma_square_bound(cross as int, 9223372036854775808);
        }
        let cross_sq: i128 = cross * cross;
        let q: i128 = cross_sq / c2;
        proof {
            lemma_foot_of_perpendicular(*p, *a, *b);
            let ww = wx as int * wx as int + wy as int * wy as int;
            assert(cross_sq as int == ww * c2 as int - c1 as int * c1 as int);
            assert(c1 as int * c1 as int >= 0) by (nonlinear_arith);
            assert(cross_sq as int <= ww * c2 as int);
            lemma_div_pos_is_pos(cross_sq as int, c2 as int);
            lemma_fundamental_div_mod(cross_sq as int, c2 as int);
            lemma_mod_bound(cross_sq as int, c2 as int);
            assert(q as int <= ww) by (nonlinear_arith)
                requires
                    c2 as int > 0,
                    cross_sq as int <= ww * c2 as int,
                    cross_sq as int == c2 as int * q as int + cross_sq as int % c2 as int,
                    0 <= cross_sq as int % c2 as int,
            ;
        }
        q as u128
    }
}

/// The distance from `p` to the segment from `a` to `b`, rounded down to a whole number
/// of grid steps.
pub fn point_to_segment_distance(p: &Point, a: &Point, b: &Point) -> (d: i64)
    requires
        p.in_grid(),
        a.in_grid(),
        b.in_grid(),
    ensures
        d == floor_sqrt(segment_dist_sq(*p, *a, *b)),
        is_floor_sqrt(d as int, segment_dist_sq(*p, *a, *b)),
{
    let s = segment_dist_sq_of(p, a, b);
    root_of(s)
}

fn crosses_edge(p: &Point, a: &Point, b: &Point) -> (c: bool)
    requires
        p.in_grid(),
        a.in_grid(),
        b.in_grid(),
    ensures
        c == crosses(*p, *a, *b),
{
    if (a.y > p.y) != (b.y > p.y) {
        let dy: i128 = b.y as i128 - a.y as i128;
        let px: i128 = p.x as i128 - a.x as i128;
        let py: i128 = p.y as i128 - a.y as i128;
        let bx: i128 = b.x as i128 - a.x as i128;
        proof {
            lemma_product_bound(px as int, dy as int, 2147483648);
            lemma_product_bound(py as int, bx as int, 2147483648);
        }
        let lhs: i128 = px * dy;
        let rhs: i128 = py * bx;
        if dy > 0 {
            lhs < rhs
        } else {
            lhs > rhs
        }
    } else {
        false
    }
}

/// Whether `point` lies outside the closed polygon `vertices`, by the parity of the
/// edges that a ray from `point` towards `+x` meets.
pub fn is_outside(point: &Point, vertices: &[Point]) -> (out: bool)
    requires
        vertices@.len() >= 1,
        point.in_grid(),
        all_in_grid(vertices@),
    ensures
        out == outside(*point, vertices@),
{
    let n = vertices.len();
    let mut even = true;
    let mut j: usize = n - 1;
    let mut i: usize = 0;
    while i < n
        invariant
            n == vertices@.len(),
            n >= 1,
            0 <= i <= n,
            j as int == prev_index(i as int, n as int),
            point.in_grid(),
            all_in_grid(vertices@),
            even == (crossing_count(*point, vertices@, i as int) % 2 == 0),
        decreases n - i,
    {
        if crosses_edge(point, &vertices[i], &vertices[j]) {
            even = !even;
        }
        j = i;
        i = i + 1;
    }
    even
}

/// The signed distance from `p` to the closed polygon `vertices`: the distance to the
/// nearest edge, rounded down to a whole number of grid steps, and negative when `p` is
/// inside.
pub fn sdf_polygon(p: &Point, vertices: &[Point]) -> (d: i64)
    requires
        vertices@.len() >= 1,
        p.in_grid(),
        all_in_grid(vertices@),
    ensures
        d == signed_distance(*p, vertices@),
{
    let n = vertices.len();
    let mut min_sq = segment_dist_sq_of(p, &vertices[0], &vertices[if n == 1 { 0 } else { 1 }]);
    let mut i: usize = 1;
    while i < n
        invariant
            n == vertices@.len(),
            1 <= i <= n,
            p.in_grid(),
            all_in_grid(vertices@),
            min_sq == min_edge_dist_sq(*p, vertices@, i as int),
            min_sq <= MAX_DIST_SQ,
        decreases n - i,
    {
        let j = if i == n - 1 { 0 } else { i + 1 };
        let s = segment_dist_sq_of(p, &vertices[i], &vertices[j]);
        if s < min_sq {
            min_sq = s;
        }
        i = i + 1;
    }
    let min_distance = root_of(min_sq);
    if is_outside(p, vertices) {
        min_distance
    } else {
        -min_distance
    }
}

/// A closed polygon: its vertices in order, the last one joined to the first. It has at
/// least three vertices, all in the grid, and is never changed once it is made.
#[derive(Debug, Clone)]
pub struct Polygon {
    vertices: Vec<Point>,
}

impl View for Polygon {
    type V = Seq<Point>;

    closed spec fn view(&self) -> Seq<Point> {
        self.vertices@
    }
}

impl Polygon {
    /// The polygon has at least three vertices, all in the grid.
    pub open spec fn wf(&self) -> bool {
        self@.len() >= 3 && all_in_grid(self@)
    }

    /// The polygon with the given vertices; `None` if there are fewer than three or if
    /// one lies beyond the grid.
    pub fn new(vertices: Vec<Point>) -> (polygon: Option<Polygon>)
        ensures
            polygon is Some <==> vertices@.len() >= 3 && all_in_grid(vertices@),
            polygon matches Some(made) ==> made@ == vertices@ && made.wf(),
    {
        if vertices.len() >= 3 && all_fit(vertices.as_slice()) {
            Some(Polygon { vertices })
        } else {
            None
        }
    }

    /// The vertices, in order.
    pub fn vertices(&self) -> (vertices: &[Point])
        ensures
            vertices@ == self@,
    {
        self.vertices.as_slice()
    }

    /// Whether `p` lies inside the polygon.
    pub fn contains(&self, p: &Point) -> (inside: bool)
        requires
            self.wf(),
            p.in_grid(),
        ensures
            inside == !outside(*p, self@),
    {
        !is_outside(p, self.vertices.as_slice())
    }

    /// The signed distance from `p` to the polygon.
    pub fn distance(&self, p: &Point) -> (d: i64)
        requires
            self.wf(),
            p.in_grid(),
        ensures
            d == signed_distance(*p, self@),
    {
        sdf_polygon(p, self.vertices.as_slice())
    }
}

} // verus!
