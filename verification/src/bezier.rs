//! Flattening of Bezier curves into polylines.
//!
//! A curve of any degree is evaluated by de Casteljau's algorithm: neighbouring control
//! points are interpolated again and again until one point is left. The parameter is a
//! fraction `num / den` with `0 <= num <= den`, so the ends of the curve are reached
//! without rounding.

use crate::polygon::all_in_grid;
use crate::polygon::Point;
use crate::scalar::div_floor;
use crate::scalar::LIMIT;
use vstd::arithmetic::div_mod::lemma_div_is_ordered;
use vstd::arithmetic::div_mod::lemma_div_multiples_vanish;
use vstd::prelude::*;

verus! {

/// The value at the fraction `num / den` of the way from `a` to `b`, rounded down:
/// `(1 - t) * a + t * b` for `t = num / den`.
pub open spec fn mix(a: int, b: int, num: int, den: int) -> int {
    ((den - num) * a + num * b) / den
}

/// One step of de Casteljau's algorithm: each pair of neighbours is replaced by its
/// `mix`, which leaves one value fewer.
pub open spec fn reduce(cs: Seq<int>, num: int, den: int) -> Seq<int> {
    Seq::new((cs.len() - 1) as nat, |i: int| mix(cs[i], cs[i + 1], num, den))
}

/// The value of the Bezier curve with control values `cs` at the parameter `num / den`:
/// `reduce` applied until a single value is left.
pub open spec fn casteljau(cs: Seq<int>, num: int, den: int) -> int
    decreases cs.len(),
{
    if cs.len() <= 1 {
        cs[0]
    } else {
        casteljau(reduce(cs, num, den), num, den)
    }
}

/// The `x` coordinates of a sequence of points.
pub open spec fn xs(pts: Seq<Point>) -> Seq<int> {
    Seq::new(pts.len(), |i: int| pts[i].x as int)
}

/// The `y` coordinates of a sequence of points.
pub open spec fn ys(pts: Seq<Point>) -> Seq<int> {
    Seq::new(pts.len(), |i: int| pts[i].y as int)
}

/// `q` is the point of the Bezier curve with control points `pts` at the parameter
/// `num / den`. The two coordinates are evaluated independently.
pub open spec fn on_curve(q: Point, pts: Seq<Point>, num: int, den: int) -> bool {
    q.x == casteljau(xs(pts), num, den) && q.y == casteljau(ys(pts), num, den)
}

/// Every value of `cs` lies between `lo` and `hi`.
pub open spec fn all_between(cs: Seq<int>, lo: int, hi: int) -> bool {
    forall|i: int| 0 <= i < cs.len() ==> lo <= #[trigger] cs[i] <= hi
}

/// A mix of two values lies between them: it never leaves an interval that holds both.
pub proof fn lemma_mix_between(a: int, b: int, num: int, den: int, lo: int, hi: int)
    requires
        0 <= num <= den,
        0 < den,
        lo <= a <= hi,
        lo <= b <= hi,
    ensures
        lo <= mix(a, b, num, den) <= hi,
{
    let v = (den - num) * a + num * b;
    assert(den * lo <= v && v <= den * hi) by (nonlinear_arith)
        requires
            v == (den - num) * a + num * b,
            0 <= num <= den,
            lo <= a <= hi,
            lo <= b <= hi,
    ;
    lemma_div_is_ordered(den * lo, v, den);
    lemma_div_is_ordered(v, den * hi, den);
    lemma_div_multiples_vanish(lo, den);
    lemma_div_multiples_vanish(hi, den);
}

/// At the parameter 0 a mix is its first value, at the parameter 1 its second.
pub proof fn lemma_mix_ends(a: int, b: int, den: int)
    requires
        0 < den,
    ensures
        mix(a, b, 0, den) == a,
        mix(a, b, den, den) == b,
{
    lemma_div_multiples_vanish(a, den);
    lemma_div_multiples_vanish(b, den);
    assert((den - 0) * a + 0 * b == den * a) by (nonlinear_arith);
    assert((den - den) * a + den * b == den * b) by (nonlinear_arith);
}

/// A Bezier curve starts in its first control value.
pub proof fn lemma_casteljau_start(cs: Seq<int>, den: int)
    requires
        cs.len() >= 1,
        0 < den,
    ensures
        casteljau(cs, 0, den) == cs[0],
    decreases cs.len(),
{
    if cs.len() > 1 {
        lemma_casteljau_start(reduce(cs, 0, den), den);
        lemma_mix_ends(cs[0], cs[1], den);
    }
}

/// A Bezier curve ends in its last control value.
pub proof fn lemma_casteljau_end(cs: Seq<int>, den: int)
    requires
        cs.len() >= 1,
        0 < den,
    ensures
        casteljau(cs, den, den) == cs[cs.len() - 1],
    decreases cs.len(),
{
    if cs.len() > 1 {
        lemma_casteljau_end(reduce(cs, den, den), den);
        lemma_mix_ends(cs[cs.len() - 2], cs[cs.len() - 1], den);
    }
}

/// A Bezier curve stays within the range of its control values.
pub proof fn lemma_casteljau_between(cs: Seq<int>, num: int, den: int, lo: int, hi: int)
    requires
        cs.len() >= 1,
        0 <= num <= den,
        0 < den,
        all_between(cs, lo, hi),
    ensures
        lo <= casteljau(cs, num, den) <= hi,
    decreases cs.len(),
{
    if cs.len() > 1 {
        let next = reduce(cs, num, den);
        assert forall|i: int| 0 <= i < next.len() implies lo <= #[trigger] next[i] <= hi by {
            lemma_mix_between(cs[i], cs[i + 1], num, den, lo, hi);
        }
        lemma_casteljau_between(next, num, den, lo, hi);
    }
}

/// The point at the fraction `num / den` of the way from `p0` to `p1`, each coordinate
/// rounded down to the grid.
pub fn interpolate(p0: Point, p1: Point, num: usize, den: usize) -> (q: Point)
    requires
        0 < den,
        num <= den,
        p0.in_grid(),
        p1.in_grid(),
    ensures
        q.x == mix(p0.x as int, p1.x as int, num as int, den as int),
        q.y == mix(p0.y as int, p1.y as int, num as int, den as int),
        q.in_grid(),
{
    let x = mix_of(p0.x, p1.x, num, den);
    let y = mix_of(p0.y, p1.y, num, den);
    Point { x, y }
}

fn mix_of(a: i64, b: i64, num: usize, den: usize) -> (m: i64)
    requires
        0 < den,
        num <= den,
        -LIMIT <= a <= LIMIT,
        -LIMIT <= b <= LIMIT,
    ensures
        m == mix(a as int, b as int, num as int, den as int),
        -LIMIT <= m <= LIMIT,
{
    let rest: i128 = (den - num) as i128;
    assert(-(rest * LIMIT) <= rest * a <= rest * LIMIT) by (nonlinear_arith)
        requires
            0 <= rest,
            -LIMIT <= a <= LIMIT,
    ;
    assert(rest * LIMIT <= 18446744073709551615 * LIMIT) by (nonlinear_arith)
        requires
            0 <= rest <= 18446744073709551615,
    ;
    assert(-(num * LIMIT) <= num * b <= num * LIMIT) by (nonlinear_arith)
        requires
            0 <= num,
            -LIMIT <= b <= LIMIT,
    ;
    assert(num * LIMIT <= 18446744073709551615 * LIMIT) by (nonlinear_arith)
        requires
            0 <= num <= 18446744073709551615,
    ;
    let v: i128 = rest * (a as i128) + (num as i128) * (b as i128);
    let m = div_floor(v, den as i128);
    proof {
        lemma_mix_between(a as int, b as int, num as int, den as int, -LIMIT as int, LIMIT as int);
    }
    m as i64
}

/// The point of the Bezier curve with the given control points at the parameter
/// `num / den`, by de Casteljau's algorithm.
pub fn de_casteljau(control_points: &[Point], num: usize, den: usize) -> (q: Point)
    requires
        control_points@.len() >= 1,
        0 < den,
        num <= den,
        all_in_grid(control_points@),
    ensures
        on_curve(q, control_points@, num as int, den as int),
        q.in_grid(),
    decreases control_points@.len(),
{
    let n = control_points.len();
    if n == 1 {
        control_points[0]
    } else {
        let mut reduced_points: Vec<Point> = Vec::with_capacity(n - 1);
        let mut i: usize = 0;
        while i < n - 1
            invariant
                n == control_points@.len(),
                n >= 2,
                0 <= i <= n - 1,
                0 < den,
                num <= den,
                all_in_grid(control_points@),
                reduced_points@.len() == i,
                all_in_grid(reduced_points@),
                forall|k: int|
                    0 <= k < i ==> (#[trigger] reduced_points@[k]).x == mix(
                        control_points@[k].x as int,
                        control_points@[k + 1].x as int,
                        num as int,
                        den as int,
                    ),
                forall|k: int|
                    0 <= k < i ==> (#[trigger] reduced_points@[k]).y == mix(
                        control_points@[k].y as int,
                        control_points@[k + 1].y as int,
                        num as int,
                        den as int,
                    ),
            decreases n - 1 - i,
        {
            let q = interpolate(control_points[i], control_points[i + 1], num, den);
            reduced_points.push(q);
            i = i + 1;
        }
        proof {
            assert(xs(reduced_points@) =~= reduce(xs(control_points@), num as int, den as int));
            assert(ys(reduced_points@) =~= reduce(ys(control_points@), num as int, den as int));
        }
        de_casteljau(reduced_points.as_slice(), num, den)
    }
}

/// The polyline that approximates the Bezier curve with the given control points by
/// `num_segments` segments: its points at the parameters `i / num_segments` for
/// `i = 0, 1, ..., num_segments`. The polyline starts in the first control point and
/// ends in the last.
pub fn bezier_curve_points(control_points: &[Point], num_segments: usize) -> (points: Vec<Point>)
    requires
        control_points@.len() >= 1,
        1 <= num_segments < usize::MAX,
        all_in_grid(control_points@),
    ensures
        points@.len() == num_segments + 1,
        forall|i: int|
            0 <= i <= num_segments ==> on_curve(
                #[trigger] points@[i],
                control_points@,
                i,
                num_segments as int,
            ),
        all_in_grid(points@),
        points@[0] == control_points@[0],
        points@[num_segments as int] == control_points@[control_points@.len() - 1],
{
    let mut points: Vec<Point> = Vec::new();
    let mut i: usize = 0;
    while i <= num_segments
        invariant
            control_points@.len() >= 1,
            1 <= num_segments < usize::MAX,
            all_in_grid(control_points@),
            0 <= i <= num_segments + 1,
            points@.len() == i,
            all_in_grid(points@),
            forall|k: int|
                0 <= k < i ==> on_curve(#[trigger] points@[k], control_points@, k, num_segments as int),
        decreases num_segments + 1 - i,
    {
        let q = de_casteljau(control_points, i, num_segments);
        points.push(q);
        i = i + 1;
    }
    proof {
        let first = points@[0];
        let last = points@[num_segments as int];
        assert(on_curve(first, control_points@, 0, num_segments as int));
        assert(on_curve(last, control_points@, num_segments as int, num_segments as int));
        lemma_casteljau_start(xs(control_points@), num_segments as int);
        lemma_casteljau_start(ys(control_points@), num_segments as int);
        lemma_casteljau_end(xs(control_points@), num_segments as int);
        lemma_casteljau_end(ys(control_points@), num_segments as int);
    }
    points
}

} // verus!
