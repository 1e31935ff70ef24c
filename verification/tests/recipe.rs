use press::combinator::intersection;
use press::combinator::subtraction;
use press::polygon::sdf_polygon;
use press::polygon::Point;
use press::primitive::trapezoid;
use press::scalar::ONE;

fn grid(v: f64) -> i64 {
    (v * ONE as f64).round() as i64
}

fn units(v: i64) -> f64 {
    v as f64 / ONE as f64
}

fn pt(x: f64, y: f64) -> Point {
    Point { x: grid(x), y: grid(y) }
}

/// A bar whose cross-section in (x, y) is a trapezoid 4 wide at the bottom, 2 wide at
/// the top and 3 high, whose profile in (z, y) is bounded by a hexagon, and out of which
/// a square shaft around the y axis is cut.
fn bar(x: f64, y: f64, z: f64) -> i64 {
    let section = trapezoid(grid(x), grid(y), grid(4.0), grid(2.0), grid(3.0));
    let outline = [
        pt(-5.0, 0.0),
        pt(-6.0, 1.5),
        pt(-5.0, 3.0),
        pt(5.0, 3.0),
        pt(6.0, 1.5),
        pt(5.0, 0.0),
    ];
    let profile = sdf_polygon(&pt(z, y), &outline);
    let shaft = [pt(-0.5, -0.5), pt(-0.5, 0.5), pt(0.5, 0.5), pt(0.5, -0.5)];
    let hole = sdf_polygon(&pt(x, z), &shaft);
    subtraction(intersection(section, profile), hole)
}

#[test]
fn a_point_inside_the_bar_has_a_negative_distance() {
    let d = bar(1.0, 1.0, 2.0);
    assert!(d < 0);
    // The nearest face is the slanted side: k(1) = (4 - 2 / 3) / 2, x - k = -2 / 3.
    assert!((units(d) + 2.0 / 3.0).abs() < 1e-3);
}

#[test]
fn a_point_outside_the_bar_has_a_positive_distance() {
    assert!(bar(3.0, 1.0, 2.0) > 0);
    assert!(bar(1.0, 4.0, 2.0) > 0);
    assert!(bar(1.0, 1.0, 7.0) > 0);
    // Two units beyond the tip of the hexagon.
    assert_eq!(bar(1.0, 1.5, 8.0), grid(2.0));
}

#[test]
fn a_point_in_the_shaft_is_outside_the_bar() {
    let d = bar(0.0, 1.0, 0.0);
    assert_eq!(d, grid(0.5));
    let d = bar(0.25, 1.0, 0.0);
    assert_eq!(d, grid(0.25));
}
