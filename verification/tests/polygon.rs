use press::bezier::bezier_curve_points;
use press::polygon::all_fit;
use press::polygon::is_outside;
use press::polygon::point_to_segment_distance;
use press::polygon::sdf_polygon;
use press::polygon::Point;
use press::polygon::Polygon;
use press::scalar::LIMIT;
use press::scalar::ONE;

fn grid(v: f64) -> i64 {
    (v * ONE as f64).round() as i64
}

fn units(v: i64) -> f64 {
    v as f64 / ONE as f64
}

fn pt(x: f64, y: f64) -> Point {
    Point { x: grid(x), y: grid(y) }
}

fn square() -> Vec<Point> {
    vec![pt(1.0, 1.0), pt(1.0, 2.0), pt(2.0, 2.0), pt(2.0, 1.0)]
}

#[test]
fn test_point_distance() {
    let p1 = pt(0.0, 0.0);
    let p2 = pt(3.0, 4.0);
    assert_eq!(units(p1.distance_to(&p2)), 5.0);
}

#[test]
fn test_point_to_segment_distance() {
    let p = pt(0.0, 0.0);
    let a = pt(1.0, -1.0);
    let b = pt(1.0, 2.0);
    assert_eq!(units(point_to_segment_distance(&p, &a, &b)), 1.0);
}

#[test]
fn test_is_outside() {
    let vertices = square();
    let point = pt(0.0, 0.0);
    assert!(is_outside(&point, &vertices));
    let point = pt(1.5, 1.5);
    assert!(!is_outside(&point, &vertices));
}

#[test]
fn test_sdf_polygon() {
    let vertices = square();
    let point = pt(0.0, 0.0);
    assert!((1.41 - units(sdf_polygon(&point, &vertices))).abs() < 0.005);
    let point = pt(1.5, 1.5);
    assert!((-0.5 - units(sdf_polygon(&point, &vertices))).abs() < 0.05);
}

#[test]
fn the_square_from_outside_and_from_inside() {
    let vertices = square();
    // The corner (1, 1) is the square root of two away.
    assert_eq!(sdf_polygon(&pt(0.0, 0.0), &vertices), 92681);
    assert!((units(sdf_polygon(&pt(0.0, 0.0), &vertices)) - 1.41421).abs() < 0.01);
    assert_eq!(sdf_polygon(&pt(1.5, 1.5), &vertices), grid(-0.5));
    assert_eq!(sdf_polygon(&pt(1.25, 1.5), &vertices), grid(-0.25));
    assert_eq!(sdf_polygon(&pt(1.5, 3.0), &vertices), grid(1.0));
    assert_eq!(sdf_polygon(&pt(4.0, 1.5), &vertices), grid(2.0));
}

#[test]
fn a_segment_of_length_zero_is_a_point() {
    let p = pt(3.0, 4.0);
    let a = pt(0.0, 0.0);
    assert_eq!(point_to_segment_distance(&p, &a, &a), grid(5.0));
}

#[test]
fn the_nearest_point_of_a_segment_is_an_end_or_the_foot() {
    let a = pt(0.0, 0.0);
    let b = pt(4.0, 0.0);
    assert_eq!(point_to_segment_distance(&pt(-3.0, 4.0), &a, &b), grid(5.0));
    assert_eq!(point_to_segment_distance(&pt(7.0, -4.0), &a, &b), grid(5.0));
    assert_eq!(point_to_segment_distance(&pt(1.0, 2.5), &a, &b), grid(2.5));
    assert_eq!(point_to_segment_distance(&pt(4.0, 0.0), &a, &b), 0);
    assert_eq!(point_to_segment_distance(&pt(2.0, 0.0), &a, &b), 0);
}

#[test]
fn distances_round_down() {
    let a = Point { x: 0, y: 0 };
    assert_eq!(a.distance_to(&Point { x: 1, y: 1 }), 1);
    assert_eq!(a.distance_to(&Point { x: 2, y: 2 }), 2);
    assert_eq!(a.distance_to(&Point { x: 5, y: 5 }), 7);
    // The foot of the perpendicular is (1.5, 1.5): the distance is the root of 4.5.
    assert_eq!(point_to_segment_distance(&Point { x: 3, y: 0 }, &a, &Point { x: 3, y: 3 }), 2);
}

#[test]
fn the_far_corners_of_the_grid() {
    let limit = LIMIT;
    let a = Point { x: -limit, y: -limit };
    let b = Point { x: limit, y: limit };
    // 2^31 times the square root of two.
    assert_eq!(a.distance_to(&b), 3037000499);
    let big = [a, Point { x: limit, y: -limit }, b, Point { x: -limit, y: limit }];
    assert_eq!(sdf_polygon(&Point { x: 0, y: 0 }, &big), -limit);
    assert!(!is_outside(&Point { x: limit - 1, y: 1 - limit }, &big));
}

#[test]
fn a_horizontal_edge_is_never_crossed() {
    // The ray from the point runs along the lower edge of the square.
    let vertices = square();
    assert!(is_outside(&pt(0.0, 1.0), &vertices));
    assert!(is_outside(&pt(0.0, 2.0), &vertices));
    assert!(is_outside(&pt(3.0, 1.0), &vertices));
}

#[test]
fn a_point_on_an_edge_has_distance_zero() {
    let vertices = square();
    assert_eq!(sdf_polygon(&pt(1.0, 1.5), &vertices), 0);
    assert_eq!(sdf_polygon(&pt(2.0, 1.5), &vertices), 0);
    assert_eq!(sdf_polygon(&pt(1.5, 1.0), &vertices), 0);
    assert_eq!(sdf_polygon(&pt(1.0, 1.0), &vertices), 0);
}

#[test]
fn the_order_of_the_vertices_does_not_matter_for_the_sign() {
    let mut vertices = square();
    vertices.reverse();
    assert!(is_outside(&pt(0.0, 0.0), &vertices));
    assert!(!is_outside(&pt(1.5, 1.5), &vertices));
    assert_eq!(sdf_polygon(&pt(1.5, 1.5), &vertices), grid(-0.5));
}

#[test]
fn a_polygon_with_a_notch() {
    // An L: the square (0,0)-(4,4) without its upper right quarter.
    let l = [pt(0.0, 0.0), pt(4.0, 0.0), pt(4.0, 2.0), pt(2.0, 2.0), pt(2.0, 4.0), pt(0.0, 4.0)];
    assert_eq!(sdf_polygon(&pt(1.0, 1.0), &l), grid(-1.0));
    assert_eq!(sdf_polygon(&pt(3.0, 3.0), &l), grid(1.0));
    assert_eq!(sdf_polygon(&pt(1.0, 3.0), &l), grid(-1.0));
    assert_eq!(sdf_polygon(&pt(3.0, 1.0), &l), grid(-1.0));
    // The corners (4, 2) and (2, 4) are the square root of ten away.
    assert_eq!(sdf_polygon(&pt(5.0, 5.0), &l), 207243);
}

#[test]
fn a_polygon_is_made_of_three_vertices_or_more_in_the_grid() {
    assert!(Polygon::new(vec![]).is_none());
    assert!(Polygon::new(vec![pt(0.0, 0.0), pt(1.0, 0.0)]).is_none());
    let beyond = Point { x: LIMIT + 1, y: 0 };
    assert!(!beyond.fits());
    assert!(pt(1.0, 1.0).fits());
    assert!(!all_fit(&[pt(0.0, 0.0), beyond]));
    assert!(all_fit(&square()));
    assert!(all_fit(&[]));
    assert!(Polygon::new(vec![pt(0.0, 0.0), pt(1.0, 0.0), beyond]).is_none());
    let polygon = Polygon::new(square()).unwrap();
    assert_eq!(polygon.vertices().len(), 4);
    assert!(polygon.contains(&pt(1.5, 1.5)));
    assert!(!polygon.contains(&pt(0.0, 0.0)));
    assert_eq!(polygon.distance(&pt(1.5, 1.5)), grid(-0.5));
    assert_eq!(polygon.distance(&pt(0.0, 0.0)), 92681);
}

#[test]
fn a_flattened_curve_bounds_a_polygon() {
    // An arch over the segment from (0, 0) to (4, 0).
    let control = [pt(0.0, 0.0), pt(0.0, 4.0), pt(4.0, 4.0), pt(4.0, 0.0)];
    let arch = Polygon::new(bezier_curve_points(&control, 16)).unwrap();
    assert_eq!(arch.vertices().len(), 17);
    assert!(arch.contains(&pt(2.0, 1.0)));
    assert!(arch.contains(&pt(2.0, 2.9)));
    assert!(!arch.contains(&pt(2.0, 3.1)));
    assert!(!arch.contains(&pt(2.0, -0.1)));
    assert_eq!(arch.distance(&pt(2.0, -1.0)), grid(1.0));
}
