use press::bezier::bezier_curve_points;
use press::bezier::de_casteljau;
use press::bezier::interpolate;
use press::polygon::Point;
use press::scalar::ONE;

fn grid(v: f64) -> i64 {
    (v * ONE as f64).round() as i64
}

fn pt(x: f64, y: f64) -> Point {
    Point { x: grid(x), y: grid(y) }
}

fn same(a: Point, b: Point) -> bool {
    a.x == b.x && a.y == b.y
}

#[test]
fn interpolate_at_the_ends_and_in_the_middle() {
    let a = pt(1.0, -2.0);
    let b = pt(3.0, 6.0);
    assert!(same(interpolate(a, b, 0, 4), a));
    assert!(same(interpolate(a, b, 4, 4), b));
    assert!(same(interpolate(a, b, 2, 4), pt(2.0, 2.0)));
    assert!(same(interpolate(a, b, 1, 4), pt(1.5, 0.0)));
}

#[test]
fn interpolate_rounds_down() {
    let a = Point { x: 0, y: 0 };
    let b = Point { x: 1, y: -1 };
    let q = interpolate(a, b, 1, 3);
    assert_eq!((q.x, q.y), (0, -1));
    let q = interpolate(a, b, 2, 3);
    assert_eq!((q.x, q.y), (0, -1));
}

#[test]
fn a_single_control_point_is_the_curve() {
    let only = [pt(2.5, -1.25)];
    assert!(same(de_casteljau(&only, 1, 3), only[0]));
    let points = bezier_curve_points(&only, 3);
    assert_eq!(points.len(), 4);
    for q in points {
        assert!(same(q, only[0]));
    }
}

#[test]
fn a_quadratic_curve_at_quarters() {
    let control = [pt(0.0, 0.0), pt(2.0, 4.0), pt(4.0, 0.0)];
    assert!(same(de_casteljau(&control, 1, 2), pt(2.0, 2.0)));
    assert!(same(de_casteljau(&control, 1, 4), pt(1.0, 1.5)));
    assert!(same(de_casteljau(&control, 3, 4), pt(3.0, 1.5)));
}

#[test]
fn flattening_gives_one_point_more_than_segments() {
    let control = [pt(0.0, 0.0), pt(1.0, 3.0), pt(3.0, 3.0), pt(4.0, 0.0)];
    for k in 1usize..=16 {
        let points = bezier_curve_points(&control, k);
        assert_eq!(points.len(), k + 1);
        assert!(same(points[0], control[0]));
        assert!(same(points[k], control[3]));
    }
}

#[test]
fn a_cubic_curve_follows_the_bernstein_form() {
    let control = [(0.0, 0.0), (1.0, 3.0), (3.0, 3.0), (4.0, 0.0)];
    let grid_control: Vec<Point> = control.iter().map(|&(x, y)| pt(x, y)).collect();
    let k = 10usize;
    let points = bezier_curve_points(&grid_control, k);
    for (i, q) in points.iter().enumerate() {
        let t = i as f64 / k as f64;
        let s = 1.0 - t;
        let w = [s * s * s, 3.0 * s * s * t, 3.0 * s * t * t, t * t * t];
        let x: f64 = (0..4).map(|j| w[j] * control[j].0).sum();
        let y: f64 = (0..4).map(|j| w[j] * control[j].1).sum();
        assert!((q.x as f64 / ONE as f64 - x).abs() < 1e-4);
        assert!((q.y as f64 / ONE as f64 - y).abs() < 1e-4);
    }
}

#[test]
fn the_curve_stays_within_the_range_of_its_control_points() {
    let control = [pt(-1.0, 2.0), pt(5.0, -3.0), pt(0.5, 7.0)];
    for q in bezier_curve_points(&control, 25) {
        assert!(grid(-1.0) <= q.x && q.x <= grid(5.0));
        assert!(grid(-3.0) <= q.y && q.y <= grid(7.0));
    }
}
