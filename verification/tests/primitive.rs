use press::primitive::cylinder_between;
use press::primitive::slab;
use press::primitive::trapezoid;
use press::scalar::ONE;
use press::vector::Point3;

fn grid(v: f64) -> i64 {
    (v * ONE as f64).round() as i64
}

fn units(v: i64) -> f64 {
    v as f64 / ONE as f64
}

fn p3(x: f64, y: f64, z: f64) -> Point3 {
    Point3 { x: grid(x), y: grid(y), z: grid(z) }
}

fn trapezoid_in_floats(x: f64, y: f64, w1: f64, w2: f64, h: f64) -> f64 {
    let k = (w1 + y * (w2 - w1) / h) / 2.0;
    (x - k).max(-k - x).max(-y).max(y - h)
}

#[test]
fn trapezoid_inside_and_outside() {
    let d = trapezoid(grid(0.25), grid(1.0), grid(2.0), grid(1.0), grid(2.0));
    assert_eq!(d, grid(-0.5));
    let d = trapezoid(grid(2.0), grid(1.0), grid(2.0), grid(1.0), grid(2.0));
    assert_eq!(d, grid(1.25));
    let d = trapezoid(grid(0.0), grid(-0.5), grid(2.0), grid(1.0), grid(2.0));
    assert_eq!(d, grid(0.5));
    let d = trapezoid(grid(0.0), grid(3.0), grid(2.0), grid(1.0), grid(2.0));
    assert_eq!(d, grid(1.0));
}

#[test]
fn trapezoid_agrees_with_the_formula_in_floats() {
    let cases = [
        (0.25, 1.0, 2.0, 1.0, 2.0),
        (-0.75, 0.5, 1.5, 3.0, 4.0),
        (1.0, 2.5, 14.5, 13.0, 200.0),
        (-3.0, 7.0, 1.7, 5.1, 8.5),
        (0.3, -0.2, 2.0, 6.0, 0.7),
    ];
    for (x, y, w1, w2, h) in cases {
        let d = trapezoid(grid(x), grid(y), grid(w1), grid(w2), grid(h));
        assert!((units(d) - trapezoid_in_floats(x, y, w1, w2, h)).abs() < 1e-3);
    }
}

#[test]
fn trapezoid_with_a_negative_height_rounds_down_too() {
    // k = (0 + floor(3 * 1 / -2)) / 2 = floor(-2 / 2) = -1
    let d = trapezoid(0, 3, 0, 1, -2);
    assert_eq!(d, 5);
}

#[test]
fn slab_is_the_largest_excess() {
    assert_eq!(slab(p3(0.5, 0.0, 0.0), grid(1.0), grid(1.0), grid(1.0)), grid(-0.5));
    assert_eq!(slab(p3(0.5, 0.0, -3.0), grid(1.0), grid(1.0), grid(1.0)), grid(2.0));
    assert_eq!(slab(p3(0.0, 2.5, 0.0), grid(1.0), grid(1.0), grid(0.5)), grid(2.0));
    assert_eq!(slab(p3(-0.25, 0.125, 0.125), grid(0.4), grid(0.2), grid(0.3)), grid(0.125) - grid(0.2));
}

#[test]
fn cylinder_beside_and_beyond_the_spine() {
    let a = p3(0.0, 0.0, 0.0);
    let b = p3(0.0, 0.0, 10.0);
    assert_eq!(cylinder_between(p3(3.0, 4.0, 5.0), a, b, grid(1.0)), grid(4.0));
    assert_eq!(cylinder_between(p3(0.0, 0.0, 12.0), a, b, grid(1.0)), grid(1.0));
    assert_eq!(cylinder_between(p3(0.0, 0.0, -3.0), a, b, grid(1.0)), grid(2.0));
    assert_eq!(cylinder_between(p3(0.0, 0.0, 5.0), a, b, grid(1.0)), grid(-1.0));
}

#[test]
fn cylinder_with_a_slanted_spine() {
    let a = p3(1.0, 1.0, 1.0);
    let b = p3(4.0, 5.0, 1.0);
    // The foot of the perpendicular from p is the middle of the spine, 2.5 away.
    let p = p3(2.5 + 2.0, 3.0 - 1.5, 1.0);
    assert_eq!(cylinder_between(p, a, b, grid(0.5)), grid(2.0));
}

#[test]
fn a_spine_of_length_zero_gives_a_ball() {
    let a = p3(1.0, 1.0, 1.0);
    assert_eq!(cylinder_between(p3(4.0, 5.0, 1.0), a, a, grid(2.0)), grid(3.0));
    assert_eq!(cylinder_between(a, a, a, grid(2.0)), grid(-2.0));
}

#[test]
fn a_spine_shorter_than_a_thousandth_gives_a_ball() {
    let a = Point3 { x: 0, y: 0, z: 0 };
    let short = Point3 { x: 0, y: 0, z: 65 };
    let long = Point3 { x: 0, y: 0, z: 66 };
    let p = Point3 { x: 0, y: 0, z: 1066 };
    assert_eq!(cylinder_between(p, a, short, 10), 1056);
    assert_eq!(cylinder_between(p, a, long, 10), 990);
}
