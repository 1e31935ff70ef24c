use press::scalar::ONE;
use press::transform::euler_matrix;
use press::transform::rotate_axis;
use press::transform::rotate_euler;
use press::transform::rotate_matrix;
use press::transform::rotate_x;
use press::transform::rotate_y;
use press::transform::rotate_z;
use press::transform::translate;
use press::transform::Angle;
use press::transform::Matrix3;
use press::vector::Point3;

fn grid(v: f64) -> i64 {
    (v * ONE as f64).round() as i64
}

fn p3(x: f64, y: f64, z: f64) -> Point3 {
    Point3 { x: grid(x), y: grid(y), z: grid(z) }
}

fn angle(radians: f64) -> Angle {
    Angle { cos: grid(radians.cos()), sin: grid(radians.sin()) }
}

fn coords(p: Point3) -> (i64, i64, i64) {
    (p.x, p.y, p.z)
}

fn length(p: Point3) -> f64 {
    let (x, y, z) = (p.x as f64, p.y as f64, p.z as f64);
    (x * x + y * y + z * z).sqrt() / ONE as f64
}

fn close(p: Point3, x: f64, y: f64, z: f64, steps: i64) -> bool {
    (p.x - grid(x)).abs() <= steps && (p.y - grid(y)).abs() <= steps && (p.z - grid(z)).abs() <= steps
}

#[test]
fn translate_subtracts_the_offset() {
    let r = translate(p3(1.0, 2.0, 3.0), p3(0.5, 0.5, 0.5));
    assert_eq!(coords(r), coords(p3(0.5, 1.5, 2.5)));
    let r = translate(p3(1.0, 2.0, 3.0), p3(0.0, 0.0, 0.0));
    assert_eq!(coords(r), coords(p3(1.0, 2.0, 3.0)));
}

#[test]
fn the_angle_zero_moves_nothing() {
    let p = p3(1.25, -7.5, 3.0);
    assert_eq!(coords(rotate_x(p, Angle::zero())), coords(p));
    assert_eq!(coords(rotate_y(p, Angle::zero())), coords(p));
    assert_eq!(coords(rotate_z(p, Angle::zero())), coords(p));
    assert_eq!(coords(rotate_axis(p, p3(0.3, -2.0, 1.1), Angle::zero())), coords(p));
    assert_eq!(coords(rotate_euler(p, Angle::zero(), Angle::zero(), Angle::zero())), coords(p));
    assert_eq!(coords(rotate_matrix(p, Matrix3::identity())), coords(p));
}

#[test]
fn a_quarter_turn_is_undone() {
    let quarter = Angle { cos: 0, sin: ONE };
    // A solid turned by a quarter about z is sampled at the point turned the other way.
    assert_eq!(coords(rotate_z(p3(1.0, 0.0, 0.0), quarter)), coords(p3(0.0, -1.0, 0.0)));
    assert_eq!(coords(rotate_z(p3(0.0, 1.0, 0.0), quarter)), coords(p3(1.0, 0.0, 0.0)));
    assert_eq!(coords(rotate_x(p3(0.0, 1.0, 0.0), quarter)), coords(p3(0.0, 0.0, -1.0)));
    assert_eq!(coords(rotate_y(p3(0.0, 0.0, 1.0), quarter)), coords(p3(-1.0, 0.0, 0.0)));
}

#[test]
fn the_axis_need_not_have_unit_length() {
    let quarter = Angle { cos: 0, sin: ONE };
    let p = p3(1.0, 2.0, 3.0);
    let r = rotate_axis(p, p3(0.0, 0.0, 2.0), quarter);
    assert_eq!(coords(r), coords(rotate_z(p, quarter)));
    let r = rotate_axis(p, Point3 { x: 0, y: 0, z: 1 }, quarter);
    assert_eq!(coords(r), coords(rotate_z(p, quarter)));
}

#[test]
fn a_third_of_a_turn_about_the_diagonal_permutes_the_axes() {
    let third = angle(2.0 * std::f64::consts::PI / 3.0);
    let r = rotate_axis(p3(1.0, 0.0, 0.0), p3(1.0, 1.0, 1.0), third);
    assert!(close(r, 0.0, 0.0, 1.0, 4));
    let r = rotate_axis(p3(0.0, 0.0, 5.0), p3(1.0, 1.0, 1.0), third);
    assert!(close(r, 0.0, 5.0, 0.0, 16));
}

#[test]
fn rotation_keeps_the_length() {
    let p = p3(3.0, -4.0, 12.0);
    let axes = [p3(1.0, 0.0, 0.0), p3(1.0, 2.0, 3.0), p3(-0.2, 0.7, 0.1), p3(0.0, -5.0, 5.0)];
    for axis in axes {
        for i in 0..24 {
            let r = rotate_axis(p, axis, angle(i as f64 * 0.37));
            assert!((length(r) - 13.0).abs() < 1e-3);
        }
    }
}

#[test]
fn rotate_x_follows_the_closed_form() {
    let a = angle(0.3);
    let p = p3(1.0, 2.0, 3.0);
    let r = rotate_x(p, a);
    assert_eq!(r.x, p.x);
    assert_eq!(r.y, (p.y * a.cos + p.z * a.sin).div_euclid(ONE));
    assert_eq!(r.z, (p.z * a.cos - p.y * a.sin).div_euclid(ONE));
}

#[test]
fn one_euler_angle_alone_is_a_turn_about_its_axis() {
    let a = angle(-1.1);
    let zero = Angle::zero();
    let p = p3(-2.0, 0.5, 4.25);
    assert_eq!(coords(rotate_euler(p, a, zero, zero)), coords(rotate_x(p, a)));
    assert_eq!(coords(rotate_euler(p, zero, a, zero)), coords(rotate_y(p, a)));
    assert_eq!(coords(rotate_euler(p, zero, zero, a)), coords(rotate_z(p, a)));
}

#[test]
fn euler_angles_apply_z_first_then_y_then_x() {
    let (pitch, yaw, roll) = (angle(0.4), angle(-0.9), angle(2.1));
    let p = p3(1.0, -2.0, 0.5);
    let direct = rotate_euler(p, pitch, yaw, roll);
    let steps = rotate_x(rotate_y(rotate_z(p, roll), yaw), pitch);
    assert!((direct.x - steps.x).abs() <= 8);
    assert!((direct.y - steps.y).abs() <= 8);
    assert!((direct.z - steps.z).abs() <= 8);
}

#[test]
fn rotate_matrix_applies_the_transpose() {
    // The matrix of a quarter turn about z.
    let m = Matrix3 {
        x: Point3 { x: 0, y: -ONE, z: 0 },
        y: Point3 { x: ONE, y: 0, z: 0 },
        z: Point3 { x: 0, y: 0, z: ONE },
    };
    let quarter = Angle { cos: 0, sin: ONE };
    let p = p3(1.0, 2.0, 3.0);
    assert_eq!(coords(rotate_matrix(p, m)), coords(rotate_z(p, quarter)));
    assert_eq!(coords(rotate_matrix(p, m)), coords(p3(2.0, -1.0, 3.0)));
}

#[test]
fn the_euler_matrix_of_a_roll() {
    let quarter = Angle { cos: 0, sin: ONE };
    let m = euler_matrix(Angle::zero(), Angle::zero(), quarter);
    assert_eq!(coords(m.x), (0, ONE, 0));
    assert_eq!(coords(m.y), (-ONE, 0, 0));
    assert_eq!(coords(m.z), (0, 0, ONE));
}

#[test]
fn angles_are_checked() {
    assert!(Angle::zero().is_valid());
    assert!(Angle { cos: -ONE, sin: ONE }.is_valid());
    assert!(!Angle { cos: ONE + 1, sin: 0 }.is_valid());
    assert!(!Angle { cos: 0, sin: -ONE - 1 }.is_valid());
    assert!(p3(1.0, 2.0, 3.0).fits());
    assert!(!Point3 { x: 0, y: 1 << 31, z: 0 }.fits());
}
