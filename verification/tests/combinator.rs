use press::combinator::complement;
use press::combinator::intersection;
use press::combinator::subtraction;
use press::combinator::union;

#[test]
fn union_is_the_smaller_distance() {
    assert_eq!(union(-3, 5), -3);
    assert_eq!(union(5, -3), -3);
    assert_eq!(union(2, 7), 2);
    assert_eq!(union(i64::MIN, i64::MAX), i64::MIN);
}

#[test]
fn intersection_is_the_larger_distance() {
    assert_eq!(intersection(-3, 5), 5);
    assert_eq!(intersection(5, -3), 5);
    assert_eq!(intersection(-2, -7), -2);
    assert_eq!(intersection(i64::MIN, i64::MAX), i64::MAX);
}

#[test]
fn subtraction_is_the_larger_of_a_and_minus_b() {
    assert_eq!(subtraction(-3, 5), -3);
    assert_eq!(subtraction(-3, -5), 5);
    assert_eq!(subtraction(4, 9), 4);
    assert_eq!(subtraction(-3, 1), -1);
}

#[test]
fn complement_negates() {
    assert_eq!(complement(7), -7);
    assert_eq!(complement(-7), 7);
    assert_eq!(complement(0), 0);
    assert_eq!(complement(i64::MAX), -i64::MAX);
}

#[test]
fn sign_laws_on_a_grid_of_values() {
    for a in -3i64..=3 {
        for b in -3i64..=3 {
            assert_eq!(union(a, b) < 0, a < 0 || b < 0);
            assert_eq!(intersection(a, b) < 0, a < 0 && b < 0);
            assert_eq!(subtraction(a, b) < 0, a < 0 && b > 0);
            if !(a < 0 && b == 0) {
                assert_eq!(subtraction(a, b) < 0, a < 0 && b >= 0);
            }
            assert_eq!(subtraction(a, b), intersection(a, complement(b)));
        }
    }
}

#[test]
fn on_the_boundary_of_the_cut_the_result_is_on_its_boundary() {
    assert_eq!(subtraction(-3, 0), 0);
}
