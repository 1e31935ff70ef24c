use press::scalar::div_floor;
use press::scalar::fits;
use press::scalar::isqrt;
use press::scalar::LIMIT;
use press::scalar::ONE;

#[test]
fn the_unit_has_sixteen_binary_places() {
    assert_eq!(ONE, 1 << 16);
    assert_eq!(LIMIT, 16384 * ONE);
}

#[test]
fn isqrt_rounds_down() {
    assert_eq!(isqrt(0), 0);
    assert_eq!(isqrt(1), 1);
    assert_eq!(isqrt(2), 1);
    assert_eq!(isqrt(3), 1);
    assert_eq!(isqrt(4), 2);
    assert_eq!(isqrt(24), 4);
    assert_eq!(isqrt(25), 5);
    assert_eq!(isqrt(26), 5);
    assert_eq!(isqrt(1_000_000_000_000), 1_000_000);
    assert_eq!(isqrt(999_999_999_999), 999_999);
}

#[test]
fn isqrt_of_the_largest_argument() {
    assert_eq!(isqrt(u128::MAX), u64::MAX);
    let r = u64::MAX as u128;
    assert_eq!(isqrt(r * r), u64::MAX);
    assert_eq!(isqrt(r * r - 1), u64::MAX - 1);
}

#[test]
fn isqrt_brackets_every_small_argument() {
    for v in 0u128..5000 {
        let r = isqrt(v) as u128;
        assert!(r * r <= v && v < (r + 1) * (r + 1));
    }
}

#[test]
fn div_floor_rounds_towards_minus_infinity() {
    assert_eq!(div_floor(7, 2), 3);
    assert_eq!(div_floor(-7, 2), -4);
    assert_eq!(div_floor(-8, 2), -4);
    assert_eq!(div_floor(8, 2), 4);
    assert_eq!(div_floor(-1, 5), -1);
    assert_eq!(div_floor(0, 5), 0);
    assert_eq!(div_floor(4, 5), 0);
    assert_eq!(div_floor(i128::MIN, 1), i128::MIN);
    assert_eq!(div_floor(i128::MIN, 2), i128::MIN / 2);
    assert_eq!(div_floor(i128::MIN + 1, 2), i128::MIN / 2);
    assert_eq!(div_floor(i128::MAX, i128::MAX), 1);
}

#[test]
fn the_grid_ends_at_the_limit() {
    assert!(fits(0));
    assert!(fits(LIMIT));
    assert!(fits(-LIMIT));
    assert!(!fits(LIMIT + 1));
    assert!(!fits(-LIMIT - 1));
    assert!(!fits(i64::MAX));
    assert!(!fits(i64::MIN));
}
