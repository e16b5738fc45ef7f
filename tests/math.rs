use algo_kit::math::{gcd, lcm};

#[test]
fn test_gcd() {
    assert_eq!(gcd(1, 2), 1);
    assert_eq!(gcd(2, 2), 2);
    assert_eq!(gcd(10, 19), 1);
    assert_eq!(gcd(10, 18), 2);
    assert_eq!(gcd(10, 15), 5);
    assert_eq!(gcd(10, 20), 10);
}

#[test]
fn test_lcm() {
    assert_eq!(lcm(1, 2), 2);
    assert_eq!(lcm(2, 2), 2);
    assert_eq!(lcm(10, 19), 190);
    assert_eq!(lcm(10, 18), 90);
    assert_eq!(lcm(10, 15), 30);
    assert_eq!(lcm(10, 20), 20);
}

#[test]
fn gcd_with_zero_and_signs() {
    assert_eq!(gcd(0, 0), 0);
    assert_eq!(gcd(7, 0), 7);
    assert_eq!(gcd(0, 7), 7);
    assert_eq!(gcd(4, -6), -2);
    assert_eq!(gcd(-4, 6), 2);
    assert_eq!(gcd(-4, 0), -4);
    assert_eq!(gcd(i64::MIN, 0), i64::MIN);
    assert_eq!(gcd(3, i64::MIN), 1);
    assert_eq!(gcd(i64::MIN, 6), -2);
}

#[test]
fn lcm_with_signs_and_extremes() {
    assert_eq!(lcm(4, -6), 12);
    assert_eq!(lcm(-4, 6), -12);
    assert_eq!(lcm(0, 5), 0);
    assert_eq!(lcm(i64::MIN, 0), 0);
    assert_eq!(lcm(i64::MIN, 1), i64::MIN);
}

#[test]
fn gcd_times_lcm_is_product() {
    for a in 1..40i64 {
        for b in 1..40i64 {
            assert_eq!(gcd(a, b) * lcm(a, b), a * b);
        }
    }
}
