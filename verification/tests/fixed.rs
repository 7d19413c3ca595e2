//! Fixed-point numbers.

use umwelt::fixed::{DistSq, Fixed};

#[test]
fn fixed_layout_is_transparent() {
    assert_eq!(core::mem::size_of::<Fixed>(), core::mem::size_of::<i32>());
    assert_eq!(core::mem::align_of::<Fixed>(), core::mem::align_of::<i32>());
}

#[test]
fn one_times_one_is_one() {
    // The check that catches a missing shift: with a naive `a * b` this
    // would come out 1024x too large.
    assert_eq!(Fixed::one() * Fixed::one(), Fixed::one());
}

#[test]
fn scalar_and_fixed_multiply_differ() {
    let three = Fixed::from_meters(3);
    assert_eq!(three * 2, Fixed::from_meters(6));
    assert_eq!(three * Fixed::from_meters(2), Fixed::from_meters(6));
    // Same answer here, but only because 2 m and the count 2 coincide.
    // Half a meter shows the difference.
    let half = Fixed::from_millis(0, 500);
    assert_eq!(three * half, Fixed::from_millis(1, 500));
}

#[test]
fn division_round_trips() {
    let a = Fixed::from_meters(100);
    let b = Fixed::from_meters(7);
    let q = a / b;
    let back = q * b;
    // Truncation loses at most one unit per operation.
    assert!((back - a).abs() <= Fixed::from_raw(8));
}

#[test]
fn from_millis_matches_expectation() {
    assert_eq!(Fixed::from_millis(1, 500).raw(), 1536);
    assert_eq!(Fixed::from_millis(0, 0), Fixed::zero());
}

#[test]
fn display_has_no_float() {
    assert_eq!(Fixed::from_meters(293).to_string(), "293.000m");
    assert_eq!(Fixed::from_millis(1, 500).to_string(), "1.500m");
    assert_eq!(Fixed::from_meters(-4).to_string(), "-4.000m");
}

#[test]
fn dist_sq_holds_full_region_diagonal() {
    // Worst case across a 4096 m region in three axes.
    let far = Fixed::from_meters(4096);
    let d = DistSq::from_radius(far);
    assert!(d.raw().checked_mul(3).is_some());
}

#[test]
fn dist_sq_ordering_matches_distance() {
    let near = DistSq::from_radius(Fixed::from_meters(10));
    let far = DistSq::from_radius(Fixed::from_meters(100));
    assert!(near < far);
}

#[test]
fn sqrt_approx_is_close() {
    let d = DistSq::from_radius(Fixed::from_meters(300));
    let r = d.sqrt_approx();
    assert!((r - Fixed::from_meters(300)).abs() <= Fixed::from_raw(2));
}

#[test]
fn checked_mul_rejects_overflow() {
    let huge = Fixed::from_meters(2_000_000);
    assert!(huge.checked_mul(huge).is_none());
    assert!(Fixed::from_meters(2).checked_mul(Fixed::from_meters(2)).is_some());
}
