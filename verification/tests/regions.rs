use numgrid::cardioid::cardioid_contains;
use numgrid::region::annulus_contains;
use numgrid::region::crescent_contains;
use numgrid::region::disk_contains;
use numgrid::rose::rose_contains;
use numgrid::wide::Wide;

fn same(x: &Wide, y: &Wide) -> bool {
    x.at_most(y) && y.at_most(x)
}

#[test]
fn disk_holds_points_strictly_inside_the_circle() {
    assert!(disk_contains(0, 0, 4));
    assert!(disk_contains(2, 2, 4));
    assert!(disk_contains(-3, 2, 4));
    assert!(!disk_contains(4, 0, 4));
    assert!(!disk_contains(0, -4, 4));
    assert!(!disk_contains(3, 3, 4));
    assert!(!disk_contains(3, 4, 5));
    assert!(disk_contains(3, 3, 5));
    assert!(!disk_contains(-4, 4, 4));
}

#[test]
fn disk_at_the_largest_denominator() {
    assert!(disk_contains(0, 0, 65534));
    assert!(disk_contains(46339, 46339, 65534));
    assert!(!disk_contains(46340, 46340, 65534));
    assert!(!disk_contains(65534, -65534, 65534));
}

#[test]
fn annulus_holds_points_between_the_two_circles() {
    assert!(!annulus_contains(0, 0, 4));
    assert!(!annulus_contains(2, 0, 4));
    assert!(annulus_contains(2, 2, 4));
    assert!(annulus_contains(3, 0, 4));
    assert!(!annulus_contains(4, 0, 4));
    // The inner circle has squared radius one third: 3 * (1 + 1) - 9 < 0 <= 3 * (4 + 0) - 9.
    assert!(!annulus_contains(1, 1, 3));
    assert!(annulus_contains(2, 0, 3));
    assert!(annulus_contains(-1, 2, 3));
}

#[test]
fn crescent_holds_points_outside_the_corner_disk() {
    // The disk has radius 1 around (1, 1).
    assert!(crescent_contains(0, 0, 4));
    assert!(crescent_contains(-4, -4, 4));
    assert!(!crescent_contains(4, 4, 4));
    assert!(!crescent_contains(2, 2, 4));
    assert!(!crescent_contains(4, 0, 4));
    assert!(!crescent_contains(0, 4, 4));
    assert!(crescent_contains(-1, 4, 4));
    assert!(crescent_contains(1, 1, 4));
    assert!(!crescent_contains(2, 1, 4));
}

#[test]
fn cardioid_holds_points_inside_the_heart() {
    // With a = x * m and b = y * m: s * (4 * s + 3 * b * m) < 3 * a^2 * m^2, s = a^2 + b^2.
    assert!(!cardioid_contains(0, 0, 4));
    assert!(cardioid_contains(1, 0, 4));
    assert!(cardioid_contains(2, -2, 4));
    assert!(cardioid_contains(2, -1, 4));
    assert!(cardioid_contains(0, -2, 4));
    assert!(!cardioid_contains(0, 2, 4));
    assert!(!cardioid_contains(0, -3, 4));
    assert!(!cardioid_contains(2, 2, 4));
    assert!(!cardioid_contains(4, 0, 4));
    assert!(!cardioid_contains(4, -4, 4));
    assert!(cardioid_contains(-2, -1, 4));
}

#[test]
fn rose_holds_the_axes_and_the_quadrants_of_mixed_sign() {
    assert!(rose_contains(0, 0, 7));
    assert!(rose_contains(3, 0, 7));
    assert!(rose_contains(0, -5, 7));
    assert!(rose_contains(-7, 0, 7));
    for a in 1..=7i64 {
        for b in 1..=7i64 {
            assert!(rose_contains(a, -b, 7));
            assert!(rose_contains(-a, b, 7));
        }
    }
}

#[test]
fn rose_cuts_petals_out_of_the_quadrants_of_equal_sign() {
    // On the diagonal sin(2t) = 1 and sin(8t) = 0: inside the petal while r < 1.
    assert!(!rose_contains(1, 1, 7));
    assert!(!rose_contains(4, 4, 7));
    assert!(!rose_contains(-4, -4, 7));
    assert!(rose_contains(5, 5, 7));
    assert!(rose_contains(-5, -5, 7));
    assert!(rose_contains(7, 7, 7));
    // Near the axis the petal is thin.
    assert!(rose_contains(5, 1, 7));
    assert!(!rose_contains(3, 1, 7));
    assert!(!rose_contains(1, 3, 7));
}

#[test]
fn rose_is_the_same_at_every_scale() {
    for a in -6..=6i64 {
        for b in -6..=6i64 {
            let small = rose_contains(a, b, 6);
            assert_eq!(rose_contains(a * 100, b * 100, 600), small);
            assert_eq!(rose_contains(a * 10922, b * 10922, 65532), small);
        }
    }
}

#[test]
fn rose_at_the_largest_denominator() {
    assert!(rose_contains(65534, 65534, 65534));
    assert!(rose_contains(65533, 1, 65534));
    assert!(!rose_contains(30000, 10000, 65534));
    assert!(rose_contains(65534, -65534, 65534));
    assert!(!rose_contains(40000, 40000, 65534));
    assert!(rose_contains(46340, 46340, 65534));
    assert!(!rose_contains(46339, 46339, 65534));
}

#[test]
fn wide_numbers_are_ordered_by_value() {
    let zero = Wide::zero();
    let one = Wide::from_u128(1);
    let big = Wide::from_u128(u128::MAX);
    assert!(zero.at_most(&zero));
    assert!(zero.at_most(&one));
    assert!(!one.at_most(&zero));
    assert!(one.at_most(&big));
    assert!(!big.at_most(&one));
    assert!(same(&zero, &Wide::from_u128(0)));
    assert!(same(&Wide::from_u128(1 << 64), &one.scaled(1, 1)));
    assert!(!same(&Wide::from_u128(1 << 64), &one));
    assert!(Wide::from_u128((1 << 64) - 1).at_most(&Wide::from_u128(1 << 64)));
    assert!(!Wide::from_u128(1 << 64).at_most(&Wide::from_u128((1 << 64) - 1)));
}

#[test]
fn wide_numbers_scale_and_add() {
    let x = Wide::from_u128(u64::MAX as u128);
    let square = (u64::MAX as u128) * (u64::MAX as u128);
    assert!(same(&x.times(u64::MAX), &Wide::from_u128(square)));
    assert!(same(&x.times(0), &Wide::zero()));
    assert!(same(&x.scaled(3, 0), &Wide::from_u128(3 * (u64::MAX as u128))));
    assert!(same(&Wide::from_u128(5).scaled(7, 1), &Wide::from_u128(35 << 64)));
    let sum = Wide::from_u128(u128::MAX).sum(&Wide::from_u128(1));
    assert!(same(&sum, &Wide::from_u128(1).scaled(1, 2)));
    assert!(same(
        &Wide::from_u128(1 << 100).sum(&Wide::from_u128(12345)),
        &Wide::from_u128((1 << 100) + 12345)
    ));
    assert!(same(&Wide::zero().sum(&Wide::zero()), &Wide::zero()));
}

#[test]
fn wide_numbers_multiply() {
    let a = Wide::from_u128(0x1234_5678_9abc_def0);
    let b = Wide::from_u128(0xfedc_ba98_7654);
    let expected = 0x1234_5678_9abc_def0u128 * 0xfedc_ba98_7654u128;
    assert!(same(&a.product(&b), &Wide::from_u128(expected)));
    assert!(same(&b.product(&a), &Wide::from_u128(expected)));
    assert!(same(&a.product(&Wide::zero()), &Wide::zero()));
    assert!(same(&a.product(&Wide::from_u128(1)), &a));
    // (2^128 - 1)^2 = 2^256 - 2^129 + 1
    let top = Wide::from_u128(u128::MAX);
    let square = top.product(&top);
    let two_to_256 = Wide::from_u128(1).scaled(1, 4);
    let rebuilt = square.sum(&Wide::from_u128(1).scaled(2, 2));
    assert!(same(&rebuilt, &two_to_256.sum(&Wide::from_u128(1))));
    assert!(square.at_most(&two_to_256));
    assert!(!two_to_256.at_most(&square));
}
