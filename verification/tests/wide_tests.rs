use ccf_core::wide::{Wide, LIMB};

fn wide(l0: u64, l1: u64, l2: u64, l3: u64) -> Wide {
    Wide { l0, l1, l2, l3 }
}

#[test]
fn product_exact_values() {
    assert_eq!(LIMB, 1u128 << 64);
    assert_eq!(Wide::product(0, u128::MAX), wide(0, 0, 0, 0));
    assert_eq!(Wide::product(3, 5), wide(15, 0, 0, 0));
    assert_eq!(Wide::product(1 << 64, 1 << 64), wide(0, 0, 1, 0));
    assert_eq!(Wide::product(1 << 127, 2), wide(0, 0, 1, 0));
    assert_eq!(Wide::product(1 << 127, 1 << 127), wide(0, 0, 0, 1 << 62));
    // (2^64 - 1)^2 = 2^128 - 2^65 + 1
    assert_eq!(Wide::product(u64::MAX as u128, u64::MAX as u128), wide(1, u64::MAX - 1, 0, 0));
    // (2^128 - 1)^2 = 2^256 - 2^129 + 1
    assert_eq!(Wide::product(u128::MAX, u128::MAX), wide(1, 0, u64::MAX - 1, u64::MAX));
    // where the product fits in 128 bits it is the product
    let (x, y) = (0x1234_5678_9abc_def0_u128, 0xfedc_ba98_7654_3210_u128);
    let p = x * y;
    assert_eq!(Wide::product(x, y), wide(p as u64, (p >> 64) as u64, 0, 0));
    assert_eq!(Wide::product(y, x), Wide::product(x, y));
}

#[test]
fn scaling_carries_across_limbs() {
    assert_eq!(wide(u64::MAX, 0, 0, 0).scaled(2), wide(u64::MAX - 1, 1, 0, 0));
    assert_eq!(wide(u64::MAX, u64::MAX, u64::MAX, 0).scaled(2), wide(u64::MAX - 1, u64::MAX, u64::MAX, 1));
    assert_eq!(wide(7, 8, 9, 10).scaled(0), wide(0, 0, 0, 0));
    assert_eq!(wide(7, 8, 9, 10).scaled(1), wide(7, 8, 9, 10));
    assert_eq!(wide(7, 8, 9, 10).scaled(3), wide(21, 24, 27, 30));
    // scaling a product is the product of the scaled factor
    let (x, y) = (0xffff_ffff_ffff_ffff_ffff_ffff_u128, 0xabcd_ef01_2345_6789_abcd_ef01_u128);
    assert_eq!(Wide::product(x, y).scaled(1_000_000), Wide::product(x, y * 1_000_000));
}

#[test]
fn comparison_goes_by_the_highest_limb_that_differs() {
    let a = wide(5, 5, 5, 5);
    assert!(a.at_most(&a));
    assert!(a.at_most(&wide(6, 5, 5, 5)));
    assert!(!wide(6, 5, 5, 5).at_most(&a));
    assert!(wide(u64::MAX, 4, 5, 5).at_most(&a));
    assert!(!a.at_most(&wide(u64::MAX, 4, 5, 5)));
    assert!(wide(u64::MAX, u64::MAX, 4, 5).at_most(&a));
    assert!(!a.at_most(&wide(u64::MAX, u64::MAX, 4, 5)));
    assert!(wide(u64::MAX, u64::MAX, u64::MAX, 4).at_most(&a));
    assert!(!a.at_most(&wide(0, 0, 0, 0)));
    assert!(wide(0, 0, 0, 0).at_most(&a));
    assert!(a.at_most(&wide(0, 0, 0, 6)));
}
