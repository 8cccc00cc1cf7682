use rusttracing::wide::{mul_wide, product_at_least};

#[test]
fn mul_wide_gives_both_halves_of_the_product() {
    assert_eq!(mul_wide(0, u128::MAX), (0, 0));
    assert_eq!(mul_wide(1, u128::MAX), (0, u128::MAX));
    assert_eq!(mul_wide(6, 7), (0, 42));
    // Two to the sixty-fourth, squared, is two to the hundred and twenty-eighth.
    assert_eq!(mul_wide(1 << 64, 1 << 64), (1, 0));
    assert_eq!(mul_wide(1 << 127, 2), (1, 0));
    assert_eq!(mul_wide(1 << 127, 6), (3, 0));
    // (2^128 - 1)^2 = (2^128 - 2) 2^128 + 1.
    assert_eq!(mul_wide(u128::MAX, u128::MAX), (u128::MAX - 1, 1));
    // (2^64 + 3) (2^64 + 5) = 2^128 + 8 2^64 + 15.
    assert_eq!(mul_wide((1 << 64) + 3, (1 << 64) + 5), (1, (8 << 64) + 15));
    let a: u128 = 0x1234_5678_9abc_def0_1122_3344_5566_7788;
    let b: u128 = 0x0fed_cba9_8765_4321_8877_6655_4433_2211;
    let high: u128 = 0x0121_fa00_ad77_d742_2cfc_0f67_02e3_0766;
    let low: u128 = 0xe67a_8979_b197_9207_0a3e_9633_37c6_0008;
    assert_eq!(mul_wide(a, b), (high, low));
    assert_eq!(mul_wide(b, a), (high, low));
}

#[test]
fn product_at_least_compares_exact_products() {
    assert!(product_at_least(0, 0, 0, 0));
    assert!(product_at_least(3, 4, 2, 6));
    assert!(!product_at_least(3, 4, 13, 1));
    assert!(product_at_least(u128::MAX, u128::MAX, u128::MAX, u128::MAX));
    assert!(product_at_least(u128::MAX, u128::MAX, u128::MAX, u128::MAX - 1));
    assert!(!product_at_least(u128::MAX, u128::MAX - 1, u128::MAX, u128::MAX));
    // Products that agree in their upper halves.
    assert!(product_at_least((1 << 64) + 1, 1 << 64, 1 << 64, 1 << 64));
    assert!(!product_at_least(1 << 64, 1 << 64, (1 << 64) + 1, 1 << 64));
    // Products that wrap to the same lower half.
    assert!(product_at_least(1 << 127, 4, 1 << 127, 2));
    assert!(!product_at_least(1 << 127, 2, 1 << 127, 4));
}
