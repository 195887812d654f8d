use cipher_solver::natural::Natural;

fn n(x: u128) -> Natural {
    Natural::from_u128(x)
}

#[test]
fn test_natural_small_values() {
    assert!(Natural::zero().is_zero());
    assert!(n(0).is_zero());
    assert!(!n(1).is_zero());
    assert!(n(5).add(&n(7)).equals(&n(12)));
    assert!(n(5).mul(&n(7)).equals(&n(35)));
    assert!(n(5).mul_small(7).equals(&n(35)));
    assert!(n(5).abs_diff(&n(7)).equals(&n(2)));
    assert!(n(7).abs_diff(&n(5)).equals(&n(2)));
    assert!(n(7).abs_diff(&n(7)).is_zero());
    assert!(n(5).less_than(&n(7)));
    assert!(!n(7).less_than(&n(5)));
    assert!(!n(7).less_than(&n(7)));
    assert!(!n(5).equals(&n(7)));
    assert!(n(5).mul(&n(0)).is_zero());
    assert!(n(0).mul(&n(5)).is_zero());
    assert!(n(9).clone().equals(&n(9)));
}

#[test]
fn test_natural_carries() {
    let limb = u64::MAX as u128;
    assert!(n(limb).add(&n(1)).equals(&n(limb + 1)));
    assert!(n(limb + 1).abs_diff(&n(1)).equals(&n(limb)));
    assert!(n(limb).mul_small(u64::MAX).equals(&n(limb * limb)));
    assert!(n(limb).mul(&n(limb)).equals(&n(limb * limb)));
    assert!(n(1 << 64).less_than(&n(1 << 65)));
    assert!(n(u64::MAX as u128).less_than(&n(1 << 64)));
    assert!(n(u128::MAX - 1).add(&n(1)).equals(&n(u128::MAX)));
}

#[test]
fn test_natural_beyond_128_bits() {
    let max = n(u128::MAX);
    let sum = max.add(&n(1)); // 2^128
    assert!(max.less_than(&sum));
    assert!(sum.abs_diff(&max).equals(&n(1)));
    assert!(max.abs_diff(&sum).equals(&n(1)));
    // (2^128 - 1)^2 = 2^256 - 2^129 + 1
    let square = max.mul(&max);
    let two_256 = sum.mul(&sum);
    let two_129 = sum.mul_small(2);
    assert!(square.add(&two_129).equals(&two_256.add(&n(1))));
    assert!(two_256.abs_diff(&square).equals(&two_129.abs_diff(&n(1))));
    // 2^128 * 3 = 2^128 + 2^128 + 2^128
    assert!(sum.mul_small(3).equals(&sum.add(&sum).add(&sum)));
    assert!(sum.mul(&n(3)).equals(&n(3).mul(&sum)));
}
