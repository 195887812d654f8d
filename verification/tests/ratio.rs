use cipher_solver::ratio::Ratio;

fn fraction(num: u128, den: u128) -> Ratio {
    Ratio::new(num, den).unwrap()
}

#[test]
fn test_ratio_new() {
    assert!(Ratio::new(1, 0).is_none());
    assert!(Ratio::new(0, 0).is_none());
    assert!(Ratio::new(0, 5).unwrap().is_zero());
    assert!(!Ratio::new(1, 5).unwrap().is_zero());
    assert!(fraction(2, 4).equals(&fraction(1, 2)));
    assert!(Ratio::from_integer(3).equals(&fraction(6, 2)));
    assert!(fraction(u128::MAX, u128::MAX).equals(&Ratio::from_integer(1)));
}

#[test]
fn test_ratio_arithmetic() {
    assert!(fraction(1, 2).add(&fraction(1, 3)).equals(&fraction(5, 6)));
    assert!(fraction(1, 2).mul(&fraction(2, 3)).equals(&fraction(1, 3)));
    assert!(fraction(1, 2).abs_diff(&fraction(1, 3)).equals(&fraction(1, 6)));
    assert!(fraction(1, 3).abs_diff(&fraction(1, 2)).equals(&fraction(1, 6)));
    assert!(fraction(1, 3).abs_diff(&fraction(2, 6)).is_zero());
    assert!(fraction(1, 2)
        .div(&fraction(3, 4))
        .unwrap()
        .equals(&fraction(2, 3)));
    assert!(fraction(1, 2).div(&fraction(0, 4)).is_none());
    assert!(fraction(0, 2).div(&fraction(1, 4)).unwrap().is_zero());
}

#[test]
fn test_ratio_order() {
    assert!(fraction(1, 3).less_than(&fraction(1, 2)));
    assert!(!fraction(1, 2).less_than(&fraction(1, 3)));
    assert!(!fraction(1, 2).less_than(&fraction(2, 4)));
    assert!(!fraction(1, 2).equals(&fraction(1, 3)));
    assert!(fraction(1, 2).clone().equals(&fraction(1, 2)));
}

#[test]
fn test_ratio_large_values() {
    let big = fraction(u128::MAX, 1);
    let square = big.mul(&big);
    assert!(big.less_than(&square));
    assert!(square.div(&big).unwrap().equals(&big));
    assert!(square.add(&big).abs_diff(&square).equals(&big));
}
