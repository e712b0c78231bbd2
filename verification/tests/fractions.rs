use power_rankings::frac::mul_wide;
use power_rankings::frac::Frac;

#[test]
fn equal_values_with_different_shapes() {
    let half = Frac { num: 1, den: 2 };
    let two_quarters = Frac { num: 2, den: 4 };
    assert!(half.same(&two_quarters));
    assert!(half.le(&two_quarters));
    assert!(two_quarters.le(&half));
    assert_ne!(half, two_quarters);
}

#[test]
fn strict_ordering() {
    let third = Frac { num: 1, den: 3 };
    let half = Frac { num: 1, den: 2 };
    assert!(third.le(&half));
    assert!(!half.le(&third));
    assert!(!third.same(&half));
}

#[test]
fn comparison_survives_huge_components() {
    // cross products here overflow 128 bits, so the comparison must go
    // through the wide multiplication
    let a = Frac { num: u128::MAX, den: u128::MAX - 1 };
    let b = Frac { num: u128::MAX - 1, den: u128::MAX - 2 };
    // (M)/(M-1) vs (M-1)/(M-2): M*(M-2) = M^2-2M < (M-1)^2 = M^2-2M+1
    assert!(a.le(&b));
    assert!(!b.le(&a));
    assert!(!a.same(&b));
}

#[test]
fn wide_multiplication_splits_exactly() {
    assert_eq!(mul_wide(0, u128::MAX), (0, 0));
    assert_eq!(mul_wide(1, u128::MAX), (0, u128::MAX));
    assert_eq!(mul_wide(2, 1u128 << 127), (1, 0));
    assert_eq!(mul_wide(u128::MAX, u128::MAX), (u128::MAX - 1, 1));
    assert_eq!(mul_wide(123456789, 987654321), (0, 123456789u128 * 987654321u128));
}

#[test]
fn zero_scores_compare_equal() {
    let a = Frac { num: 0, den: 1 };
    let b = Frac { num: 0, den: 77 };
    assert!(a.same(&b));
}
