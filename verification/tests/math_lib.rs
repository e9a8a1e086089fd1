//! Unit tests for the integer math functions.

use com_croftsoft_core::math_lib::factor;
use com_croftsoft_core::math_lib::greatest_common_factor;
use com_croftsoft_core::math_lib::FactorError;
use com_croftsoft_core::math_lib::GreatestCommonFactorError;

#[test]
fn test_factor() {
    assert_eq!(factor(0).unwrap_err(), FactorError::ArgumentIsZeroOrOne(0));
    assert_eq!(factor(1).unwrap_err(), FactorError::ArgumentIsZeroOrOne(1));
    assert_eq!(factor(2).unwrap(), vec![2]);
    assert_eq!(factor(3).unwrap(), vec![3]);
    assert_eq!(factor(4).unwrap(), vec![2, 2]);
    assert_eq!(factor(5).unwrap(), vec![5]);
    assert_eq!(factor(6).unwrap(), vec![2, 3]);
    assert_eq!(factor(7).unwrap(), vec![7]);
    assert_eq!(factor(8).unwrap(), vec![2, 2, 2]);
    assert_eq!(factor(9).unwrap(), vec![3, 3]);
}

#[test]
fn test_factor_larger_composites() {
    assert_eq!(factor(360).unwrap(), vec![2, 2, 2, 3, 3, 5]);
    assert_eq!(factor(97).unwrap(), vec![97]);
}

#[test]
fn test_greatest_common_factor() {
    assert_eq!(
        greatest_common_factor(0, 1).unwrap_err(),
        GreatestCommonFactorError::ArgumentIsZero
    );
    assert_eq!(
        greatest_common_factor(2, 0).unwrap_err(),
        GreatestCommonFactorError::ArgumentIsZero
    );
    assert_eq!(greatest_common_factor(1, 2).unwrap(), 1);
    assert_eq!(greatest_common_factor(2, 3).unwrap(), 1);
    assert_eq!(greatest_common_factor(2, 4).unwrap(), 2);
    assert_eq!(greatest_common_factor(3, 6).unwrap(), 3);
    assert_eq!(greatest_common_factor(12, 18).unwrap(), 6);
}
