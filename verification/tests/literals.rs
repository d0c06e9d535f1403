//! Tests of the matrix-literal parser.

use mat_lib::entry::Entry;
use mat_lib::error::MatError;
use mat_lib::parse::mat_from_str;

fn ints(vals: &[i64]) -> Vec<Entry> {
    vals.iter().map(|&v| Entry::from_int(v)).collect()
}

#[test]
fn valid1() {
    let (data, rows, cols) = mat_from_str("1     2 3;4 5   6 ; 7  8 9", ";").unwrap();
    assert_eq!(ints(&[1, 2, 3, 4, 5, 6, 7, 8, 9]), data);
    assert_eq!(3, rows);
    assert_eq!(3, cols);
}

#[test]
fn valid2() {
    let (data, rows, cols) = mat_from_str("1    2,3 4,5  6", ",").unwrap();
    assert_eq!(ints(&[1, 2, 3, 4, 5, 6]), data);
    assert_eq!(3, rows);
    assert_eq!(2, cols);
}

#[test]
fn valid3() {
    let (data, rows, cols) = mat_from_str("1 2 3. 4 5 6", ".").unwrap();
    assert_eq!(ints(&[1, 2, 3, 4, 5, 6]), data);
    assert_eq!(2, rows);
    assert_eq!(3, cols);
}

#[test]
fn invalid() {
    assert!(mat_from_str("1 2 3; 4 5", ";").is_err());
    assert!(mat_from_str("1; 3 4; 5", ";").is_err());
    assert!(mat_from_str("1 2 3 4 5; a", ";").is_err());
    assert!(mat_from_str("1 2; b 4", ";").is_err());
    assert!(mat_from_str("", ".").is_err());
}

#[test]
fn error_causes() {
    assert_eq!(Err(MatError::InvalidSeparator), mat_from_str("1 2", "  \t"));
    assert_eq!(Err(MatError::InvalidSeparator), mat_from_str("1 2", ""));
    assert_eq!(Err(MatError::EmptyInput), mat_from_str("", ";"));
    assert_eq!(Err(MatError::InvalidToken), mat_from_str("1 x; 2 3", ";"));
    assert_eq!(Err(MatError::InvalidShape), mat_from_str("1 2; 3", ";"));
}

#[test]
fn decimal_tokens() {
    let (data, rows, cols) = mat_from_str("1.25 -0.5; 3. .75", ";").unwrap();
    assert_eq!(2, rows);
    assert_eq!(2, cols);
    assert_eq!(Entry::new(125, 100), data[0]);
    // Ratio equality, not representation equality: 1.25 == 5/4.
    assert_eq!(Entry::new(5, 4), data[0]);
    assert_eq!(Entry::new(-1, 2), data[1]);
    assert_eq!(Entry::from_int(3), data[2]);
    assert_eq!(Entry::new(3, 4), data[3]);
}

#[test]
fn oversized_tokens() {
    // A numerator or denominator that cannot be held exactly is a bad token.
    assert_eq!(
        Err(MatError::InvalidToken),
        mat_from_str("99999999999999999999", ";")
    );
    assert_eq!(
        Err(MatError::InvalidToken),
        mat_from_str("0.0000000000000000001", ";")
    );
    // Nineteen digits still fit when the value is small enough.
    let (data, _, _) = mat_from_str("0000000000000000001", ";").unwrap();
    assert_eq!(Entry::from_int(1), data[0]);
}

#[test]
fn numerator_boundaries() {
    let (data, _, _) = mat_from_str("9223372036854775807 -9223372036854775807", ";").unwrap();
    assert_eq!(Entry::from_int(i64::MAX), data[0]);
    assert_eq!(Entry::from_int(-i64::MAX), data[1]);
    assert_eq!(
        Err(MatError::InvalidToken),
        mat_from_str("9223372036854775808", ";")
    );
    assert_eq!(
        Err(MatError::InvalidToken),
        mat_from_str("-9223372036854775808", ";")
    );
}
