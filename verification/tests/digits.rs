use dsntk_feel_number::{compare_to_half, increment};
use std::cmp::Ordering;

#[test]
fn discarded_digits_against_one_half() {
    assert_eq!(Ordering::Less, compare_to_half(""));
    assert_eq!(Ordering::Less, compare_to_half("0"));
    assert_eq!(Ordering::Less, compare_to_half("4999999"));
    assert_eq!(Ordering::Equal, compare_to_half("5"));
    assert_eq!(Ordering::Equal, compare_to_half("5000000"));
    assert_eq!(Ordering::Greater, compare_to_half("5000001"));
    assert_eq!(Ordering::Greater, compare_to_half("6"));
    assert_eq!(Ordering::Less, compare_to_half("05"));
}

#[test]
fn comparison_takes_any_text() {
    assert_eq!(Ordering::Greater, compare_to_half("a"));
    assert_eq!(Ordering::Greater, compare_to_half("5\u{e9}"));
    assert_eq!(Ordering::Greater, compare_to_half("\u{e9}"));
    assert_eq!(Ordering::Less, compare_to_half(" 9"));
}

#[test]
fn incrementing_digit_strings() {
    assert_eq!("1", increment(""));
    assert_eq!("1", increment("0"));
    assert_eq!("10", increment("9"));
    assert_eq!("1300", increment("1299"));
    assert_eq!("010", increment("009"));
    assert_eq!("1000", increment("999"));
    assert_eq!(
        "100000000000000000000000000000000000000000000000000000000000000000000000000000",
        increment("99999999999999999999999999999999999999999999999999999999999999999999999999999")
    );
}
