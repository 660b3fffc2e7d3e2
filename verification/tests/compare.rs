use dsntk_feel_number::{FeelNumber, NumberError};
use std::cmp::Ordering;

fn num(s: &str) -> FeelNumber {
    s.parse().unwrap()
}

fn nan() -> FeelNumber {
    FeelNumber::zero() / FeelNumber::zero()
}

#[test]
fn numbers_are_compared_as_numbers() {
    assert!(num("1.0") == num("1"));
    assert!(num("1E2") == num("100.00"));
    assert!(num("-1") != num("1"));
    assert!(num("1") < num("1.01"));
    assert!(num("-2") < num("-1"));
    assert!(num("1E6000") > num("9E5999"));
    assert!(num("2") <= num("2.0") && num("2") >= num("2.0"));
    assert!(FeelNumber::infinite() > num("9E6144"));
    assert!(-FeelNumber::infinite() < num("-9E6144"));
    assert!(FeelNumber::infinite() == FeelNumber::infinite());
}

#[test]
fn signed_zeros_are_equal() {
    assert!(num("-0") == num("0.00"));
    assert!(!(num("-0") < num("0")) && !(num("-0") > num("0")));
    assert!(num("-0") <= num("0") && num("-0") >= num("0"));
    assert_eq!(Some(Ordering::Equal), num("-0").partial_cmp(&num("0")));
}

#[test]
fn not_a_number_has_a_place() {
    assert!(nan() != nan());
    assert!(nan() > FeelNumber::infinite());
    assert!(-nan() < -FeelNumber::infinite());
    assert!(!(nan() < nan()) && nan() <= nan() && nan() >= nan());
    assert_eq!(Some(Ordering::Less), nan().partial_cmp(&nan()));
    assert_eq!(Some(Ordering::Greater), nan().partial_cmp(&num("1")));
}

#[test]
fn comparison_with_machine_integers() {
    assert!(num("5.0") == 5isize && 5isize == num("5.0"));
    assert!(num("5.1") > 5isize && 5isize < num("5.1"));
    assert!(num("-1E30") < isize::MIN && isize::MIN > num("-1E30"));
    assert_eq!(Some(Ordering::Less), 1isize.partial_cmp(&num("2")));
    assert_eq!(Some(Ordering::Equal), num("0").partial_cmp(&0isize));
}

#[test]
fn machine_integers_come_back() {
    assert_eq!("18446744073709551615", FeelNumber::from(u64::MAX).to_string());
    assert_eq!("-9223372036854775808", FeelNumber::from(i64::MIN).to_string());
    assert_eq!(Ok(u64::MAX), u64::try_from(FeelNumber::from(u64::MAX)).map_err(|_| ()));
    assert_eq!(Ok(i64::MIN), i64::try_from(FeelNumber::from(i64::MIN)).map_err(|_| ()));
    assert_eq!(Ok(200u8), u8::try_from(FeelNumber::from(200u8)).map_err(|_| ()));
    assert_eq!(Ok(-100i8), i8::try_from(&FeelNumber::from(-100i8)).map_err(|_| ()));
    assert_eq!(Ok(60000u16), u16::try_from(FeelNumber::from(60000u16)).map_err(|_| ()));
    assert_eq!(Ok(-30000i16), i16::try_from(FeelNumber::from(-30000i16)).map_err(|_| ()));
    assert_eq!(Ok(u32::MAX), u32::try_from(FeelNumber::from(u32::MAX)).map_err(|_| ()));
    assert_eq!(Ok(i32::MIN), i32::try_from(FeelNumber::from(i32::MIN)).map_err(|_| ()));
    assert_eq!(Ok(isize::MIN), isize::try_from(FeelNumber::from(isize::MIN)).map_err(|_| ()));
    assert_eq!(Ok(usize::MAX), usize::try_from(FeelNumber::from(usize::MAX)).map_err(|_| ()));
}

#[test]
fn conversion_truncates_and_refuses() {
    assert_eq!(Ok(0u8), u8::try_from(num("0.999")).map_err(|_| ()));
    assert_eq!(Ok(0u8), u8::try_from(num("-0.999")).map_err(|_| ()));
    assert_eq!(Ok(-12i32), i32::try_from(num("-12.75")).map_err(|_| ()));
    assert_eq!(Ok(1200i64), i64::try_from(num("12E2")).map_err(|_| ()));
    for n in [num("256"), num("-1"), num("1E6000"), FeelNumber::infinite(), nan()] {
        assert!(matches!(u8::try_from(n), Err(NumberError::NumberConversionFailed)));
    }
    assert!(u64::try_from(num("18446744073709551616")).is_err());
}
