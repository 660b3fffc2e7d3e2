use dsntk_feel_number::{FeelNumber, NumberError};

fn num(s: &str) -> FeelNumber {
    s.parse().unwrap()
}

fn text(r: Result<FeelNumber, NumberError>) -> String {
    r.unwrap().to_string()
}

fn refusal(r: Result<FeelNumber, NumberError>) -> (i32, i32, i32) {
    match r {
        Err(NumberError::InvalidScale { min, max, actual }) => (min, max, actual),
        _ => panic!("not refused"),
    }
}

#[test]
fn ceilings() {
    assert_eq!("2", text(num("1.5").ceiling(0)));
    assert_eq!("-1", text(num("-1.5").ceiling(0)));
    assert_eq!("0", text(num("-0.3333").ceiling(0)));
    assert_eq!("7", text(num("7").ceiling(0)));
    assert_eq!("1.57", text(num("1.567").ceiling(2)));
    assert_eq!("1600", text(num("1567").ceiling(-2)));
}

#[test]
fn floors() {
    assert_eq!("1", text(num("1.5").floor(0)));
    assert_eq!("-2", text(num("-1.5").floor(0)));
    assert_eq!("1.56", text(num("1.567").floor(2)));
    assert_eq!("-1.57", text(num("-1.567").floor(2)));
    assert_eq!("1500", text(num("1567").floor(-2)));
}

#[test]
fn rounding_down_and_up() {
    assert_eq!("5", text(num("5.5").round_down(0)));
    assert_eq!("-5", text(num("-5.5").round_down(0)));
    assert_eq!("1.12", text(num("1.126").round_down(2)));
    assert_eq!("6", text(num("5.5").round_up(0)));
    assert_eq!("-6", text(num("-5.5").round_up(0)));
    assert_eq!("1.13", text(num("1.121").round_up(2)));
    assert_eq!("-1.13", text(num("-1.126").round_up(2)));
}

#[test]
fn rounding_half_up_and_down() {
    assert_eq!("6", text(num("5.5").round_half_up(0)));
    assert_eq!("-6", text(num("-5.5").round_half_up(0)));
    assert_eq!("5", text(num("5.4").round_half_up(0)));
    assert_eq!("1.13", text(num("1.125").round_half_up(2)));
    assert_eq!("5", text(num("5.5").round_half_down(0)));
    assert_eq!("-5", text(num("-5.5").round_half_down(0)));
    assert_eq!("6", text(num("5.6").round_half_down(0)));
    assert_eq!("1.12", text(num("1.125").round_half_down(2)));
}

#[test]
fn one_unit_of_the_last_place() {
    assert_eq!("0.1", text(num("0.05").ceiling(1)));
    assert_eq!("-0.1", text(num("-0.05").floor(1)));
    assert_eq!("0", text(num("0.05").floor(1)));
    assert_eq!("0", text(num("-0.05").ceiling(1)));
    assert!(FeelNumber::new(-15, 2).ceiling(1).unwrap() == FeelNumber::new(-1, 1));
    assert!(FeelNumber::new(15, 2).floor(1).unwrap() == FeelNumber::new(1, 1));
    assert_eq!("100", text(num("1").ceiling(-2)));
    assert_eq!("-100", text(num("-1").floor(-2)));
}

#[test]
fn one_unit_becomes_one_when_rounded() {
    assert_eq!("1", text(num("0.1").round_down(1)));
    assert_eq!("1", text(num("0.15").round_down(1)));
    assert_eq!("-1", text(num("-0.19").round_down(1)));
    assert_eq!("0.2", text(num("0.29").round_down(1)));
    assert_eq!("1", text(num("0.01").round_up(1)));
    assert_eq!("1", text(num("50").round_up(-2)));
    assert_eq!("-200", text(num("-101").round_up(-2)));
    assert_eq!("1", text(num("0.014").round_half_up(2)));
    assert_eq!("0.02", text(num("0.015").round_half_up(2)));
    assert_eq!("-1", text(num("-0.015").round_half_down(2)));
    assert_eq!("-1", text(num("-199").round_down(-2)));
    assert_eq!("0", text(num("0.09").round_down(1)));
}

#[test]
fn scale_out_of_range_is_refused() {
    assert_eq!((-6111, 6144, 6145), refusal(num("1").ceiling(6145)));
    assert_eq!((-6111, 6144, -6112), refusal(num("1").floor(-6112)));
    assert_eq!((-6111, 6144, i32::MIN + 1), refusal(num("0").ceiling(1)));
    assert_eq!((-6111, 6144, i32::MIN), refusal(num("0").round_up(-1)));
    assert_eq!((-6111, 6144, i32::MIN + 2), refusal(FeelNumber::infinite().round_half_up(2)));
    assert_eq!((-6111, 6144, i32::MAX), refusal(num("10").round_down(i32::MAX)));
    assert_eq!((-6111, 6144, i32::MIN), refusal(num("1").round_half_down(i32::MIN)));
    assert_eq!("0", text(num("0").ceiling(0)));
}

#[test]
fn far_scales_keep_the_number() {
    assert_eq!("+1E-6176", num("1E-6176").ceiling(6200).unwrap().debug_string());
    assert!(num("5E-6170").round_down(6200).unwrap() == num("5E-6170"));
    assert_eq!("0", text(num("0").floor(i32::MAX)));
}

#[test]
fn rounding_half_even_at_a_scale() {
    assert_eq!("2", num("2.5").round(&num("0")).to_string());
    assert_eq!("4", num("3.5").round(&num("0")).to_string());
    assert_eq!("3", num("2.5000001").round(&num("0")).to_string());
    assert_eq!("1", num("0.5000001").round(&num("0")).to_string());
    assert_eq!("0.50", num("0.5").round(&num("2")).to_string());
    assert_eq!("-1.12", num("-1.125").round(&num("2.9")).to_string());
    assert_eq!("1200", num("1234").round(&num("-2")).to_string());
    assert_eq!("00000", num("1234").round(&num("-4")).to_string());
    assert_eq!("10", num("9.9").round(&num("0")).to_string());
    // A scale that does not fit counts as none.
    assert_eq!("3", num("2.7").round(&num("3000000000")).to_string());
    assert_eq!("Infinity", FeelNumber::infinite().round(&num("2")).to_string());
    assert_eq!("+0E+32768", num("5").round(&num("-40000")).debug_string());
}

#[test]
fn truncation_and_fraction() {
    assert_eq!("12", num("12.75").trunc().to_string());
    assert_eq!("-12", num("-12.75").trunc().to_string());
    assert_eq!("0.75", num("12.75").frac().to_string());
    assert_eq!("-0.75", num("-12.75").frac().to_string());
    assert!(num("12.75").trunc() + num("12.75").frac() == num("12.75"));
    assert_eq!("+100E+0", num("1E2").trunc().debug_string());
    assert_eq!("Infinity", FeelNumber::infinite().trunc().to_string());
}

#[test]
fn integers() {
    assert!(num("5.00").is_integer());
    assert!(num("1E10").is_integer());
    assert!(!num("5.01").is_integer());
    assert!(FeelNumber::infinite().is_integer());
    let nan = FeelNumber::zero() / FeelNumber::zero();
    assert!(!nan.is_integer());
}

#[test]
fn parity() {
    assert!(num("20000000000000000000000000000000050").even());
    assert!(!num("20000000000000000000000000000000050").odd());
    assert!(num("4.0").even() && !num("4.0").odd());
    assert!(num("-3").odd() && !num("-3").even());
    assert!(num("1E1").even());
    assert!(num("0").even() && !num("0").odd());
    assert!(!num("2.5").even() && !num("2.5").odd());
    assert!(!FeelNumber::infinite().even() && FeelNumber::infinite().odd());
}
