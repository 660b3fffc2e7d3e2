use dsntk_feel_number::arithmetic::settle_power;
use dsntk_feel_number::number::finite_only;
use dsntk_feel_number::rounding::norm;
use dsntk_feel_number::FeelNumber;

fn num(s: &str) -> FeelNumber {
    s.parse().unwrap()
}

fn pow_text(base: &str, exponent: &str) -> Option<String> {
    num(base).pow(&num(exponent)).map(|n| n.to_string())
}

#[test]
fn test_pow_001() {
    assert_eq!("1", num("0").pow(&num("0")).unwrap().to_string());
}

/// A fractional exponent goes through `exp` and `ln`, so that this pins their last
/// digit.
#[test]
fn test_pow_002() {
    assert_eq!(
        "41959.85737359436186095331070746801",
        num("12.2384283").pow(&num("4.25")).unwrap().to_string()
    );
}

#[test]
fn test_pow_003() {
    assert!(num("9999").pow(&num("9999")).is_none());
}

#[test]
fn power_of_zero_is_one_for_every_base() {
    for base in ["0", "-0", "1", "-7.5", "1E6000", "1E-6000"] {
        assert_eq!(Some("1".to_string()), pow_text(base, "0"));
        assert_eq!(Some("1".to_string()), pow_text(base, "-0.00"));
    }
    let nan = FeelNumber::zero() / FeelNumber::zero();
    assert_eq!("1", nan.pow(&FeelNumber::zero()).unwrap().to_string());
    let infinite = FeelNumber::infinite();
    assert_eq!("1", infinite.pow(&FeelNumber::zero()).unwrap().to_string());
}

#[test]
fn zero_base_follows_the_sign_of_the_exponent() {
    assert_eq!(Some("0".to_string()), pow_text("0", "3"));
    assert_eq!(Some("0".to_string()), pow_text("-0", "0.5"));
    assert_eq!(None, pow_text("0", "-1"));
}

#[test]
fn sign_of_a_power_is_the_parity_of_the_exponent() {
    assert_eq!(Some("8".to_string()), pow_text("2", "3"));
    assert_eq!(Some("-8".to_string()), pow_text("-2", "3"));
    assert_eq!(Some("16".to_string()), pow_text("-2", "4"));
    assert_eq!(Some("-0.125".to_string()), pow_text("-2", "-3"));
    assert_eq!(Some("1".to_string()), pow_text("-1", "2147483648"));
    assert_eq!(Some("-1".to_string()), pow_text("-1", "2147483649"));
}

#[test]
fn negative_base_needs_an_integer_exponent() {
    assert_eq!(None, pow_text("-10", "0.5"));
    assert_eq!(Some("-1000".to_string()), pow_text("-10", "3.0"));
    assert!(num("-10").pow(&FeelNumber::infinite()).is_none());
}

#[test]
fn powers_far_out_of_range_are_settled() {
    assert_eq!(None, pow_text("10", "39995"));
    assert_eq!(Some("0".to_string()), pow_text("10", "-39995"));
    assert_eq!(Some("-0".to_string()), pow_text("-10", "-39995"));
    assert_eq!(Some("-0".to_string()), pow_text("-10", "-6177"));
    assert_eq!(Some("0".to_string()), pow_text("-10", "-7000"));
    assert_eq!("1", num("1E6000").pow(&num("0.5")).map(|n| n / num("1E3000")).unwrap().to_string());
}

#[test]
fn powers_at_the_edge_of_the_range_are_computed() {
    assert!(num("9E6144").pow(&num("1")).unwrap() == num("9E6144"));
    assert!(num("3E3072").pow(&num("2")).unwrap() == num("9E6144"));
    assert!(num("1E3073").pow(&num("2")).is_none());
    assert!(num("1E-3088").pow(&num("2")).unwrap() == num("1E-6176"));
    assert_eq!("0", num("1E-3089").square().unwrap().to_string());
    assert!(num("14149").exp().unwrap() > num("5E6144"));
    assert!(num("14150").exp().is_none());
}

#[test]
fn one_to_any_power_is_one() {
    assert_eq!(Some("1".to_string()), pow_text("1", "1E6000"));
    assert_eq!(Some("1".to_string()), pow_text("1.000", "1E6000"));
    assert_eq!(Some("1".to_string()), pow_text("1.00", "-0.5"));
    assert_eq!(Some("1".to_string()), pow_text("-1", "1E30"));
    assert_eq!(Some("-1".to_string()), pow_text("-1.0", "1000000000000000000000000000000001"));
    let one = FeelNumber::one();
    assert_eq!("1", one.pow(&FeelNumber::infinite()).unwrap().to_string());
    assert_eq!("1", one.pow(&-FeelNumber::infinite()).unwrap().to_string());
}

#[test]
fn infinite_operands_settle_a_power() {
    let infinite = FeelNumber::infinite();
    let nan = FeelNumber::zero() / FeelNumber::zero();
    let pow = |a: &FeelNumber, b: &FeelNumber| a.pow(b).map(|n| n.to_string());
    assert_eq!(None, pow(&infinite, &num("2")));
    assert_eq!(Some("0".to_string()), pow(&infinite, &num("-0.5")));
    assert_eq!(Some("-0".to_string()), pow(&-infinite, &num("-3")));
    assert_eq!(Some("0".to_string()), pow(&-infinite, &num("-2")));
    assert_eq!(None, pow(&num("2"), &infinite));
    assert_eq!(Some("0".to_string()), pow(&num("2"), &-infinite));
    assert_eq!(Some("0".to_string()), pow(&num("0.5"), &infinite));
    assert_eq!(None, pow(&num("0.5"), &-infinite));
    assert_eq!(Some("0".to_string()), pow(&infinite, &-infinite));
    assert_eq!(None, pow(&nan, &num("2")));
    assert_eq!(None, pow(&num("2"), &nan));
    assert!(infinite.square().is_none());
    assert!(infinite.exp().is_none());
    assert_eq!("0", (-infinite).exp().unwrap().to_string());
    assert_eq!("1", num("0.00").exp().unwrap().to_string());
    assert!(nan.exp().is_none());
}

#[test]
fn squares() {
    assert!(num("1E40").trunc().square().unwrap() == num("1E80"));
    assert!(num("7E76").trunc().square().unwrap() == num("4.9E153"));
    assert_eq!("144", num("12").square().unwrap().to_string());
    assert_eq!("144", num("-12").square().unwrap().to_string());
    assert_eq!("0", num("0").square().unwrap().to_string());
    assert!(num("1E4000").square().is_none());
    assert_eq!("0", num("1E-4000").square().unwrap().to_string());
    assert_eq!("6.25", num("2.5").square().unwrap().to_string());
}

#[test]
fn exponentials() {
    assert_eq!("1", num("0").exp().unwrap().to_string());
    assert_eq!("2.718281828459045235360287471352662", num("1").exp().unwrap().to_string());
    assert!(num("1E6000").exp().is_none());
    assert_eq!("0", num("-1E6000").exp().unwrap().to_string());
    let nan = FeelNumber::zero() / FeelNumber::zero();
    assert!(nan.exp().is_none());
}

#[test]
fn power_is_settled_from_its_size() {
    let size = num("8").parts();
    let settle = |base: &str, exponent: &str| {
        let r = settle_power(num(base).parts(), num(exponent).parts(), size);
        finite_only(norm(r)).map(|n| n.to_string())
    };
    assert_eq!(Some("8".to_string()), settle("2", "3"));
    assert_eq!(Some("-8".to_string()), settle("-2", "3"));
    assert_eq!(Some("8".to_string()), settle("-2", "4"));
    assert_eq!(None, settle("-2", "3.5"));
    assert_eq!(Some("1".to_string()), settle("-2", "0"));
    assert_eq!(None, settle("0", "-3"));
}

#[test]
fn powers_of_bases_near_one() {
    // The digits of a base near one decide, not its leading ones alone.
    let above = num("1.000000000000000000000000000000001");
    let below = num("0.9999999999999999999999999999999999");
    assert!(above.pow(&num("1E37")).unwrap() > num("1E4342"));
    assert!(above.pow(&num("1E37")).unwrap() < num("1E4343"));
    assert!(above.pow(&num("1E38")).is_none());
    assert_eq!("0", above.pow(&num("-1E38")).unwrap().to_string());
    assert!(below.pow(&num("-1E38")).unwrap() > num("1E4342"));
    assert_eq!("0", below.pow(&num("1E6000")).unwrap().to_string());
    assert!(below.pow(&num("-1E6000")).is_none());
    assert!(num("1.5").pow(&num("34000")).unwrap() > num("1E5987"));
    assert!(num("1.5").pow(&num("40000")).is_none());
    assert_eq!("0", num("0.5").pow(&num("20590")).unwrap().to_string());
    assert!(num("0.5").pow(&num("20000")).unwrap() > num("1E-6021"));
    assert!(num("2").pow(&num("20000")).unwrap() < num("1E6021"));
    assert!(num("2").pow(&num("20590")).is_none());
    assert!(num("1E6144").pow(&num("1E-6000")).unwrap() == num("1"));
    assert!(num("1E6144").pow(&num("1E6000")).is_none());
}

#[test]
fn one_keeps_its_zeros_in_a_natural_power() {
    assert_eq!("+1000000E-6", FeelNumber::new(1000, 3).square().unwrap().debug_string());
    assert_eq!("1.000000", FeelNumber::new(1000, 3).square().unwrap().abs().to_string());
    assert_eq!("-1000E-3", num("-1.0").pow(&num("3.00")).unwrap().debug_string());
    assert_eq!(
        "+1000000000000000000000000000000000E-33",
        num("1.0000").pow(&num("100")).unwrap().debug_string()
    );
    assert_eq!("+1E+0", num("1.0000").pow(&num("-2")).unwrap().debug_string());
    assert_eq!("+1E+0", num("1").pow(&num("2147483647")).unwrap().debug_string());
}
