use dsntk_feel_number::{FeelNumber, NumberError};

fn num(s: &str) -> FeelNumber {
    s.parse().unwrap()
}

fn refused(s: &str) -> bool {
    match s.parse::<FeelNumber>() {
        Err(NumberError::InvalidNumberLiteral(text)) => text == s,
        _ => false,
    }
}

#[test]
fn literals_are_written_as_typed() {
    for text in ["0", "1", "50.50", "-0.010", "-0", "0.00", "12345678901234567890.1234"] {
        assert_eq!(text, num(text).to_string());
        assert_eq!(text, num(text).jsonify());
    }
    assert_eq!("1200", num("12E2").to_string());
    assert_eq!("0.0012", num("12e-4").to_string());
    assert_eq!("0.5", num(".5").to_string());
    assert_eq!("49.0", FeelNumber::new(490, 1).to_string());
    assert_eq!("-4900", FeelNumber::new(-49, -2).to_string());
}

#[test]
fn computed_results_are_written_trimmed() {
    assert_eq!("2", (num("1.50") + num("0.50")).to_string());
    assert_eq!("2.25", (num("1.50") * num("1.50")).to_string());
    assert_eq!("0.001", (num("0.0010") + num("0")).to_string());
    assert_eq!("0.0", (num("1.25") - num("1.25")).to_string());
    assert_eq!("100", (num("99") + num("1")).to_string());
}

#[test]
fn precision_cuts_and_pads() {
    assert_eq!("3.14", num("3.14159").to_text(Some(2)));
    assert_eq!("3.1415900", num("3.14159").to_text(Some(7)));
    assert_eq!("3", num("3.14159").to_text(Some(0)));
    assert_eq!("5.00", num("5").to_text(Some(2)));
    assert_eq!("-5.0", num("-5").to_text(Some(1)));
    assert_eq!("5.0", num("-5").unsigned_string(Some(1)));
}

#[test]
fn values_that_are_not_finite() {
    let nan = FeelNumber::zero() / FeelNumber::zero();
    assert_eq!("Infinity", FeelNumber::infinite().to_string());
    assert_eq!("-Infinity", (-FeelNumber::infinite()).to_string());
    assert_eq!("NaN", nan.to_string());
    assert_eq!("NaN", (-nan).to_string());
    assert_eq!("Inf", FeelNumber::infinite().to_text(Some(3)));
    assert_eq!("-In", (-FeelNumber::infinite()).to_text(Some(3)));
    assert_eq!("Inf", (-FeelNumber::infinite()).unsigned_string(Some(3)));
    assert_eq!("", FeelNumber::infinite().to_text(Some(0)));
    assert_eq!("-Infinity", (-FeelNumber::infinite()).to_text(Some(20)));
    assert_eq!("Na", nan.to_text(Some(2)));
    assert_eq!("+Inf", FeelNumber::infinite().debug_string());
    assert_eq!("-Inf", (-FeelNumber::infinite()).debug_string());
    assert_eq!("+NaN", nan.debug_string());
    assert_eq!("-NaN", (-nan).debug_string());
}

#[test]
fn canonical_form() {
    assert_eq!("+49E+0", FeelNumber::new(49, 0).debug_string());
    assert_eq!("-490E-1", FeelNumber::new(-490, 1).debug_string());
    assert_eq!("+1E+3", num("1E3").debug_string());
    assert_eq!("-0E-2", num("-0.00").debug_string());
    assert_eq!("+1000000000000000000000000000000000E+6111", num("1E6144").debug_string());
}

#[test]
fn only_spaces_and_tabs_may_stand_in_front() {
    assert_eq!("1", num(" \t 1").to_string());
    for text in ["\n1", "\r1", "\u{b}1", "\u{c}1", "1 ", "", " ", "x", "1.2.3", "--1", "1E", "E5"] {
        assert!(refused(text), "{}", text);
    }
    for text in ["NaN", "inf", "-Infinity"] {
        assert!(refused(text), "{}", text);
    }
}

#[test]
fn range_is_tested_in_the_format() {
    assert_eq!("+1E+6111", num("1E6111").debug_string());
    assert!(refused("1E6145"));
    assert!(refused("9.9999999999999999999999999999999999E6144"));
    assert_eq!("+0E+0", num("1E-6177").debug_string());
    assert_eq!("+1E-6176", num("1E-6176").debug_string());
    assert!(refused("1E40000"));
    assert!(refused("0.5E-2147483648"));
    assert_eq!("0", num("5E-2147483648").to_string());
    assert!(refused("5E-2147483649"));
    assert!(refused("1234567890123456789012345678901234567890E32765"));
}

#[test]
fn literals_are_rounded_half_to_even_at_34_digits() {
    assert_eq!(
        "1.234567890123456789012345678901234",
        num("1.2345678901234567890123456789012345").to_string()
    );
    assert_eq!(
        "1.234567890123456789012345678901236",
        num("1.2345678901234567890123456789012355").to_string()
    );
    assert_eq!(
        "1.234567890123456789012345678901235",
        num("1.23456789012345678901234567890123450000001").to_string()
    );
    assert_eq!(
        "+1000000000000000000000000000000000E-32",
        num("9.9999999999999999999999999999999999").debug_string()
    );
}

#[test]
fn text_is_read_back() {
    for text in ["-12.340", "0.0000001", "340282366920938463463374607431768211455"] {
        let n = num(text);
        assert!(num(&n.to_string()) == n);
        let computed = n + num("0");
        assert!(num(&computed.to_string()) == n);
    }
    // Text of more digits than a coefficient has is refused.
    assert!(refused(&num("1E100").to_string()));
}

#[test]
fn literals_in_every_form() {
    for (text, expected) in [
        ("+5", "5"),
        ("+0.50", "0.50"),
        ("1e5", "100000"),
        ("1E+5", "100000"),
        ("1e05", "100000"),
        ("1E-0", "1"),
        ("12.", "12"),
        ("12.E1", "120"),
        ("-.5e1", "-5"),
        ("007", "7"),
        ("1_000", "1000"),
        ("_1.0_5_", "1.05"),
    ] {
        assert_eq!(expected, num(text).to_string(), "{}", text);
    }
    for text in [
        "+", "-", ".", "_", "-.", "E", "1E+", "1e", "1e-", "+-1", "1E5.0", "1E1_0", "1,5", "0x10", "1E 5", "e1",
        "1E2147483648", "infinity", "+inf", "nan", "\u{663}",
    ] {
        assert!(refused(text), "{}", text);
    }
}

#[test]
fn digits_beyond_256_bits_are_refused() {
    let largest = "115792089237316195423570985008687907853269984665640564039457584007913129639935";
    let beyond = "115792089237316195423570985008687907853269984665640564039457584007913129639936";
    assert!(num(largest) == num("1.157920892373161954235709850086879E77"));
    assert!(refused(beyond));
    assert!(refused(&format!("{}E-70", beyond)));
    assert!(num(&format!("000{}E-70", largest)) == num("11579208.92373161954235709850086879"));
    let written = num("1E77").to_string();
    assert!(num(&written) == num("1E77"));
    assert!(refused(&num("1E78").to_string()));
}
