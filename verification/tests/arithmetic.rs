use dsntk_feel_number::FeelNumber;

fn num(s: &str) -> FeelNumber {
    s.parse().unwrap()
}

fn nan() -> FeelNumber {
    FeelNumber::zero() / FeelNumber::zero()
}

#[test]
fn constants() {
    assert_eq!("0", FeelNumber::zero().to_string());
    assert_eq!("1", FeelNumber::one().to_string());
    assert_eq!("2", FeelNumber::two().to_string());
    assert_eq!("1000000000", FeelNumber::billion().to_string());
    assert_eq!("Infinity", FeelNumber::infinite().to_string());
}

#[test]
fn sums_and_differences() {
    assert_eq!("0.3", (num("0.1") + num("0.2")).to_string());
    assert_eq!("-0.1", (num("0.1") - num("0.2")).to_string());
    assert_eq!("+30E-2", (num("0.10") + num("0.2")).debug_string());
    assert_eq!("+0E-1", (num("0.2") - num("0.2")).debug_string());
    assert_eq!("+0E-1", (num("-0.2") + num("0.2")).debug_string());
    assert_eq!("Infinity", (FeelNumber::infinite() + num("1")).to_string());
    assert_eq!("NaN", (FeelNumber::infinite() - FeelNumber::infinite()).to_string());
    assert_eq!("NaN", (nan() + num("1")).to_string());
    assert_eq!(
        "+1000000000000000000000000000000000E+1",
        (num("9999999999999999999999999999999999") + num("5")).debug_string()
    );
    assert_eq!("1", (num("1") + num("1E-6000")).to_string());
}

#[test]
fn sum_is_rounded_once() {
    // The digits past the 34th are 50...01, so that rounding twice would give a tie.
    assert_eq!(
        "1.000000000000000000000000000000001",
        (num("1") + num("0.00000000000000000000000000000000050000000000000001")).to_string()
    );
    assert_eq!(
        "1",
        (num("1") + num("0.0000000000000000000000000000000005")).to_string()
    );
}

#[test]
fn products() {
    assert_eq!("0.02", (num("0.1") * num("0.2")).to_string());
    assert_eq!("-6", (num("2") * num("-3")).to_string());
    assert_eq!("-0", (num("0") * num("-3")).to_string());
    assert_eq!("NaN", (FeelNumber::infinite() * num("0")).to_string());
    assert_eq!("-Infinity", (FeelNumber::infinite() * num("-2")).to_string());
    assert_eq!("Infinity", (num("1E4000") * num("1E4000")).to_string());
    assert_eq!("+0E+0", (num("1E-6000") * num("-1E-6000")).debug_string());
    assert_eq!(
        "+9999999999999999999999999999999998E+34",
        (num("9999999999999999999999999999999999") * num("9999999999999999999999999999999999"))
            .debug_string()
    );
}

#[test]
fn quotients() {
    assert_eq!("0.3333333333333333333333333333333333", (num("1") / num("3")).to_string());
    assert_eq!("0.6666666666666666666666666666666667", (num("2") / num("3")).to_string());
    assert_eq!("0.0625", (num("1") / num("16")).to_string());
    assert_eq!("7", (num("7") / num("1")).to_string());
    assert_eq!("3", (num("6") / num("2")).to_string());
    assert_eq!("NaN", (num("0") / num("-0.0")).to_string());
    assert_eq!("Infinity", (num("5") / num("0")).to_string());
    assert_eq!("-Infinity", (num("-5") / num("0")).to_string());
    assert_eq!("0", (num("5") / FeelNumber::infinite()).to_string());
    assert_eq!("NaN", (FeelNumber::infinite() / FeelNumber::infinite()).to_string());
}

#[test]
fn remainders_are_floored() {
    assert_eq!("3", (num("-12") % num("5")).to_string());
    assert_eq!("2", (num("12") % num("5")).to_string());
    assert_eq!("-3", (num("12") % num("-5")).to_string());
    assert_eq!("-2", (num("-12") % num("-5")).to_string());
    assert_eq!("0", (num("15") % num("5")).to_string());
    assert_eq!("0.1", (num("1.6") % num("0.5")).to_string());
    assert_eq!("NaN", (num("1") % num("-0")).to_string());
    assert_eq!("-Infinity", (num("1E6000") % num("1E-6000")).to_string());
}

#[test]
fn assigning_operators() {
    let mut n = num("10");
    n += num("5");
    assert_eq!("15", n.to_string());
    n -= num("1");
    assert_eq!("14", n.to_string());
    n *= num("0.50");
    assert_eq!("7", n.to_string());
    n /= num("2");
    assert_eq!("3.5", n.to_string());
    n %= num("2");
    assert_eq!("1.5", n.to_string());
}

#[test]
fn signs() {
    assert_eq!("-5", (-num("5")).to_string());
    assert_eq!("5", (-(-num("5"))).to_string());
    assert_eq!("-0", (-num("0")).to_string());
    assert_eq!("5.00", num("-5.00").abs().to_string());
    assert_eq!("5.00", num("-5.00").abs().abs().to_string());
    assert_eq!("Infinity", (-FeelNumber::infinite()).abs().to_string());
    assert!(num("-1").is_negative() && !num("-1").is_positive());
    assert!(num("1").is_positive() && !num("1").is_negative());
    assert!(!num("-0").is_negative() && !num("-0").is_positive() && num("-0").is_zero());
    assert!(num("1.000").is_one() && !num("1.001").is_one());
}

#[test]
fn roots() {
    assert_eq!("2", num("4").sqrt().unwrap().to_string());
    assert_eq!("1.414213562373095048801688724209698", num("2").sqrt().unwrap().to_string());
    assert_eq!("0", num("0").sqrt().unwrap().to_string());
    assert_eq!("1", (num("1E600").sqrt().unwrap() / num("1E300")).to_string());
    assert_eq!("+1E-3088", num("1E-6176").sqrt().unwrap().debug_string());
    assert!(num("-4").sqrt().is_none());
    assert!(FeelNumber::infinite().sqrt().is_none());
    assert!(nan().sqrt().is_none());
}

#[test]
fn logarithms() {
    assert_eq!("0", num("1").ln().unwrap().to_string());
    assert_eq!("0.6931471805599453094172321214581766", num("2").ln().unwrap().to_string());
    assert_eq!("2.302585092994045684017991454684364", num("10").ln().unwrap().to_string());
    assert!(num("0").ln().is_none());
    assert!(num("-1").ln().is_none());
    assert!(nan().ln().is_none());
}

#[test]
fn numbers_from_an_integer_and_a_scale() {
    assert_eq!("0.123", FeelNumber::new(123, 3).to_string());
    assert_eq!("-9223372036854775808", FeelNumber::new(i64::MIN, 0).to_string());
    assert_eq!("Infinity", FeelNumber::new(1, -7000).to_string());
    assert_eq!("NaN", FeelNumber::new(1, -40000).to_string());
    assert_eq!("+0E+0", FeelNumber::new(1, 40000).debug_string());
    assert_eq!("+0E-32767", FeelNumber::new(0, 40000).debug_string());
}

/// The quotient of two integers to 34 digits, half to even, by long division.
fn long_division(c: u128, d: u128) -> String {
    let mut digits = (c / d).to_string();
    if digits == "0" {
        digits.clear();
    }
    let mut rest = c % d;
    let mut places = 0;
    while digits.len() < 34 && rest > 0 {
        rest *= 10;
        places += 1;
        let digit = rest / d;
        rest %= d;
        if digit > 0 || !digits.is_empty() {
            digits.push_str(&digit.to_string());
        }
    }
    let mut q: u128 = digits.parse().unwrap();
    if 2 * rest > d || (2 * rest == d && q % 2 == 1) {
        q += 1;
    }
    format!("{}E-{}", q, places)
}

#[test]
fn quotients_are_rounded_once() {
    let mut seed: u128 = 12345;
    let mut next = |bound: u128| {
        seed = (seed * 6364136223846793005 + 1442695040888963407) % (1 << 64);
        seed % bound + 1
    };
    for i in 0..2000u32 {
        let c = next(10u128.pow(1 + i % 16));
        let d = next(10u128.pow(1 + i / 16 % 16));
        let quotient = num(&c.to_string()) / num(&d.to_string());
        assert!(quotient == num(&long_division(c, d)), "{} / {}", c, d);
        let negative = num(&c.to_string()) / -num(&d.to_string());
        assert!(negative == -quotient, "{} / -{}", c, d);
    }
    // Ends one digit past the 34th, half way between two neighbours.
    assert_eq!(
        "1500000000000000000000000000000000",
        (num("3000000000000000000000000000000001") / num("2")).to_string()
    );
    assert_eq!(
        "5000000000000000000000000000000000",
        (num("9999999999999999999999999999999999") / num("2")).to_string()
    );
    assert_eq!(
        "0.9999999999999999999999999999999999",
        (num("9999999999999999999999999999999998") / num("9999999999999999999999999999999999")).to_string()
    );
}

#[test]
fn integer_remainders_are_floored() {
    let mut seed: i64 = 7;
    let mut next = |bound: i64| {
        seed = seed.wrapping_mul(6364136223846793005).wrapping_add(1442695040888963407);
        (seed >> 3) % bound
    };
    for i in 0..2000u32 {
        let a = next(10i64.pow(1 + i % 16));
        let b = next(10i64.pow(1 + i / 16 % 16));
        if b == 0 {
            continue;
        }
        let floored = a.rem_euclid(b.abs());
        let expected = if b > 0 || floored == 0 { floored } else { floored + b };
        assert!(FeelNumber::from(a) % FeelNumber::from(b) == FeelNumber::from(expected), "{} % {}", a, b);
    }
}

#[test]
fn remainders_are_floored_at_every_scale() {
    assert!(num("13.0") % num("7") == num("6"));
    assert!(num("13.000000000000000000000000000000") % num("7.00") == num("6"));
    assert!(num("-12.000") % num("5") == num("3"));
    assert!(num("12") % num("-5.0") == num("-3"));
    assert!(num("7E1") % num("7") == num("0"));
    assert!(num("7E10") % num("3.0") == num("1"));
    assert!(num("5.5") % num("2") == num("1.5"));
    assert!(num("-5.5") % num("2.00") == num("0.5"));
    assert!(num("0.3") % num("0.1") == num("0"));
    assert!(num("0.35") % num("-0.1") == num("-0.05"));
    assert!(num("13E6000") % num("7E6000") == num("6E6000"));
    assert!(num("13E-6000") % num("7E-6000") == num("6E-6000"));
    assert!(num("0.00") % num("-7") == num("0"));
}

#[test]
fn sums_far_apart_keep_the_larger_operand() {
    assert!(num("1E6000") + num("1") == num("1E6000"));
    assert!(num("1") + num("1E6000") == num("1E6000"));
    assert!(num("1E6000") - num("1") == num("1E6000"));
    assert!(num("1") - num("1E6000") == num("-1E6000"));
    assert!(num("-1E100") - num("1E-100") == num("-1E100"));
    assert!(num("1E33") - num("1E-50") == num("1E33"));
    assert!(num("9.999999999999999999999999999999999E80") + num("9999999999999999999999999999999999")
        == num("9.999999999999999999999999999999999E80"));
    assert!(num("1E40").trunc() + num("1E6000") == num("1E6000"));
    assert!(num("1E6000") - num("1E40").trunc() == num("1E6000"));
}

#[test]
fn wide_sums_lose_zeros_only() {
    let wide = num("9E76").trunc();
    assert!(wide + wide == num("1.8E77"));
    assert!((-wide) - wide == num("-1.8E77"));
    assert!(wide - wide == num("0"));
    assert!(num("9E77") - wide == num("8.1E77"));
    assert!(num("1E78") - num("1E77").trunc() == num("9E77"));
    assert!(num("1E79") + num("123E40").trunc() == num("1E79") + num("123E40"));
}

#[test]
fn wide_products_lose_zeros_only() {
    assert!(num("1E40").trunc() * num("1E40").trunc() == num("1E80"));
    assert!(num("3E76").trunc() * num("-7E76").trunc() == num("-2.1E153"));
    let nines = num("9999999999999999999999999999999999");
    let wide = num("9.999999999999999999999999999999999E60").trunc();
    assert!(wide * wide == num("9.999999999999999999999999999999998E121"));
    assert!(nines * wide == num("9.999999999999999999999999999999998E94"));
}

#[test]
fn roots_of_even_powers_of_ten() {
    assert_eq!("10", num("100").sqrt().unwrap().to_string());
    assert!(num("1E6144").sqrt().unwrap() == num("1E3072"));
    assert!(num("1E-6176").sqrt().unwrap() == num("1E-3088"));
    assert_eq!("1", num("1.0000").sqrt().unwrap().to_string());
    assert!(num("1E40").trunc().sqrt().unwrap() == num("1E20"));
}

#[test]
fn wide_operands_divide_as_their_numbers_do() {
    let wide = num("1E40").trunc();
    assert!(wide / num("3") == num("3.333333333333333333333333333333333E39"));
    assert!(num("2") / num("3E40").trunc() == num("6.666666666666666666666666666666667E-41"));
    assert!(num("2") / num("3E76").trunc() == num("6.666666666666666666666666666666667E-77"));
    assert!(num("9E76").trunc() / num("3E76").trunc() == num("3"));
    assert_eq!("+10E+0", (num("1E60").trunc() / num("1E59").trunc()).debug_string());
    assert!(num("9E76").trunc() / num("7") == num("9E76") / num("7"));
    assert!(num("9E60").trunc() / num("-7E70").trunc() == num("9E60") / num("-7E70"));
    assert!(num("13E40").trunc() % num("7E40").trunc() == num("6E40"));
    assert!(num("-13E60").trunc() % num("7E60").trunc() == num("1E60"));
}
