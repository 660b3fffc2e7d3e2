use dsntk_feel_number::arithmetic::{
    ceil_i, exact_parity, floor_i, nearest_away, num_eq, num_lt, remainder_of, scalbn, trunc_i,
};
use dsntk_feel_number::literal::accept;
use dsntk_feel_number::rounding::{ilogb, norm, rescale_half_even};
use dsntk_feel_number::{Decimal, FeelNumber};

fn num(s: &str) -> FeelNumber {
    s.parse().unwrap()
}

fn parts(s: &str) -> Decimal {
    num(s).parts()
}

/// A coefficient that no number of the format has.
fn wide(limbs: [u64; 4], scale: i16) -> Decimal {
    Decimal { nan: false, infinite: false, negative: false, limbs, scale }
}

fn shown(d: Decimal) -> (bool, [u64; 4], i16) {
    assert!(d.is_finite());
    (d.negative, d.limbs, d.scale)
}

#[test]
fn normalizing_is_idempotent() {
    for d in [wide([u64::MAX; 4], 10), wide([5, 0, 0, 0], -6120), wide([1, 1, 1, 1], 30000)] {
        let once = norm(d);
        let twice = norm(once);
        assert_eq!(shown(once), shown(twice));
    }
    assert_eq!(shown(Decimal::small(0)), shown(norm(wide([1, 0, 0, 0], 6177))));
}

#[test]
fn normalizing_leaves_the_format_alone() {
    for text in ["0.00", "-12.50", "1E6111", "1E-6176", "9999999999999999999999999999999999"] {
        assert_eq!(shown(parts(text)), shown(norm(parts(text))));
    }
}

#[test]
fn normalizing_rounds_the_widest_coefficient() {
    // 2^256 - 1 is 1157920892373161954235709850086879078532698466... with 78 digits.
    let rounded = norm(wide([u64::MAX; 4], -10));
    assert_eq!(shown(rounded), shown(parts("1157920892373161954235709850086879E54")));
    assert_eq!(shown(scalbn(rounded, -20)), shown(parts("1157920892373161954235709850086879E34")));
    let overflow = norm(wide([u64::MAX; 4], i16::MIN));
    assert!(overflow.infinite && !overflow.nan && !overflow.negative);
}

#[test]
fn half_even_is_nearest() {
    assert_eq!(shown(parts("2")), shown(rescale_half_even(parts("2.5"), 0)));
    assert_eq!(shown(parts("4")), shown(rescale_half_even(parts("3.5"), 0)));
    assert_eq!(shown(parts("-3")), shown(rescale_half_even(parts("-2.51"), 0)));
    assert_eq!(shown(parts("2.500")), shown(rescale_half_even(parts("2.5"), 3)));
    let infinite = rescale_half_even(FeelNumber::infinite().parts(), 0);
    assert!(infinite.infinite);
}

#[test]
fn leading_exponents() {
    assert_eq!(0, ilogb(parts("9.99")));
    assert_eq!(3, ilogb(parts("1000")));
    assert_eq!(-2, ilogb(parts("0.010")));
    assert_eq!(i32::MIN, ilogb(parts("0")));
    assert_eq!(i32::MIN, ilogb(FeelNumber::infinite().parts()));
}

#[test]
fn order_is_total_on_numbers() {
    let sorted = ["-1E10", "-2", "-1.99", "0", "1E-6000", "0.5", "1", "1.01", "1E10"];
    for (i, a) in sorted.iter().enumerate() {
        for (j, b) in sorted.iter().enumerate() {
            assert_eq!(i < j, num_lt(parts(a), parts(b)));
            assert_eq!(i == j, num_eq(parts(a), parts(b)));
            assert_eq!(num(a) < num(b), -num(b) < -num(a));
        }
    }
}

#[test]
fn sums_and_products_commute() {
    for (a, b) in [("1.5", "-2.25"), ("0.001", "1E3"), ("0", "-0"), ("-7", "7.0")] {
        assert_eq!((num(a) + num(b)).debug_string(), (num(b) + num(a)).debug_string());
        assert_eq!((num(a) * num(b)).debug_string(), (num(b) * num(a)).debug_string());
        assert_eq!((num(a) - num(b)).debug_string(), (num(a) + -num(b)).debug_string());
    }
}

#[test]
fn neutral_elements() {
    for text in ["1.50", "-3", "1E-6176", "9E6111", "0.000"] {
        let n = num(text);
        assert!(n + num("0.00") == n);
        assert_eq!(n.debug_string(), (n * num("1")).debug_string());
        assert_eq!(n.debug_string(), (n / num("1")).debug_string());
        assert!((n - n).is_zero() && !(n - n).is_negative());
        assert_eq!(n.debug_string(), (-(-n)).debug_string());
        assert_eq!(n.abs().debug_string(), (-n).abs().debug_string());
    }
}

#[test]
fn floor_and_ceiling_are_one_apart() {
    for text in ["2.5", "-2.5", "0.1", "-0.1", "-1234.5678"] {
        let (floor, ceiling) = (num(text).floor(0).unwrap(), num(text).ceiling(0).unwrap());
        assert!(floor + num("1") == ceiling);
        assert!(floor < num(text) && num(text) < ceiling);
        assert!(floor.is_integer() && ceiling.is_integer());
    }
    for text in ["5", "5.00", "-1E5"] {
        let d = parts(text);
        assert_eq!(shown(d), shown(floor_i(d)));
        assert_eq!(shown(d), shown(ceil_i(d)));
        assert!(num_eq(d, trunc_i(d)) && num_eq(d, nearest_away(d)));
    }
}

#[test]
fn nearest_moves_by_at_most_half() {
    assert!(num_eq(parts("3"), nearest_away(parts("2.5"))));
    assert!(num_eq(parts("-3"), nearest_away(parts("-2.5"))));
    assert!(num_eq(parts("2"), nearest_away(parts("2.4999"))));
    assert!(num_eq(parts("0"), nearest_away(parts("0.05"))));
}

#[test]
fn parity_of_integers() {
    assert_eq!(Some(true), exact_parity(parts("0.0")));
    assert_eq!(Some(true), exact_parity(parts("3E1")));
    assert_eq!(Some(false), exact_parity(parts("-3.00")));
    assert_eq!(None, exact_parity(parts("3.5")));
    assert_eq!(None, exact_parity(FeelNumber::infinite().parts()));
}

#[test]
fn shifting_there_and_back() {
    for n in [-100, -1, 1, 6000] {
        assert_eq!(shown(parts("12.50")), shown(scalbn(scalbn(parts("12.50"), n), -n)));
    }
    assert_eq!((false, [0, 0, 0, 0], i16::MIN), shown(scalbn(parts("0"), i32::MAX)));
    assert!(scalbn(parts("1"), i32::MAX).infinite);
    assert_eq!((false, [0, 0, 0, 0], 0), shown(scalbn(parts("1"), i32::MIN)));
}

#[test]
fn remainder_of_a_given_quotient() {
    let r = remainder_of(parts("-12"), parts("5"), parts("-2.4"));
    assert!(num_eq(parts("3"), r));
    assert!(num_eq(parts("0"), remainder_of(parts("15"), parts("5"), parts("3"))));
    assert!((num("1.5E10") % num("3")).is_zero());
}

#[test]
fn half_down_at_tenths() {
    for (text, expected) in [("2.5", "2"), ("2.6", "3"), ("-2.5", "-2"), ("-2.6", "-3"), ("0.1", "0")] {
        assert!(num(text).round_half_down(0).unwrap() == num(expected));
    }
}

#[test]
fn square_is_the_product_with_itself() {
    for text in ["12.5", "-0.03", "9999999999999999999999999999999999", "1E-3000", "0.0"] {
        let n = num(text);
        assert!(n.square().unwrap() == n * n);
    }
}

#[test]
fn what_was_read_is_brought_to_the_format() {
    assert_eq!("1.5", accept("1.5", Some(wide([15, 0, 0, 0], 1))).unwrap().to_string());
    assert!(accept("x", None).is_err());
    assert!(accept("1E7000", Some(wide([1, 0, 0, 0], -7000))).is_err());
    assert!(accept("NaN", Some(Decimal::not_a_number())).is_err());
}

#[test]
fn roundings_go_their_way_at_every_scale() {
    let values = [
        "0.05", "-0.05", "0.15", "-0.15", "0.1", "-0.1", "1", "-1", "0.95", "99.5", "-99.5", "1234.5678", "-1234.5678",
        "9.999999999999999999999999999999999", "1E-6176", "9.999999999999999999999999999999999E6144", "-5E6000",
    ];
    for text in values {
        let v = num(text);
        for scale in [-6000, -40, -3, -2, -1, 0, 1, 2, 3, 40, 6000, 6200] {
            let (Ok(up), Ok(down)) = (v.ceiling(scale), v.floor(scale)) else {
                continue;
            };
            assert!(down <= v && v <= up, "{} at {}", text, scale);
            let (inward, outward) = (v.round_down(scale).unwrap(), v.round_up(scale).unwrap());
            assert!(inward.is_one() || (-inward).is_one() || inward.abs() <= v.abs(), "{} at {}", text, scale);
            assert!(outward.is_one() || (-outward).is_one() || v.abs() <= outward.abs(), "{} at {}", text, scale);
            let nearest = v.round_half_up(scale).unwrap();
            assert!(nearest == inward || nearest == outward, "{} at {}", text, scale);
        }
    }
}

#[test]
fn sums_and_products_commute_digit_for_digit() {
    let values = ["0", "-0.00", "1", "-2.50", "3E40", "7E-90", "9.999999999999999999999999999999999E6144", "1E6000"];
    for a in values {
        for b in values {
            let (x, y) = (num(a), num(b));
            assert_eq!((x + y).debug_string(), (y + x).debug_string(), "{} + {}", a, b);
            assert_eq!((x * y).debug_string(), (y * x).debug_string(), "{} * {}", a, b);
            assert_eq!((x - y).debug_string(), (x + -y).debug_string(), "{} - {}", a, b);
        }
    }
}
