//! Comparison, integers, and the operations behind a FEEL number, on raw decimals.

use crate::backend;
use crate::decimal;
use crate::decimal::{Decimal, DecimalView};
use crate::digits;
use crate::laws;
use crate::powers;
use crate::remainders;
use crate::results;
use crate::rounding;
use crate::scales;
use std::cmp::Ordering;
use vstd::prelude::*;

verus! {

/// How two values stand to each other as numbers: zeros are equal whatever their
/// sign. A NaN is beyond every other value on the side of its sign.
pub open spec fn number_order(a: DecimalView, b: DecimalView) -> int {
    if a.is_zero() && b.is_zero() {
        0
    } else {
        backend::sign_first_order(a, b)
    }
}

/// Whether two values are the same number.
pub fn num_eq(a: Decimal, b: Decimal) -> (r: bool)
    ensures
        r == backend::same_number(a@, b@),
{
    if a.is_zero() && b.is_zero() {
        return true;
    }
    backend::equal(a, b)
}

/// Whether `a` is below `b`.
pub fn num_lt(a: Decimal, b: Decimal) -> (r: bool)
    ensures
        r == (number_order(a@, b@) < 0),
{
    !(a.is_zero() && b.is_zero()) && match backend::total_order(a, b) {
        Ordering::Less => true,
        _ => false,
    }
}

/// Whether `a` is above `b`.
pub fn num_gt(a: Decimal, b: Decimal) -> (r: bool)
    ensures
        r == (number_order(a@, b@) > 0),
{
    !(a.is_zero() && b.is_zero()) && match backend::total_order(a, b) {
        Ordering::Greater => true,
        _ => false,
    }
}

/// Whether `a` is at or below `b`.
pub fn num_le(a: Decimal, b: Decimal) -> (r: bool)
    ensures
        r == (number_order(a@, b@) <= 0),
{
    (a.is_zero() && b.is_zero()) || match backend::total_order(a, b) {
        Ordering::Greater => false,
        _ => true,
    }
}

/// Whether `a` is at or above `b`.
pub fn num_ge(a: Decimal, b: Decimal) -> (r: bool)
    ensures
        r == (number_order(a@, b@) >= 0),
{
    (a.is_zero() && b.is_zero()) || match backend::total_order(a, b) {
        Ordering::Less => false,
        _ => true,
    }
}

/// The next integer at or below; a value that is not finite is left as it is.
pub open spec fn floor_of(v: DecimalView) -> DecimalView {
    match v {
        DecimalView::Finite { negative, coefficient, scale } => backend::integer_near(
            negative,
            coefficient,
            scale,
            negative,
        ),
        _ => v,
    }
}

/// The next integer at or above; a value that is not finite is left as it is.
pub open spec fn ceil_of(v: DecimalView) -> DecimalView {
    match v {
        DecimalView::Finite { negative, coefficient, scale } => backend::integer_near(
            negative,
            coefficient,
            scale,
            !negative,
        ),
        _ => v,
    }
}

/// The value without its fraction; a value that is not finite is left as it is.
pub open spec fn trunc_of(v: DecimalView) -> DecimalView {
    match v {
        DecimalView::Finite { negative, coefficient, scale } => backend::truncated(
            negative,
            coefficient,
            scale,
        ),
        _ => v,
    }
}

/// The nearest integer, a tie away from zero; a value that is not finite is left as
/// it is.
pub open spec fn nearest_of(v: DecimalView) -> DecimalView {
    match v {
        DecimalView::Finite { negative, coefficient, scale } => backend::rounded_half_up(
            negative,
            coefficient,
            scale,
        ),
        _ => v,
    }
}

/// Round down to an integer.
pub fn floor_i(d: Decimal) -> (r: Decimal)
    ensures
        r@ == floor_of(d@),
{
    if d.is_finite() {
        backend::floor(d)
    } else {
        d
    }
}

/// Round up to an integer.
pub fn ceil_i(d: Decimal) -> (r: Decimal)
    ensures
        r@ == ceil_of(d@),
{
    if d.is_finite() {
        backend::ceil(d)
    } else {
        d
    }
}

/// Cut off the fraction.
pub fn trunc_i(d: Decimal) -> (r: Decimal)
    ensures
        r@ == trunc_of(d@),
{
    if d.is_finite() {
        backend::trunc(d)
    } else {
        d
    }
}

/// Round to an integer, away from zero on a tie.
pub fn nearest_away(d: Decimal) -> (r: Decimal)
    ensures
        r@ == nearest_of(d@),
{
    if !d.is_finite() {
        return d;
    }
    backend::round_half_up(d)
}

/// A power of ten that divides a number splits into powers that do.
pub proof fn lemma_divisible_split(c: nat, i: nat, j: nat)
    requires
        c % digits::pow10(i + j) == 0,
    ensures
        c % digits::pow10(i) == 0,
        (c / digits::pow10(i)) % digits::pow10(j) == 0,
{
    let p = digits::pow10(i);
    let q = digits::pow10(j);
    digits::lemma_pow10_add(i, j);
    digits::lemma_pow10_monotonic(i, i);
    digits::lemma_pow10_monotonic(j, j);
    let m = c / (p * q);
    assert(p * q >= 1) by (nonlinear_arith)
        requires
            p >= 1,
            q >= 1,
    ;
    vstd::arithmetic::div_mod::lemma_fundamental_div_mod(c as int, (p * q) as int);
    assert(c == (q * m) * p) by (nonlinear_arith)
        requires
            c == (p * q) * m,
    ;
    vstd::arithmetic::div_mod::lemma_fundamental_div_mod_converse(
        c as int,
        p as int,
        (q * m) as int,
        0,
    );
    vstd::arithmetic::div_mod::lemma_mod_multiples_basic(m as int, q as int);
    assert(q * m == m * q) by (nonlinear_arith);
}

/// Appending zeros keeps a number divisible by a power of ten, and by a larger one.
pub proof fn lemma_divisible_scale(c: nat, j: nat, k: nat)
    requires
        c % digits::pow10(j) == 0,
    ensures
        (c * digits::pow10(k)) % digits::pow10(j + k) == 0,
{
    let p = digits::pow10(j);
    let q = digits::pow10(k);
    digits::lemma_pow10_add(j, k);
    digits::lemma_pow10_monotonic(j, j);
    digits::lemma_pow10_monotonic(k, k);
    let m = c / p;
    vstd::arithmetic::div_mod::lemma_fundamental_div_mod(c as int, p as int);
    assert(c * q == m * (p * q)) by (nonlinear_arith)
        requires
            c == p * m,
    ;
    assert(p * q >= 1) by (nonlinear_arith)
        requires
            p >= 1,
            q >= 1,
    ;
    vstd::arithmetic::div_mod::lemma_mod_multiples_basic(m as int, (p * q) as int);
}

/// Widening stays in the format.
pub proof fn lemma_widened_in_format(negative: bool, c: nat, s: int, target: int)
    requires
        rounding::in_format(DecimalView::Finite { negative, coefficient: c, scale: s }),
    ensures
        rounding::in_format(backend::widened(negative, c, s, target)),
{
    if c > 0 && target > s {
        let k = if target - s <= backend::room(c) {
            (target - s) as nat
        } else {
            backend::room(c)
        };
        digits::lemma_digit_count_scale_up(c, k);
        let n = digits::digit_count(c);
        if n > rounding::PRECISION {
            lemma_divisible_scale(c, (n - rounding::PRECISION) as nat, k);
            assert((n - rounding::PRECISION) as nat + k == (n + k - rounding::PRECISION) as nat);
        } else if n + k > rounding::PRECISION {
            assert(c % digits::pow10(0) == 0) by {
                assert(digits::pow10(0) == 1);
            }
            lemma_divisible_scale(c, 0, k);
            lemma_divisible_split(
                c * digits::pow10(k),
                (n + k - rounding::PRECISION) as nat,
                (rounding::PRECISION - n) as nat,
            );
            assert((n + k - rounding::PRECISION) as nat + (rounding::PRECISION - n) as nat == 0
                + k);
        }
    }
}

/// Cutting off digits after the point, with or without a step away from zero where
/// something was cut off, stays in the format.
pub proof fn lemma_whole_in_format(negative: bool, c: nat, s: int)
    requires
        rounding::in_format(DecimalView::Finite { negative, coefficient: c, scale: s }),
        s > 0,
    ensures
        ({
            let whole = c / digits::pow10(s as nat);
            &&& rounding::in_format(DecimalView::Finite { negative, coefficient: whole, scale: 0 })
            &&& !backend::integral(c, s) ==> rounding::in_format(
                DecimalView::Finite { negative, coefficient: whole + 1, scale: 0 },
            )
        }),
{
    let k = s as nat;
    let whole = c / digits::pow10(k);
    let n = digits::digit_count(c);
    digits::lemma_digit_count_scale_down(c, k);
    digits::lemma_pow10_monotonic(k, k);
    assert(whole >= 0) by (nonlinear_arith)
        requires
            whole == c / digits::pow10(k),
            digits::pow10(k) >= 1,
    ;
    if c == 0 {
        assert(0nat / digits::pow10(k) == 0 && 0nat % digits::pow10(k) == 0) by (nonlinear_arith)
            requires
                digits::pow10(k) >= 1,
        ;
    } else {
        if n > rounding::PRECISION + k {
            let j = (n - rounding::PRECISION - k) as nat;
            assert(k + j == (n - rounding::PRECISION) as nat);
            lemma_divisible_split(c, k, j);
        } else {
            digits::lemma_digit_count_at_most(whole, 34);
        }
        if !backend::integral(c, s) {
            if n > rounding::PRECISION && n - rounding::PRECISION >= k {
                let j = (n - rounding::PRECISION - k) as nat;
                assert(k + j == (n - rounding::PRECISION) as nat);
                lemma_divisible_split(c, k, j);
            }
            digits::lemma_digit_count_at_most(whole, 33);
            assert(digits::pow10(34) == 10 * digits::pow10(33));
            digits::lemma_digit_count_at_most(whole + 1, 34);
            digits::lemma_digit_count_bounds(whole + 1);
        }
    }
}

/// The four ways of rounding to an integer stay in the format.
pub proof fn lemma_integers_in_format(v: DecimalView)
    requires
        rounding::in_format(v),
    ensures
        rounding::in_format(floor_of(v)),
        rounding::in_format(ceil_of(v)),
        rounding::in_format(trunc_of(v)),
        rounding::in_format(nearest_of(v)),
{
    if let DecimalView::Finite { negative, coefficient, scale } = v {
        lemma_widened_in_format(negative, coefficient, scale, 0);
        if scale > 0 {
            lemma_whole_in_format(negative, coefficient, scale);
            let unit = digits::pow10(scale as nat);
            digits::lemma_pow10_monotonic(scale as nat, scale as nat);
        }
    }
}

/// `v * 10^n` with the coefficient kept.
pub open spec fn shifted(v: DecimalView, n: int) -> DecimalView {
    match v {
        DecimalView::Finite { negative, coefficient, scale } => backend::constructed(
            negative,
            coefficient,
            n - scale,
        ),
        _ => v,
    }
}

/// `value * 10^n`, preserving the coefficient exactly, then brought back to the
/// format.
pub fn scalbn(d: Decimal, n: i32) -> (r: Decimal)
    ensures
        r@ == rounding::normalized(shifted(d@, n as int)),
        rounding::in_format(r@),
        rounding::narrow(r@),
{
    proof {
        decimal::lemma_limbs_bound(d.limbs@);
    }
    if n < -32767 || n > 32767 {
        return rounding::norm(shift_far(d, n));
    }
    let ten = Decimal {
        nan: false,
        infinite: false,
        negative: false,
        limbs: [1, 0, 0, 0],
        scale: (-n) as i16,
    };
    proof {
        assert(ten@ == (DecimalView::Finite { negative: false, coefficient: 1, scale: -n as int }));
        if let DecimalView::Finite { coefficient, .. } = d@ {
            assert(coefficient * 1 == coefficient) by (nonlinear_arith);
        }
    }
    rounding::norm(backend::product(d, ten))
}

/// A value moved by a power of ten that is no decimal of its own: its digits are
/// read again at the new exponent.
fn shift_far(d: Decimal, n: i32) -> (r: Decimal)
    ensures
        r@ == shifted(d@, n as int),
{
    if !d.is_finite() {
        return d;
    }
    let wide: i64 = n as i64 - d.scale as i64;
    let exponent: i32 = if wide > i32::MAX as i64 {
        i32::MAX
    } else if wide < i32::MIN as i64 {
        i32::MIN
    } else {
        wide as i32
    };
    let text = backend::coefficient_text(d.limbs);
    proof {
        let c = decimal::limbs_value(d.limbs@);
        decimal::lemma_limbs_bound(d.limbs@);
        digits::lemma_decimal_text(c);
        rounding::lemma_coefficient_digits(c);
        rounding::lemma_room_bound(c);
    }
    match rounding::read_literal(d.negative, text.as_str(), exponent) {
        Some(r) => r,
        None => Decimal::infinity(d.negative),
    }
}

/// Whether a value is an even integer, or `None` where it is no integer.
pub open spec fn parity(v: DecimalView) -> Option<bool> {
    match v {
        DecimalView::Finite { coefficient: c, scale: s, .. } => if !backend::integral(c, s) {
            None
        } else {
            Some(c == 0 || s < 0 || (c / digits::pow10(s as nat)) % 2 == 0)
        },
        _ => None,
    }
}

/// A value equals itself without its fraction exactly where it is an integer.
pub proof fn lemma_integral(v: DecimalView)
    ensures
        backend::same_number(v, trunc_of(v)) <==> v is Infinite || (v matches DecimalView::Finite {
            coefficient,
            scale,
            ..
        } && backend::integral(coefficient, scale)),
{
    if let DecimalView::Finite { negative, coefficient: c, scale: s } = v {
        if s > 0 {
            let unit = digits::pow10(s as nat);
            let whole = c / unit;
            digits::lemma_pow10_monotonic(s as nat, s as nat);
            vstd::arithmetic::div_mod::lemma_fundamental_div_mod(c as int, unit as int);
            assert(unit * whole == whole * unit) by (nonlinear_arith);
            assert(whole >= 0) by (nonlinear_arith)
                requires
                    whole == c / unit,
                    unit >= 1,
            ;
            assert((s - 0) as nat == s as nat);
            assert(backend::finite_order(c, s, whole, 0) == 0 <==> c == whole * unit);
            if c == 0 {
                assert(0nat % unit == 0 && whole == 0) by (nonlinear_arith)
                    requires
                        whole == 0nat / unit,
                        unit >= 1,
                ;
            }
        } else if s < 0 && c > 0 {
            let k = if 0 - s <= backend::room(c) {
                (0 - s) as nat
            } else {
                backend::room(c)
            };
            assert(((s + k) - s) as nat == k);
            if k == 0 {
                assert(digits::pow10(0) == 1);
                assert(c * 1 == c) by (nonlinear_arith);
            }
            assert(backend::finite_order(c, s, c * digits::pow10(k), s + k) == 0);
        }
    }
}

/// The units digit of a positive integer `c * 10^-k` stands `k` places from the end
/// of its digits, and has the parity of the integer.
proof fn lemma_units_digit(c: nat, k: nat)
    requires
        c > 0,
        c % digits::pow10(k) == 0,
    ensures
        digits::decimal_text(c).len() > k,
        ({
            let digit = digits::decimal_text(c)[digits::decimal_text(c).len() - k - 1];
            &&& digits::is_digit(digit)
            &&& digits::digit_value(digit) % 2 == (c / digits::pow10(k)) % 2
        }),
{
    let t = digits::decimal_text(c);
    let whole = c / digits::pow10(k);
    digits::lemma_decimal_text(c);
    digits::lemma_pow10_monotonic(k, k);
    vstd::arithmetic::div_mod::lemma_fundamental_div_mod(c as int, digits::pow10(k) as int);
    assert(digits::pow10(k) * 0 == 0) by (nonlinear_arith);
    digits::lemma_digit_count_scale_down(c, k);
    let cut = t.len() - k;
    let head = t.take(cut);
    digits::lemma_split_value(t, cut);
    digits::lemma_value_bound(t.skip(cut));
    rounding::lemma_quotient(digits::value(head), digits::pow10(k), digits::value(t.skip(cut)));
    assert(digits::value(head) == whole);
    assert(head.last() == t[cut - 1]);
}

/// Whether a value is an even integer, decided from its own digits, or `None` where
/// the question does not arise.
pub fn exact_parity(d: Decimal) -> (r: Option<bool>)
    ensures
        r == parity(d@),
{
    if !d.is_finite() {
        return None;
    }
    let ghost c = decimal::limbs_value(d.limbs@);
    if d.is_zero() {
        proof {
            digits::lemma_pow10_monotonic(0, d.scale as nat);
            assert(backend::integral(0, d.scale as int)) by {
                if d.scale > 0 {
                    vstd::arithmetic::div_mod::lemma_small_mod(0, digits::pow10(d.scale as nat));
                }
            }
        }
        return Some(true);
    }
    proof {
        lemma_integral(d@);
    }
    if !num_eq(d, trunc_i(d)) {
        return None;
    }
    if d.scale < 0 {
        return Some(true);
    }
    let text = backend::coefficient_text(d.limbs);
    let len: usize = text.as_str().unicode_len();
    proof {
        lemma_units_digit(c, d.scale as nat);
    }
    let units: usize = len - d.scale as usize - 1;
    let digit: char = text.as_str().get_char(units);
    Some(digit == '0' || digit == '2' || digit == '4' || digit == '6' || digit == '8')
}

/// The sum of two values: not a number, or exact.
pub open spec fn sum_value(a: DecimalView, b: DecimalView) -> DecimalView {
    if backend::sum_undefined(a, b) {
        DecimalView::NotANumber { negative: false }
    } else {
        match backend::known_sum(a, b) {
            Some(v) => v,
            None => backend::exact_sum(a, b),
        }
    }
}

/// The difference of two values: not a number, or exact.
pub open spec fn difference_value(a: DecimalView, b: DecimalView) -> DecimalView {
    if backend::sum_undefined(a, b.negated()) {
        DecimalView::NotANumber { negative: false }
    } else {
        match backend::known_sum(a, b.negated()) {
            Some(v) => v,
            None => backend::exact_sum(a, b.negated()),
        }
    }
}

/// The product of two values: not a number, exact, or as the wide type rounds it.
pub open spec fn product_value(a: DecimalView, b: DecimalView) -> DecimalView {
    if backend::product_undefined(a, b) {
        DecimalView::NotANumber { negative: false }
    } else {
        match backend::known_product(a, b) {
            Some(v) => v,
            None => backend::product_of(a, b),
        }
    }
}

/// The quotient of two values: not a number, which a zero over a zero is too, exact,
/// or as the wide type rounds it.
pub open spec fn quotient_value(a: DecimalView, b: DecimalView) -> DecimalView {
    if backend::quotient_undefined(a, b) || (a.is_zero() && b.is_zero()) {
        DecimalView::NotANumber { negative: false }
    } else {
        match backend::known_quotient(a, b) {
            Some(v) => v,
            None => backend::quotient_of(a, b),
        }
    }
}

/// The sum of two values of the format is known in the wide type.
proof fn lemma_summable(a: DecimalView, b: DecimalView)
    requires
        rounding::in_format(a),
        rounding::in_format(b),
        a.representable(),
        b.representable(),
    ensures
        backend::summable(a, b),
{
    if let DecimalView::Finite { coefficient, .. } = a {
        rounding::lemma_coefficient_digits(coefficient);
    }
    if let DecimalView::Finite { coefficient, .. } = b {
        rounding::lemma_coefficient_digits(coefficient);
    }
    if a is Finite && b is Finite && backend::finite_sum(a, b) is None {
        scales::lemma_nearly_known(a, b);
    }
}

/// What the wide type gives for a sum is rounded as the exact sum is.
proof fn lemma_summed(a: DecimalView, b: DecimalView, r: DecimalView)
    requires
        rounding::in_format(a),
        rounding::in_format(b),
        a.representable(),
        b.representable(),
        backend::sum_undefined(a, b) ==> r is NotANumber,
        backend::known_sum(a, b) matches Some(v) ==> r == v,
        !backend::sum_undefined(a, b) && backend::known_sum(a, b) is None ==> backend::near_sum(
            a,
            b,
            r,
        ),
    ensures
        rounding::normalized(r) == rounding::normalized(sum_value(a, b)),
{
    if a is Finite && b is Finite && backend::known_sum(a, b) is None {
        scales::lemma_near_sum(a, b, r);
    }
}

/// Add, and round to the format.
pub fn plus(a: Decimal, b: Decimal) -> (r: Decimal)
    requires
        rounding::in_format(a@),
        rounding::in_format(b@),
    ensures
        r@ == rounding::normalized(sum_value(a@, b@)),
        rounding::in_format(r@),
        rounding::narrow(r@),
{
    proof {
        decimal::lemma_limbs_bound(a.limbs@);
        decimal::lemma_limbs_bound(b.limbs@);
        lemma_summable(a@, b@);
    }
    let wide = backend::sum(a, b);
    proof {
        lemma_summed(a@, b@, wide@);
    }
    rounding::norm(wide)
}

/// Subtract, and round to the format.
pub fn minus(a: Decimal, b: Decimal) -> (r: Decimal)
    requires
        rounding::in_format(a@),
        rounding::in_format(b@),
    ensures
        r@ == rounding::normalized(difference_value(a@, b@)),
        rounding::in_format(r@),
        rounding::narrow(r@),
{
    proof {
        decimal::lemma_limbs_bound(a.limbs@);
        decimal::lemma_limbs_bound(b.limbs@);
        lemma_summable(a@, b@.negated());
    }
    let wide = backend::difference(a, b);
    proof {
        lemma_summed(a@, b@.negated(), wide@);
    }
    rounding::norm(wide)
}

/// Multiply, and round to the format.
pub fn times(a: Decimal, b: Decimal) -> (r: Decimal)
    ensures
        r@ == rounding::normalized(product_value(a@, b@)),
        rounding::in_format(r@),
        rounding::narrow(r@),
{
    rounding::norm(backend::product(a, b))
}

/// Whether a value is what long division leaves of a quotient, exact where it is known.
pub open spec fn quotient_found(a: DecimalView, b: DecimalView, q: DecimalView) -> bool {
    &&& backend::known_quotient(a, b) matches Some(v) ==> q == v
    &&& backend::ordinary(a, b) ==> backend::divided(a, b, q)
}

/// Divide in the wide type: a zero over a zero is not a number.
pub fn div(a: Decimal, b: Decimal) -> (q: Decimal)
    ensures
        rounding::normalized(q@) == rounding::normalized(quotient_value(a@, b@)),
        !(a@.is_zero() && b@.is_zero()) ==> quotient_found(a@, b@, q@),
{
    if a.is_zero() && b.is_zero() {
        return Decimal::not_a_number();
    }
    backend::quotient(a, b)
}

/// Divide, and round to the format.
pub fn over(a: Decimal, b: Decimal) -> (r: Decimal)
    requires
        rounding::in_format(a@),
        rounding::in_format(b@),
    ensures
        r@ == rounding::normalized(quotient_value(a@, b@)),
        both_nonzero(a@, b@) ==> rounded_quotient(a@, b@, r@),
        rounding::in_format(r@),
        rounding::narrow(r@),
{
    let q = div(a, b);
    proof {
        if both_nonzero(a@, b@) {
            decimal::lemma_limbs_bound(a.limbs@);
            decimal::lemma_limbs_bound(b.limbs@);
            lemma_quotient_rounded(a@, b@, q@);
        }
    }
    rounding::norm(q)
}

/// Whether two values are finite and not zero.
pub open spec fn both_nonzero(a: DecimalView, b: DecimalView) -> bool {
    a is Finite && b is Finite && !a.is_zero() && !b.is_zero()
}

/// The quotient of two numbers is rounded once.
pub proof fn lemma_quotient_rounded(a: DecimalView, b: DecimalView, q: DecimalView)
    requires
        both_nonzero(a, b),
        a.representable(),
        b.representable(),
        rounding::in_format(a),
        rounding::in_format(b),
        quotient_found(a, b, q),
    ensures
        rounded_quotient(a, b, rounding::normalized(q)),
{
    if let DecimalView::Finite { negative: m, coefficient: c, scale: s } = a {
        if let DecimalView::Finite { negative: n, coefficient: d, scale: t } = b {
            rounding::lemma_coefficient_digits(c);
            digits::lemma_digit_count_bounds(d);
            rounding::lemma_coefficient_digits(d);
            let (x, v) = rounding::to_precision(c, s);
            let (y, w) = rounding::to_precision(d, t);
            scales::lemma_surplus_zeros(c, s);
            scales::lemma_surplus_zeros(d, t);
            rounding::lemma_to_precision(c, s);
            rounding::lemma_to_precision(d, t);
            digits::lemma_digit_count_bounds(y);
            if let DecimalView::Finite { coefficient: e, scale: u, .. } = q {
                let k = (u - (s - t)) as nat;
                let i = (s - v) as nat;
                let l = (t - w) as nat;
                assert(digits::pow10(0) == 1);
                assert(c * 1 == c && c / 1 == c) by (nonlinear_arith);
                vstd::arithmetic::div_mod::lemma_fundamental_div_mod(c as int, d as int);
                if c % d == 0 {
                    assert(d * (c / d) == (c / d) * d && c / d > 0) by (nonlinear_arith)
                        requires
                            c == d * (c / d),
                            c > 0,
                            d > 0,
                    ;
                    assert(e * d == c * digits::pow10(k));
                }
                lemma_long_reduced(c, d, x, i, y, l, e, k);
                let p = (i + k - l) as nat;
                lemma_nearest_quotient(x, y, e, p);
                let (near, j) = rounding::to_precision(e, p as int);
                assert(rounding::to_precision(e, u) == (near, v - w + j));
                assert(nearest_quotient(x, y, near, j as nat));
            }
        }
    }
}

/// What long division leaves of the quotient of two coefficients, it leaves of the
/// quotient without the zeros that they end in.
proof fn lemma_long_reduced(c: nat, d: nat, m: nat, i: nat, n: nat, l: nat, e: nat, k: nat)
    requires
        0 < m < digits::pow10(34),
        0 < n < digits::pow10(34),
        l > 0 ==> n >= digits::pow10(33),
        m * digits::pow10(i) == c,
        n * digits::pow10(l) == d,
        d > 0,
        backend::long_quotient(c, d, e, k),
        c % d == 0 ==> e * d == c * digits::pow10(k),
    ensures
        i + k >= l,
        backend::long_quotient(m, n, e, (i + k - l) as nat),
{
    let pi = digits::pow10(i);
    let pk = digits::pow10(k);
    let pl = digits::pow10(l);
    let gap = e * d - c * pk;
    digits::lemma_pow10_add(i, k);
    digits::lemma_pow10_monotonic(i, i);
    digits::lemma_pow10_monotonic(k, k);
    digits::lemma_pow10_monotonic(l, l);
    let pik = digits::pow10(i + k);
    assert(gap == e * (n * pl) - m * pik) by (nonlinear_arith)
        requires
            gap == e * d - c * pk,
            d == n * pl,
            c == m * pi,
            pik == pi * pk,
    ;
    if i + k < l {
        let h = (l - i - k) as nat;
        let ph = digits::pow10(h);
        digits::lemma_pow10_add(h, i + k);
        digits::lemma_pow10_monotonic(1, h);
        digits::lemma_pow10_monotonic(i + k, i + k);
        digits::lemma_pow10_monotonic(34, 75);
        assert(digits::pow10(1) == 10 * digits::pow10(0));
        assert(digits::pow10(34) == 10 * digits::pow10(33));
        lemma_small_powers();
        let high = digits::pow10(33);
        let step = n * ph;
        assert(step >= 10 * high) by (nonlinear_arith)
            requires
                step == n * ph,
                n >= high,
                ph >= 10,
                high >= 0,
        ;
        assert(gap == (e * step - m) * pik) by (nonlinear_arith)
            requires
                gap == e * (n * pl) - m * pik,
                pl == ph * pik,
                step == n * ph,
        ;
        if gap == 0 {
            assert(m == e * step) by (nonlinear_arith)
                requires
                    (e * step - m) * pik == 0,
                    pik >= 1,
            ;
            assert(e >= 1) by (nonlinear_arith)
                requires
                    m == e * step,
                    m > 0,
                    e >= 0,
            ;
            assert(e * step >= step) by (nonlinear_arith)
                requires
                    e >= 1,
                    step >= 0,
            ;
        } else {
            assert(d == step * pik) by (nonlinear_arith)
                requires
                    d == n * pl,
                    pl == ph * pik,
                    step == n * ph,
            ;
            assert(e * step - m <= 100 * step) by (nonlinear_arith)
                requires
                    (e * step - m) * pik <= 100 * (step * pik),
                    pik >= 1,
            ;
            assert((e - 100) * step >= step && (e - 100) * step == e * step - 100 * step)
                by (nonlinear_arith)
                requires
                    e >= 101,
                    step >= 0,
            ;
        }
    } else {
        let p = (i + k - l) as nat;
        let pp = digits::pow10(p);
        digits::lemma_pow10_add(p, l);
        let rest = e * n - m * pp;
        assert(gap == rest * pl) by (nonlinear_arith)
            requires
                gap == e * (n * pl) - m * pik,
                pik == pp * pl,
                rest == e * n - m * pp,
        ;
        if gap == 0 {
            assert(rest == 0) by (nonlinear_arith)
                requires
                    rest * pl == 0,
                    pl >= 1,
            ;
        } else {
            assert(-100 * n <= rest <= 100 * n) by (nonlinear_arith)
                requires
                    -100 * d <= rest * pl <= 100 * d,
                    d == n * pl,
                    pl >= 1,
            ;
            assert forall|j: nat| !#[trigger] backend::divides_at(m, n, j) by {
                if backend::divides_at(m, n, j) {
                    lemma_divides_wide(c, d, m, i, n, l, j);
                }
            }
        }
    }
}

/// Where a quotient without the zeros that its operands end in is exact, so is the
/// quotient with them.
proof fn lemma_divides_wide(c: nat, d: nat, m: nat, i: nat, n: nat, l: nat, j: nat)
    requires
        n > 0,
        m * digits::pow10(i) == c,
        n * digits::pow10(l) == d,
        d > 0,
        backend::divides_at(m, n, j),
    ensures
        c % d == 0 || exists|h: nat| #[trigger] backend::divides_at(c, d, h),
{
    let pj = digits::pow10(j);
    let pl = digits::pow10(l);
    let pi = digits::pow10(i);
    let f = (m * pj) / n;
    vstd::arithmetic::div_mod::lemma_fundamental_div_mod((m * pj) as int, n as int);
    assert(m * pj == f * n) by (nonlinear_arith)
        requires
            m * pj == n * f + 0,
    ;
    assert(f >= 0) by (nonlinear_arith)
        requires
            f == (m * pj) / n,
            n > 0,
    ;
    if j + l >= i {
        let h = (j + l - i) as nat;
        digits::lemma_pow10_add(i, h);
        digits::lemma_pow10_add(j, l);
        assert(i + h == j + l);
        let ph = digits::pow10(h);
        assert(c * ph == f * d + 0) by (nonlinear_arith)
            requires
                c == m * pi,
                d == n * pl,
                m * pj == f * n,
                pi * ph == pj * pl,
        ;
        vstd::arithmetic::div_mod::lemma_fundamental_div_mod_converse(
            (c * ph) as int,
            d as int,
            f as int,
            0,
        );
        assert(backend::divides_at(c, d, h));
    } else {
        let h = (i - j - l) as nat;
        digits::lemma_pow10_add(j, l);
        digits::lemma_pow10_add(j + l, h);
        assert(j + l + h == i);
        let ph = digits::pow10(h);
        assert(c == (f * ph) * d + 0) by (nonlinear_arith)
            requires
                c == m * pi,
                d == n * pl,
                m * pj == f * n,
                pi == (pj * pl) * ph,
        ;
        vstd::arithmetic::div_mod::lemma_fundamental_div_mod_converse(
            c as int,
            d as int,
            (f * ph) as int,
            0,
        );
    }
}

/// What is left of `a` after as many multiples of `b` as a quotient has whole ones.
pub open spec fn remainder_by(a: DecimalView, b: DecimalView, quotient: DecimalView) -> DecimalView {
    let n = floor_of(rounding::normalized(quotient));
    rounding::normalized(difference_value(a, rounding::normalized(product_value(b, n))))
}

/// What is left of `a` after the whole multiples of `b` at or below it.
pub open spec fn remainder_value(a: DecimalView, b: DecimalView) -> DecimalView {
    remainder_by(a, b, quotient_value(a, b))
}

/// The remainder of a division whose quotient is given.
pub fn remainder_of(a: Decimal, b: Decimal, quotient: Decimal) -> (r: Decimal)
    requires
        rounding::in_format(a@),
    ensures
        r@ == remainder_by(a@, b@, quotient@),
        rounding::in_format(r@),
        rounding::narrow(r@),
{
    let n = floor_i(rounding::norm(quotient));
    minus(a, times(b, n))
}

/// The remainder of a division, floored and not truncated.
pub fn remainder(a: Decimal, b: Decimal) -> (r: Decimal)
    requires
        rounding::in_format(a@),
        rounding::in_format(b@),
    ensures
        r@ == remainder_value(a@, b@),
        forall|x: nat, y: nat, u: int| #[trigger]
            remainders::small_multiples(a@, b@, x, y, u) ==> remainders::is_floored(
                a@,
                b@,
                r@,
                x,
                y,
                u,
            ),
        rounding::in_format(r@),
        rounding::narrow(r@),
{
    let q = div(a, b);
    proof {
        decimal::lemma_limbs_bound(a.limbs@);
        decimal::lemma_limbs_bound(b.limbs@);
        assert forall|x: nat, y: nat, u: int| #[trigger]
            remainders::small_multiples(a@, b@, x, y, u) implies remainders::is_floored(
            a@,
            b@,
            remainder_by(a@, b@, q@),
            x,
            y,
            u,
        ) by {
            remainders::lemma_small_remainder(a@, b@, q@, x, y, u);
        }
    }
    remainder_of(a, b, q)
}

/// The square root before it is rounded: a zero, an infinity and one are their own, a
/// negative value has none.
pub open spec fn root_value(v: DecimalView) -> DecimalView {
    if v is NotANumber || (v is Finite && !v.is_zero() && v.negative()) {
        DecimalView::NotANumber { negative: false }
    } else if v.is_zero() || v is Infinite {
        v
    } else if backend::same_number(v, DecimalView::one()) {
        DecimalView::one()
    } else {
        backend::root_of(v)
    }
}

/// The square root of a value: of the value with its exponent brought near zero,
/// moved back by half as much.
pub open spec fn raw_root(v: DecimalView) -> DecimalView {
    if v.is_zero() || !(v is Finite) || v.negative() {
        rounding::normalized(root_value(v))
    } else {
        let half = rounding::order_of(v) / 2;
        rounding::normalized(
            shifted(root_value(rounding::normalized(shifted(v, -2 * half))), half),
        )
    }
}

/// Square root, rounded to the format. The exponent is halved first and put back
/// afterwards, which keeps the wide type working near one; a one loses its trailing
/// zeros before its root is taken.
pub fn sqrt(d: Decimal) -> (r: Decimal)
    requires
        rounding::in_format(d@),
    ensures
        r@ == raw_root(d@),
        d@ is Finite && !d@.is_zero() && !d@.negative() ==> backend::squares_to(r@, d@, 33, 2),
        rounding::in_format(r@),
        rounding::narrow(r@),
{
    if d.is_zero() || !d.is_finite() || d.negative {
        return rounding::norm(backend::root(d));
    }
    let half: i32 = half_of(rounding::ilogb(d));
    let near = scalbn(d, -2 * half);
    let one = Decimal::small(1);
    let root = if num_eq(near, one) {
        one
    } else {
        backend::root(near)
    };
    proof {
        decimal::lemma_limbs_bound(d.limbs@);
        decimal::lemma_limbs_bound(root.limbs@);
        if backend::same_number(near@, one@) {
            results::lemma_one_squares(near@);
        }
        results::lemma_root_found(d@, root@);
    }
    scalbn(root, half)
}

/// The natural logarithm that the wide type gives: that of zero is the negative
/// infinity, that of one is zero, a negative value has none.
pub open spec fn logarithm_value(v: DecimalView) -> DecimalView {
    if v is NotANumber || (v is Finite && !v.is_zero() && v.negative()) {
        DecimalView::NotANumber { negative: false }
    } else if v.is_zero() {
        DecimalView::Infinite { negative: true }
    } else if v == DecimalView::one() {
        DecimalView::zero()
    } else {
        backend::logarithm_of(v)
    }
}

/// Natural logarithm, rounded to the format.
pub fn ln(d: Decimal) -> (r: Decimal)
    ensures
        r@ == rounding::normalized(logarithm_value(d@)),
        backend::at_least_two(d@) ==> !(r@ is NotANumber) && !r@.negative(),
        backend::at_most_half(d@) ==> !(r@ is NotANumber) && (r@.negative() || r@.is_zero()),
        rounding::in_format(r@),
        rounding::narrow(r@),
{
    let wide = backend::logarithm(d);
    proof {
        if let DecimalView::Finite { coefficient: c, scale: s, .. } = d@ {
            if c > 0 {
                results::lemma_two_and_half(c, s);
            }
        }
    }
    rounding::norm(wide)
}

/// Half of an integer, rounded down.
fn half_of(n: i32) -> (h: i32)
    ensures
        h == n as int / 2,
{
    if n >= 0 || n % 2 == 0 {
        n / 2
    } else {
        n / 2 - 1
    }
}

/// Where a result lies: above the format's range, below it, or within reach of being
/// computed.
#[derive(Clone, Copy, Debug, PartialEq, Eq, Structural)]
pub enum Magnitude {
    Above,
    Below,
    Within,
}

/// An argument from which on an exponential is above the format's range: it is more
/// than `10^6145` there.
pub const EXPONENTIAL_ABOVE: u64 = 14150;

/// How far below zero an argument is from which on an exponential is below the format's
/// range: it is less than `10^-6177` there.
pub const EXPONENTIAL_BELOW: u64 = 14224;

/// The exponential behind `exp`: that of zero is one, one out of the format's range is
/// infinite or zero, and others are computed.
pub open spec fn raw_exponential(v: DecimalView) -> DecimalView {
    let above = DecimalView::Finite {
        negative: false,
        coefficient: EXPONENTIAL_ABOVE as nat,
        scale: 0,
    };
    let below = DecimalView::Finite {
        negative: true,
        coefficient: EXPONENTIAL_BELOW as nat,
        scale: 0,
    };
    if v is NotANumber {
        DecimalView::NotANumber { negative: false }
    } else if v.is_zero() {
        DecimalView::one()
    } else if number_order(v, above) >= 0 {
        DecimalView::Infinite { negative: false }
    } else if number_order(v, below) <= 0 {
        DecimalView::zero()
    } else {
        backend::exponential_of(v)
    }
}

/// `e` to the power of a value, rounded to the format.
pub fn exp(d: Decimal) -> (r: Decimal)
    ensures
        r@ == rounding::normalized(raw_exponential(d@)),
        d@ is Finite && !d@.is_zero() ==> backend::beside_one(r@, !d@.negative()),
        d@ is Finite && !d@.is_zero() ==> results::inverse_powers(
            r@,
            rounding::normalized(raw_exponential(d@.negated())),
        ),
        rounding::in_format(r@),
        rounding::narrow(r@),
{
    if d.nan {
        return rounding::norm(d);
    }
    if d.is_zero() {
        return rounding::norm(Decimal::small(1));
    }
    if num_ge(d, Decimal::small(EXPONENTIAL_ABOVE)) {
        return rounding::norm(Decimal::infinity(false));
    }
    if num_le(d, Decimal::small(EXPONENTIAL_BELOW).negated()) {
        let zero = Decimal::small(0);
        proof {
            results::lemma_zero_beside_one();
            laws::lemma_zero_stays(zero@);
        }
        return rounding::norm(zero);
    }
    proof {
        if let DecimalView::Finite { coefficient: c, scale: s, .. } = d@ {
            scales::lemma_order_chain(c, s, EXPONENTIAL_ABOVE as nat, 0, 70000, 0);
            scales::lemma_order_chain(c, s, EXPONENTIAL_BELOW as nat, 0, 70000, 0);
        }
    }
    let wide = backend::exponential(d);
    proof {
        results::law_format_keeps_side_of_one(wide@, !d@.negative());
        results::lemma_reciprocals(wide@, backend::exponential_of(d@.negated()));
        results::lemma_zero_beside_one();
        laws::lemma_zero_stays(DecimalView::zero());
    }
    rounding::norm(wide)
}

/// The power of a magnitude that the operands settle by themselves: one stays one, and
/// keeps trailing zeros where a natural exponent multiplies it with itself; a NaN gives
/// a NaN, and with an infinite operand the power is infinite where it grows and zero
/// where it shrinks.
pub open spec fn settled_size(base: DecimalView, exponent: DecimalView) -> Option<DecimalView> {
    let size = base.magnitude();
    if backend::same_number(size, DecimalView::one()) {
        match backend::known_power(size, exponent) {
            Some(v) => Some(v),
            None => Some(DecimalView::one()),
        }
    } else if base is NotANumber || exponent is NotANumber {
        Some(DecimalView::NotANumber { negative: false })
    } else if base is Infinite || exponent is Infinite {
        if (number_order(size, DecimalView::one()) > 0) != exponent.negative() {
            Some(DecimalView::Infinite { negative: false })
        } else {
            Some(DecimalView::zero())
        }
    } else {
        None
    }
}

/// Whether a power is left to be computed: neither operand is zero, a negative base
/// has an integer for its exponent, and the operands do not settle the power.
pub open spec fn power_computed(base: DecimalView, exponent: DecimalView) -> bool {
    !exponent.is_zero() && !base.is_zero() && (base.negative() ==> parity(exponent) is Some)
        && settled_size(base, exponent) is None
}

/// Whether a power lies where it is said to: it is at least `10^6145`, at most
/// `10^-6177`, or in reach.
pub open spec fn range_holds(
    base: DecimalView,
    exponent: DecimalView,
    magnitude: Magnitude,
) -> bool {
    match magnitude {
        Magnitude::Above => if exponent.negative() {
            backend::power_at_most(base, exponent, -6145)
        } else {
            backend::power_at_least(base, exponent, 6145)
        },
        Magnitude::Below => if exponent.negative() {
            backend::power_at_least(base, exponent, 6177)
        } else {
            backend::power_at_most(base, exponent, -6177)
        },
        Magnitude::Within => backend::power_in_reach(base, exponent),
    }
}

/// A power, given the power of the base's magnitude. Anything to the power of zero is
/// one; a zero base gives zero or infinity by the sign of the exponent; a negative
/// base needs an integer exponent, whose parity gives the sign.
pub open spec fn power_given(
    base: DecimalView,
    exponent: DecimalView,
    size: DecimalView,
) -> DecimalView {
    if exponent.is_zero() {
        DecimalView::one()
    } else if base.is_zero() {
        if exponent.negative() {
            DecimalView::Infinite { negative: false }
        } else {
            DecimalView::zero()
        }
    } else if base.negative() && parity(exponent) is None {
        DecimalView::NotANumber { negative: false }
    } else if base.negative() && parity(exponent) == Some(false) {
        size.negated()
    } else {
        size
    }
}

/// The power of a magnitude: settled by the operands, or out of the format's range, or
/// computed.
pub open spec fn power_size(
    base: DecimalView,
    exponent: DecimalView,
    magnitude: Magnitude,
) -> DecimalView {
    match settled_size(base, exponent) {
        Some(v) => v,
        None => match magnitude {
            Magnitude::Above => DecimalView::Infinite { negative: false },
            Magnitude::Below => DecimalView::zero(),
            Magnitude::Within => match backend::known_power(base.magnitude(), exponent) {
                Some(v) => v,
                None => backend::power_of(base.magnitude(), exponent),
            },
        },
    }
}

/// A power, given where the power of the base's magnitude lies. The magnitude is brought
/// to the format first, so that one below the format's range keeps its sign as a zero.
pub open spec fn raw_power(
    base: DecimalView,
    exponent: DecimalView,
    magnitude: Magnitude,
) -> DecimalView {
    power_given(base, exponent, rounding::normalized(power_size(base, exponent, magnitude)))
}

/// Whether a value is a positive natural number of 31 bits.
pub open spec fn small_natural(v: DecimalView) -> bool {
    backend::natural_exponent(v) matches Some(n) && 0 < n <= i32::MAX
}

/// Whether a value is a positive natural number of 31 bits.
fn is_small_natural(d: Decimal) -> (r: bool)
    ensures
        r == small_natural(d@),
{
    proof {
        if d@ is Finite {
            lemma_small_natural(d@);
        }
    }
    d.is_finite() && !d.negative && !d.is_zero() && has_parity(d) && num_le(
        d,
        Decimal::small(0x7fff_ffff),
    )
}

/// A positive integer is of 31 bits where it is at most the largest one.
proof fn lemma_small_natural(v: DecimalView)
    requires
        v is Finite,
    ensures
        small_natural(v) <==> !v.negative() && !v.is_zero() && parity(v) is Some && number_order(
            v,
            DecimalView::Finite { negative: false, coefficient: 0x7fff_ffff, scale: 0 },
        ) <= 0,
{
    if let DecimalView::Finite { coefficient: c, scale: s, .. } = v {
        let w = vstd::math::max(s, 0);
        assert(digits::pow10(0) == 1);
        assert(c * 1 == c) by (nonlinear_arith);
        digits::lemma_pow10_monotonic(w as nat, w as nat);
        if s > 0 {
            let unit = digits::pow10(s as nat);
            let n = c / unit;
            vstd::arithmetic::div_mod::lemma_fundamental_div_mod(c as int, unit as int);
            if c % unit == 0 {
                assert((n > 0 <==> c > 0) && (n <= 0x7fff_ffff <==> c <= 0x7fff_ffff * unit))
                    by (nonlinear_arith)
                    requires
                        c == unit * n,
                        unit >= 1,
                ;
            }
        } else {
            let unit = digits::pow10((-s) as nat);
            digits::lemma_pow10_monotonic((-s) as nat, (-s) as nat);
            assert(c > 0 <==> c * unit > 0) by (nonlinear_arith)
                requires
                    unit >= 1,
                    c >= 0,
            ;
        }
    }
}

/// A power of a power of ten.
pub proof fn lemma_pow_of_ten(k: nat, p: nat)
    ensures
        vstd::arithmetic::power::pow(digits::pow10(k) as int, p) == digits::pow10(k * p),
    decreases p,
{
    vstd::arithmetic::power::lemma_pow0(digits::pow10(k) as int);
    if p == 0 {
        assert(k * 0 == 0) by (nonlinear_arith);
    } else {
        let r = (p - 1) as nat;
        lemma_pow_of_ten(k, r);
        assert(k * p == k + k * r) by (nonlinear_arith)
            requires
                p == r + 1,
        ;
        digits::lemma_pow10_add(k, k * r);
        reveal(vstd::arithmetic::power::pow);
    }
}

/// One is ten to its scale, which is not negative.
pub proof fn lemma_one_is_padded(c: nat, s: int)
    requires
        backend::finite_order(c, s, 1, 0) == 0,
    ensures
        s >= 0,
        c == digits::pow10(s as nat),
{
    assert(digits::pow10(0) == 1);
    if s < 0 {
        let p = digits::pow10((0 - s) as nat);
        digits::lemma_pow10_monotonic(1, (0 - s) as nat);
        assert(digits::pow10(1) == 10 * digits::pow10(0));
        assert(c * p != 1) by (nonlinear_arith)
            requires
                p >= 10,
                c >= 0,
        ;
    } else {
        assert(1 * digits::pow10(s as nat) == digits::pow10(s as nat)) by (nonlinear_arith);
        assert((s - 0) as nat == s as nat);
    }
}

/// A power of one is in reach.
proof fn lemma_one_in_reach(base: DecimalView, exponent: DecimalView)
    requires
        backend::same_number(base, DecimalView::one()),
        small_natural(exponent),
    ensures
        backend::power_in_reach(base, exponent),
{
    if let DecimalView::Finite { coefficient: c, scale: s, .. } = base {
        let (p, q) = backend::exponent_size(exponent);
        let n = backend::natural_exponent(exponent)->Some_0;
        lemma_one_is_padded(c, s);
        lemma_natural_size(exponent);
        lemma_pow_of_ten(s as nat, p);
        assert(p <= digits::pow10(40) * q) by {
            assert(digits::pow10(10) == 10_000_000_000) by {
                reveal_with_fuel(digits::pow10, 11);
            }
            digits::lemma_pow10_monotonic(10, 40);
            assert(n * q <= digits::pow10(40) * q) by (nonlinear_arith)
                requires
                    n <= digits::pow10(40),
                    q >= 0,
            ;
        }
        assert(s * p >= 0) by (nonlinear_arith)
            requires
                s >= 0,
                p >= 0,
        ;
        let places = (s * p) as nat;
        if s * p - 25000 * q >= 0 {
            digits::lemma_pow10_monotonic((s * p - 25000 * q) as nat, places);
        }
        digits::lemma_pow10_monotonic(places, (s * p + 25000 * q) as nat);
    }
}

/// A natural exponent as a fraction.
pub proof fn lemma_natural_size(exponent: DecimalView)
    requires
        backend::natural_exponent(exponent) is Some,
    ensures
        ({
            let (p, q) = backend::exponent_size(exponent);
            let n = backend::natural_exponent(exponent)->Some_0;
            p == n * q && q >= 1
        }),
{
    if let DecimalView::Finite { coefficient: c, scale: s, .. } = exponent {
        let (p, q) = backend::exponent_size(exponent);
        let n = backend::natural_exponent(exponent)->Some_0;
        assert(digits::pow10(0) == 1);
        assert(n * 1 == n && c * 1 == c && c / 1 == c) by (nonlinear_arith);
        if s > 0 {
            digits::lemma_pow10_monotonic(s as nat, s as nat);
            vstd::arithmetic::div_mod::lemma_fundamental_div_mod(c as int, q as int);
            assert(q * n == n * q) by (nonlinear_arith);
        }
    }
}

/// The power of a magnitude that the operands settle by themselves.
pub fn settle_size(base: Decimal, exponent: Decimal) -> (r: Option<Decimal>)
    ensures
        match r {
            Some(d) => settled_size(base@, exponent@) == Some(d@),
            None => settled_size(base@, exponent@) is None,
        },
{
    let one = Decimal::small(1);
    let size = base.magnitude();
    if num_eq(size, one) {
        if is_small_natural(exponent) {
            proof {
                lemma_one_in_reach(size@, exponent@);
            }
            Some(backend::power(size, exponent))
        } else {
            Some(one)
        }
    } else if base.nan || exponent.nan {
        Some(Decimal::not_a_number())
    } else if base.infinite || exponent.infinite {
        if num_gt(size, one) != exponent.negative {
            Some(Decimal::infinity(false))
        } else {
            Some(Decimal::small(0))
        }
    } else {
        None
    }
}

/// Whether a value is a finite integer.
fn has_parity(d: Decimal) -> (r: bool)
    ensures
        r == (parity(d@) is Some),
{
    proof {
        lemma_integral(d@);
    }
    num_eq(d, backend::trunc(d))
}

/// A power, given the power of the base's magnitude.
pub fn settle_power(base: Decimal, exponent: Decimal, size: Decimal) -> (r: Decimal)
    ensures
        r@ == power_given(base@, exponent@, size@),
{
    if exponent.is_zero() {
        return Decimal::small(1);
    }
    if base.is_zero() {
        return if exponent.negative {
            Decimal::infinity(false)
        } else {
            Decimal::small(0)
        };
    }
    if !base.negative {
        return size;
    }
    match exact_parity(exponent) {
        None => Decimal::not_a_number(),
        Some(even) => if even {
            size
        } else {
            size.negated()
        },
    }
}

/// `base` to the power of `exponent`, before it is rounded.
pub open spec fn power_value(base: DecimalView, exponent: DecimalView) -> DecimalView {
    raw_power(base, exponent, powers::range_of(base.magnitude(), exponent))
}

/// `base` to the power of `exponent`.
pub fn pow(base: Decimal, exponent: Decimal) -> (r: Decimal)
    requires
        rounding::in_format(base@),
        rounding::in_format(exponent@),
    ensures
        r@ == power_value(base@, exponent@),
        backend::at_least_two(base@) && exponent@ is Finite && !exponent@.is_zero()
            ==> backend::beside_one(r@, !exponent@.negative()),
        backend::at_most_half(base@) && exponent@ is Finite && !exponent@.is_zero()
            ==> backend::beside_one(r@, exponent@.negative()),
        both_nonzero(base@, exponent@) && !base@.negative() && !backend::same_number(
            base@,
            DecimalView::one(),
        ) ==> results::inverse_powers(r@, power_value(base@, exponent@.negated())),
{
    if exponent.is_zero() || base.is_zero() || (base.negative && !has_parity(exponent)) {
        return settle_power(base, exponent, Decimal::not_a_number());
    }
    let size = match settle_size(base, exponent) {
        Some(size) => size,
        None => {
            let positive = base.magnitude();
            let range = powers::power_range(positive, exponent);
            proof {
                decimal::lemma_limbs_bound(positive.limbs@);
                decimal::lemma_limbs_bound(exponent.limbs@);
                powers::lemma_range_holds(positive@, exponent@);
            }
            let wide = match range {
                Magnitude::Above => Decimal::infinity(false),
                Magnitude::Below => Decimal::small(0),
                Magnitude::Within => backend::power(positive, exponent),
            };
            proof {
                results::lemma_inverse(positive@, exponent@, wide@);
            }
            wide
        },
    };
    proof {
        if let DecimalView::Finite { coefficient: c, scale: s, .. } = base@ {
            results::lemma_two_and_half(c, s);
            results::lemma_zero_beside_one();
            if backend::at_least_two(base@) {
                results::lemma_beside_one(size@, !exponent@.negative());
            }
            if backend::at_most_half(base@) {
                results::lemma_beside_one(size@, exponent@.negative());
            }
        }
    }
    settle_power(base, exponent, rounding::norm(size))
}

/// A power of a number lies between the powers of ten that bound the number.
pub proof fn lemma_pow_bounds(c: nat, p: nat)
    requires
        c > 0,
    ensures
        digits::pow10(((digits::digit_count(c) - 1) * p) as nat) <= vstd::arithmetic::power::pow(
            c as int,
            p,
        ) <= digits::pow10(digits::digit_count(c) * p),
    decreases p,
{
    let n = digits::digit_count(c);
    digits::lemma_digit_count_bounds(c);
    vstd::arithmetic::power::lemma_pow0(c as int);
    if p > 0 {
        let r = (p - 1) as nat;
        lemma_pow_bounds(c, r);
        let low = digits::pow10((n - 1) as nat);
        let high = digits::pow10(n);
        let low_rest = digits::pow10(((n - 1) * r) as nat);
        let high_rest = digits::pow10(n * r);
        let rest = vstd::arithmetic::power::pow(c as int, r);
        assert((n - 1) * p == (n - 1) + (n - 1) * r && n * p == n + n * r && (n - 1) * r >= 0)
            by (nonlinear_arith)
            requires
                p == r + 1,
                n >= 1,
        ;
        digits::lemma_pow10_add((n - 1) as nat, ((n - 1) * r) as nat);
        digits::lemma_pow10_add(n, n * r);
        reveal(vstd::arithmetic::power::pow);
        assert(low * low_rest <= c * rest && c * rest <= high * high_rest) by (nonlinear_arith)
            requires
                0 <= low <= c,
                c <= high,
                0 <= low_rest <= rest,
                rest <= high_rest,
        ;
    } else {
        assert((n - 1) * 0 == 0 && n * 0 == 0) by (nonlinear_arith);
    }
}

/// Whether `q * 10^-j` is the nearest to `c / d` with at most 34 digits: within half a
/// unit of its last digit, from a tie the even one, and with all 34 digits unless it
/// is exact. Below a power of ten the units are ten times finer.
pub open spec fn nearest_quotient(c: nat, d: nat, q: nat, j: nat) -> bool {
    let gap = q * d - c * digits::pow10(j);
    &&& -(d as int) <= 2 * gap <= d
    &&& 2 * gap == d || 2 * gap == -(d as int) ==> q % 2 == 0
    &&& q < digits::pow10(34)
    &&& gap == 0 || q >= digits::pow10(33)
    &&& q == digits::pow10(33) ==> 20 * gap <= d
}

/// Whether a value is the quotient of two others, rounded once: the nearest of at most
/// 34 digits to the quotient of their significant digits, fitted into the format.
pub open spec fn rounded_quotient(a: DecimalView, b: DecimalView, r: DecimalView) -> bool {
    match (a, b) {
        (
            DecimalView::Finite { negative: m, coefficient: c, scale: s },
            DecimalView::Finite { negative: n, coefficient: d, scale: t },
        ) => {
            let (x, v) = rounding::to_precision(c, s);
            let (y, w) = rounding::to_precision(d, t);
            exists|q: nat, j: nat| #[trigger]
                nearest_quotient(x, y, q, j) && r == rounding::fitted(m != n, q, v - w + j)
        },
        _ => false,
    }
}

/// Rounding a long quotient to 34 digits gives the nearest one.
proof fn lemma_nearest_quotient(c: nat, d: nat, e: nat, k: nat)
    requires
        0 < c < digits::pow10(34),
        0 < d < digits::pow10(34),
        backend::long_quotient(c, d, e, k),
    ensures
        ({
            let (q, j) = rounding::to_precision(e, k as int);
            j >= 0 && nearest_quotient(c, d, q, j as nat)
        }),
{
    let n = digits::digit_count(e) - rounding::PRECISION;
    digits::lemma_digit_count_bounds(e);
    if n <= 0 {
        digits::lemma_digit_count_at_most(e, 34);
        digits::lemma_pow10_monotonic(34, 75);
    } else {
        let n = n as nat;
        lemma_enough_places(c, d, e, k, n);
        let j = (k - n) as nat;
        let w = digits::pow10(n);
        let q = rounding::half_even_quotient(e, n);
        rounding::lemma_half_even_digits(e);
        lemma_nearest_at(c, d, e, k, n);
        if q == digits::pow10(34) {
            lemma_nearest_carry(c, d, j);
        }
    }
}

/// A quotient with more than 34 digits has at least as many places as it has digits
/// to spare.
proof fn lemma_enough_places(c: nat, d: nat, e: nat, k: nat, n: nat)
    requires
        0 < c < digits::pow10(34),
        0 < d < digits::pow10(34),
        backend::long_quotient(c, d, e, k),
        n > 0,
        digits::digit_count(e) == 34 + n,
    ensures
        k >= n,
{
    if k < n {
        let p = digits::pow10(k);
        let r = digits::pow10((n - 1) as nat);
        let high = digits::pow10(34);
        digits::lemma_digit_count_bounds(e);
        digits::lemma_pow10_monotonic(k, (n - 1) as nat);
        digits::lemma_pow10_add(34, (n - 1) as nat);
        assert(34 + (n - 1) as nat == (digits::digit_count(e) - 1) as nat);
        assert(e * d - c * p >= r && e * d >= e) by (nonlinear_arith)
            requires
                e >= high * r,
                c <= high - 1,
                1 <= p <= r,
                d >= 1,
                high >= 1,
                c >= 0,
        ;
        if e >= digits::pow10(75) {
            digits::lemma_digit_count_at_most(e, 75);
            lemma_small_powers();
            digits::lemma_pow10_monotonic(41, (n - 1) as nat);
            // The gap grows with the divisor, and beats a hundred units of it.
            assert(e * d - c * p > 100 * d) by (nonlinear_arith)
                requires
                    e >= high * r,
                    c <= high - 1,
                    1 <= p <= r,
                    d >= 1,
                    r >= 1000,
                    high >= 1000,
                    c >= 0,
            ;
        }
    }
}

/// A few powers of ten.
proof fn lemma_small_powers()
    ensures
        digits::pow10(3) == 1000,
        digits::pow10(41) >= 1000,
        digits::pow10(34) >= 1000,
        digits::pow10(42) == 100_000_000 * digits::pow10(34),
        digits::pow10(36) == 100 * digits::pow10(34),
        digits::pow10(36) <= digits::pow10(75),
{
    assert(digits::pow10(3) == 1000) by {
        reveal_with_fuel(digits::pow10, 4);
    }
    assert(digits::pow10(8) == 100_000_000) by {
        reveal_with_fuel(digits::pow10, 9);
    }
    assert(digits::pow10(2) == 100) by {
        reveal_with_fuel(digits::pow10, 3);
    }
    digits::lemma_pow10_monotonic(3, 41);
    digits::lemma_pow10_monotonic(3, 34);
    digits::lemma_pow10_monotonic(36, 75);
    digits::lemma_pow10_add(8, 34);
    digits::lemma_pow10_add(2, 34);
}

/// Rounding half to even to 34 digits is nearest to the quotient itself.
proof fn lemma_nearest_at(c: nat, d: nat, e: nat, k: nat, n: nat)
    requires
        0 < c < digits::pow10(34),
        0 < d < digits::pow10(34),
        backend::long_quotient(c, d, e, k),
        0 < n <= k,
        digits::digit_count(e) == 34 + n,
    ensures
        ({
            let q = rounding::half_even_quotient(e, n);
            let gap = q * d - c * digits::pow10((k - n) as nat);
            &&& -(d as int) <= 2 * gap <= d
            &&& 2 * gap == d || 2 * gap == -(d as int) ==> q % 2 == 0
            &&& q == digits::pow10(33) ==> gap <= 0
        }),
{
    let j = (k - n) as nat;
    let w = digits::pow10(n) as int;
    let q = rounding::half_even_quotient(e, n) as int;
    let big = (c * digits::pow10(j)) as int;
    let moved = q * w - e;
    let rest = e * d - c * digits::pow10(k);
    let gap = q * d - big;
    digits::lemma_pow10_monotonic(n, n);
    digits::lemma_pow10_add(j, n);
    assert(c * digits::pow10(k) == big * w) by (nonlinear_arith)
        requires
            digits::pow10(k) == digits::pow10(j) * w,
            big == c * digits::pow10(j),
    ;
    lemma_half_even_nearest(e, n);
    assert(gap * w == moved * d + rest) by (nonlinear_arith)
        requires
            gap == q * d - big,
            moved == q * w - e,
            rest == e * d - big * w,
    ;
    if q == digits::pow10(33) {
        digits::lemma_digit_count_bounds(e);
        digits::lemma_pow10_add(33, n);
        assert(33 + n == (digits::digit_count(e) - 1) as nat);
    }
    if rest == 0 {
        if q == digits::pow10(33) {
            assert(gap <= 0) by (nonlinear_arith)
                requires
                    gap * w == moved * d,
                    moved <= 0,
                    w >= 1,
                    d > 0,
            ;
        }
        assert(-(d as int) <= 2 * gap <= d) by (nonlinear_arith)
            requires
                gap * w == moved * d,
                -w <= 2 * moved <= w,
                w >= 1,
                d > 0,
        ;
        assert((2 * gap == d ==> 2 * moved == w) && (2 * gap == -(d as int) ==> 2 * moved == -w))
            by (nonlinear_arith)
            requires
                gap * w == moved * d,
                w >= 1,
                d > 0,
        ;
    } else {
        digits::lemma_digit_count_at_most(e, 75);
        lemma_small_powers();
        digits::lemma_pow10_monotonic(42, n);
        if q == digits::pow10(33) {
            assert(gap <= 0) by (nonlinear_arith)
                requires
                    gap * w == moved * d + rest,
                    moved <= 0,
                    rest <= 100 * d,
                    w > 1000 * d,
                    d > 0,
            ;
        }
        assert(-(d as int) <= 2 * gap <= d) by (nonlinear_arith)
            requires
                gap * w == moved * d + rest,
                -w <= 2 * moved <= w,
                -100 * d <= rest <= 100 * d,
                w > 1000 * d,
                d > 0,
        ;
        if 2 * gap == d || 2 * gap == -(d as int) {
            // A quotient half way between two neighbours ends after one more digit.
            let f = if 2 * gap == d {
                5 * (2 * q - 1)
            } else {
                5 * (2 * q + 1)
            };
            let p = digits::pow10(j);
            assert(c * (10 * p) == f * d) by (nonlinear_arith)
                requires
                    big == c * p,
                    gap == q * d - big,
                    2 * gap == d && f == 5 * (2 * q - 1) || 2 * gap == -(d as int) && f == 5 * (2 * q
                        + 1),
            ;
            rounding::lemma_half_even_digits(e);
            digits::lemma_pow10_monotonic(0, 33);
            assert(digits::pow10(j + 1) == 10 * p);
            rounding::lemma_quotient(f as nat, d, 0);
            assert(backend::divides_at(c, d, j + 1));
        }
    }
}

/// Half-even rounding in terms of what it moves a number by.
pub proof fn lemma_half_even_nearest(c: nat, k: nat)
    ensures
        ({
            let w = digits::pow10(k) as int;
            let q = rounding::half_even_quotient(c, k) as int;
            let moved = q * w - c;
            &&& -w <= 2 * moved <= w
            &&& 2 * moved == w || 2 * moved == -w ==> q % 2 == 0
        }),
{
    let w = digits::pow10(k) as int;
    digits::lemma_pow10_monotonic(k, k);
    vstd::arithmetic::div_mod::lemma_fundamental_div_mod(c as int, w);
    let whole = c as int / w;
    assert(w * whole == whole * w && (whole + 1) * w == whole * w + w) by (nonlinear_arith);
}

/// Where rounding carries into a 35th digit, the next power of ten is as near.
proof fn lemma_nearest_carry(c: nat, d: nat, j: nat)
    requires
        0 < c < digits::pow10(34),
        0 < d,
        -(d as int) <= 2 * (digits::pow10(34) * d - c * digits::pow10(j)) <= d,
    ensures
        j > 0,
        nearest_quotient(c, d, digits::pow10(33), (j - 1) as nat),
{
    let high = digits::pow10(34);
    let low = digits::pow10(33);
    assert(high == 10 * low);
    digits::lemma_pow10_monotonic(0, 33);
    if j == 0 {
        assert(digits::pow10(0) == 1);
        assert(2 * (high * d - c * 1) > d) by (nonlinear_arith)
            requires
                c <= high - 1,
                d >= 1,
                high >= 1,
        ;
    }
    let p = digits::pow10((j - 1) as nat);
    assert(digits::pow10(j) == 10 * p);
    assert(high * d - c * (10 * p) == 10 * (low * d - c * p)) by (nonlinear_arith)
        requires
            high == 10 * low,
    ;
}

/// Whether a value is the integer `n` at scale 0.
pub open spec fn is_integer_value(v: DecimalView, n: int) -> bool {
    v matches DecimalView::Finite { negative, coefficient, scale } && scale == 0
        && decimal::signed(negative, coefficient) == n
}

} // verus!
