//! What holds of the roundings at a scale.

use crate::arithmetic;
use crate::backend;
use crate::decimal;
use crate::decimal::DecimalView;
use crate::digits;
use crate::number;
use crate::rounding;
use crate::scales;
use vstd::prelude::*;

verus! {

/// The sizes that an allowed scale leaves: the value moved by the scale is in the
/// format's range, and its scale is one that a decimal has.
pub proof fn lemma_allowed(v: DecimalView, c: nat, s: int, scale: int)
    requires
        v matches DecimalView::Finite { coefficient, scale: t, .. } && coefficient == c && t == s,
        0 < c < decimal::coefficient_limit(),
        rounding::in_format(v),
        scale != 0,
        number::scale_allowed(v, scale),
    ensures
        rounding::MIN_ADJUSTED_EXPONENT <= decimal::adjusted_exponent(c, s) + scale
            <= rounding::MAX_ADJUSTED_EXPONENT,
        -6111 <= s <= 6253,
        -12255 <= scale <= 12320,
{
    rounding::lemma_coefficient_digits(c);
    digits::lemma_digit_count_bounds(c);
}

/// An integer at or beyond a moved value is, moved back, at or beyond the value.
proof fn lemma_back_outward(negative: bool, e: nat, u: int, c: nat, s: int, scale: int)
    requires
        c > 0,
        e > 0,
        rounding::significant(e),
        rounding::MIN_ADJUSTED_EXPONENT <= decimal::adjusted_exponent(c, s),
        i16::MIN <= u + scale <= i16::MAX,
        backend::finite_order(e, u, c, s - scale) >= 0,
    ensures
        ({
            let r = number::unscaled(
                DecimalView::Finite { negative, coefficient: e, scale: u },
                scale,
                false,
            );
            &&& r.negative() == negative
            &&& !r.is_zero()
            &&& !(r is NotANumber)
            &&& backend::magnitude_order(
                r,
                DecimalView::Finite { negative, coefficient: c, scale: s },
            ) >= 0
        }),
{
    scales::lemma_order_of_leading(e, u, c, s - scale);
    if decimal::adjusted_exponent(e, u + scale) > rounding::MAX_ADJUSTED_EXPONENT {
        scales::lemma_surplus_zeros(e, u + scale);
        rounding::lemma_to_precision(e, u + scale);
    } else {
        scales::lemma_kept(negative, e, u + scale);
        if let DecimalView::Finite { coefficient: d, scale: t, .. } = rounding::normalized(
            DecimalView::Finite { negative, coefficient: e, scale: u + scale },
        ) {
            scales::lemma_order_chain(d, t, e, u + scale, c, s);
        }
    }
}

/// An integer at or within a moved value is, moved back, at or within the value.
proof fn lemma_back_inward(negative: bool, e: nat, u: int, c: nat, s: int, scale: int)
    requires
        c > 0,
        rounding::significant(e),
        decimal::adjusted_exponent(c, s) <= rounding::MAX_ADJUSTED_EXPONENT,
        i16::MIN <= u + scale <= i16::MAX,
        e > 0 ==> backend::finite_order(e, u, c, s - scale) <= 0,
    ensures
        ({
            let r = number::unscaled(
                DecimalView::Finite { negative, coefficient: e, scale: u },
                scale,
                false,
            );
            &&& r is Finite
            &&& r.negative() == negative || r.is_zero()
            &&& r.is_zero() || backend::magnitude_order(
                r,
                DecimalView::Finite { negative, coefficient: c, scale: s },
            ) <= 0
        }),
{
    if e > 0 {
        scales::lemma_order_chain(e, u, c, s - scale, e, u);
        scales::lemma_order_of_leading(c, s - scale, e, u);
        if decimal::adjusted_exponent(e, u + scale) < rounding::MIN_ADJUSTED_EXPONENT {
            scales::lemma_surplus_zeros(e, u + scale);
            rounding::lemma_to_precision(e, u + scale);
        } else {
            scales::lemma_kept(negative, e, u + scale);
            if let DecimalView::Finite { coefficient: d, scale: t, .. } = rounding::normalized(
                DecimalView::Finite { negative, coefficient: e, scale: u + scale },
            ) {
                scales::lemma_order_chain(d, t, e, u + scale, c, s);
            }
        }
    }
}

/// Where the integers near a value stand to it: outwards at or beyond, inwards at or
/// within.
proof fn lemma_integer_near(negative: bool, c: nat, s: int, outward: bool)
    ensures
        backend::integer_near(
            negative,
            c,
            s,
            outward,
        ) matches DecimalView::Finite { negative: m, coefficient: e, scale: u } && m == negative
            && (u == s || u == 0) && (outward ==> (c > 0 ==> e > 0) && backend::finite_order(
            e,
            u,
            c,
            s,
        ) >= 0) && (!outward ==> backend::finite_order(e, u, c, s) <= 0),
{
    assert(digits::pow10(0) == 1);
    if !backend::integral(c, s) {
        let unit = digits::pow10(s as nat);
        let whole = c / unit;
        digits::lemma_pow10_monotonic(s as nat, s as nat);
        vstd::arithmetic::div_mod::lemma_fundamental_div_mod(c as int, unit as int);
        assert(whole * unit <= c < (whole + 1) * unit) by (nonlinear_arith)
            requires
                c == unit * whole + c % unit,
                0 <= c % unit < unit,
        ;
        assert(whole >= 0) by (nonlinear_arith)
            requires
                whole == c / unit,
                unit >= 1,
        ;
        assert((s - 0) as nat == s as nat);
    }
}

/// Cutting off the fraction of a value gives one at or within it.
proof fn lemma_truncated(negative: bool, c: nat, s: int)
    ensures
        backend::truncated(
            negative,
            c,
            s,
        ) matches DecimalView::Finite { negative: m, coefficient: e, scale: u } && m == negative
            && (s <= u <= 0 || u == 0) && backend::finite_order(e, u, c, s) <= 0,
{
    assert(digits::pow10(0) == 1);
    if s > 0 {
        let unit = digits::pow10(s as nat);
        let whole = c / unit;
        digits::lemma_pow10_monotonic(s as nat, s as nat);
        vstd::arithmetic::div_mod::lemma_fundamental_div_mod(c as int, unit as int);
        assert(whole * unit <= c) by (nonlinear_arith)
            requires
                c == unit * whole + c % unit,
                0 <= c % unit < unit,
        ;
        assert((s - 0) as nat == s as nat);
    } else if c == 0 {
        assert(0 * digits::pow10((0 - s) as nat) == 0) by (nonlinear_arith);
    } else {
        let k = if 0 - s <= backend::room(c) {
            (0 - s) as nat
        } else {
            backend::room(c)
        };
        scales::lemma_padded_order(c, s, k);
    }
}

/// Rounding to the next integer, outwards or inwards, at a scale: outwards the result
/// is at or beyond the value, inwards at or within it, and on its side of zero.
proof fn lemma_near_at(v: DecimalView, scale: int, outward: bool)
    requires
        v.representable(),
        rounding::in_format(v),
        v is Finite,
        !v.is_zero(),
        scale != 0,
        number::scale_allowed(v, scale),
    ensures
        rounding::normalized(
            arithmetic::shifted(v, scale),
        ) matches DecimalView::Finite { negative: m, coefficient: x, scale: w } && m
            == v.negative() && ({
            let r = number::unscaled(backend::integer_near(m, x, w, outward), scale, false);
            let cut = number::unscaled(backend::truncated(m, x, w), scale, false);
            &&& outward ==> !(r is NotANumber) && r.negative() == m && !r.is_zero()
                && backend::magnitude_order(r, v) >= 0
            &&& !outward ==> r is Finite && (r.is_zero() || r.negative() == m
                && backend::magnitude_order(r, v) <= 0)
            &&& cut is Finite && (cut.is_zero() || cut.negative() == m
                && backend::magnitude_order(cut, v) <= 0)
        }),
{
    if let DecimalView::Finite { negative, coefficient: c, scale: s } = v {
        lemma_allowed(v, c, s, scale);
        scales::lemma_moved(negative, c, s, scale);
        let moved = rounding::normalized(arithmetic::shifted(v, scale));
        rounding::lemma_normalized_in_format(arithmetic::shifted(v, scale));
        if let DecimalView::Finite { coefficient: x, scale: w, .. } = moved {
            rounding::lemma_precision_fits(x);
            lemma_integer_near(negative, x, w, outward);
            lemma_truncated(negative, x, w);
            arithmetic::lemma_integers_in_format(moved);
            digits::lemma_digit_count_bounds(x);
            digits::lemma_digit_count_bounds(0);
            assert(rounding::significant(0));
            assert(backend::integer_near(negative, x, w, outward) == arithmetic::floor_of(moved)
                || backend::integer_near(negative, x, w, outward) == arithmetic::ceil_of(moved));
            if let DecimalView::Finite { coefficient: e, scale: u, .. } = backend::integer_near(
                negative,
                x,
                w,
                outward,
            ) {
                scales::lemma_order_chain(e, u, x, w, c, s - scale);
                if outward {
                    lemma_back_outward(negative, e, u, c, s, scale);
                } else {
                    lemma_back_inward(negative, e, u, c, s, scale);
                }
            }
            if let DecimalView::Finite { coefficient: e, scale: u, .. } = backend::truncated(
                negative,
                x,
                w,
            ) {
                scales::lemma_order_chain(e, u, x, w, c, s - scale);
                lemma_back_inward(negative, e, u, c, s, scale);
            }
        }
    }
}

/// Zero is an integer at every scale.
pub proof fn lemma_zero_is_integral(s: int)
    ensures
        backend::integral(0, s),
{
    if s > 0 {
        digits::lemma_pow10_monotonic(s as nat, s as nat);
        assert(0nat % digits::pow10(s as nat) == 0) by (nonlinear_arith)
            requires
                digits::pow10(s as nat) >= 1,
        ;
    }
}

/// The ceiling of a number, at every scale that is allowed, is at or above the number.
pub proof fn law_ceiling_is_above(v: DecimalView, scale: int)
    requires
        v.representable(),
        rounding::in_format(v),
        !(v is NotANumber),
        number::scale_allowed(v, scale),
    ensures
        arithmetic::number_order(number::ceiling_value(v, scale), v) >= 0,
{
    if let DecimalView::Finite { negative, coefficient: c, scale: s } = v {
        lemma_integer_near(negative, c, s, !negative);
        if c > 0 && scale != 0 {
            lemma_near_at(v, scale, !negative);
        }
    }
}

/// The floor of a number, at every scale that is allowed, is at or below the number.
pub proof fn law_floor_is_below(v: DecimalView, scale: int)
    requires
        v.representable(),
        rounding::in_format(v),
        !(v is NotANumber),
        number::scale_allowed(v, scale),
    ensures
        arithmetic::number_order(number::floor_value(v, scale), v) <= 0,
{
    if let DecimalView::Finite { negative, coefficient: c, scale: s } = v {
        lemma_integer_near(negative, c, s, negative);
        if c > 0 && scale != 0 {
            lemma_near_at(v, scale, negative);
        }
    }
}

/// A value with the point further left is no larger.
proof fn lemma_further_left(c: nat, s: int, t: int)
    requires
        s <= t,
    ensures
        backend::finite_order(c, t, c, s) <= 0,
{
    let p = digits::pow10((t - s) as nat);
    digits::lemma_pow10_monotonic((t - s) as nat, (t - s) as nat);
    assert(c <= c * p) by (nonlinear_arith)
        requires
            p >= 1,
            c >= 0,
    ;
}

/// Rounding a number down does not take it away from zero or past it, at every scale
/// that is allowed; left out are the numbers of which one unit at a positive scale is
/// left.
pub proof fn law_round_down_is_inward(v: DecimalView, scale: int)
    requires
        v.representable(),
        rounding::in_format(v),
        !(v is NotANumber),
        number::scale_allowed(v, scale),
        scale > 0 ==> !number::is_unit(arithmetic::trunc_of(number::moved(v, scale))),
    ensures
        ({
            let r = number::round_down_value(v, scale);
            &&& r.is_zero() || r.negative() == v.negative()
            &&& arithmetic::number_order(r.magnitude(), v.magnitude()) <= 0
        }),
{
    if let DecimalView::Finite { negative, coefficient: c, scale: s } = v {
        lemma_truncated(negative, c, s);
        if c > 0 && scale != 0 {
            lemma_near_at(v, scale, false);
            if number::is_unit(arithmetic::trunc_of(number::moved(v, scale))) {
                lemma_unit_inward(v, scale);
            }
        }
    }
}

/// One is at or within a number of which one unit at a negative scale is left.
proof fn lemma_unit_inward(v: DecimalView, scale: int)
    requires
        v.representable(),
        rounding::in_format(v),
        v is Finite,
        !v.is_zero(),
        scale < 0,
        number::scale_allowed(v, scale),
        number::is_unit(arithmetic::trunc_of(number::moved(v, scale))),
    ensures
        backend::magnitude_order(DecimalView::one(), v) <= 0,
        arithmetic::trunc_of(number::moved(v, scale)).negative() == v.negative(),
        !arithmetic::trunc_of(number::moved(v, scale)).is_zero(),
{
    if let DecimalView::Finite { negative, coefficient: c, scale: s } = v {
        lemma_allowed(v, c, s, scale);
        scales::lemma_moved(negative, c, s, scale);
        if let DecimalView::Finite { coefficient: x, scale: w, .. } = number::moved(v, scale) {
            lemma_truncated(negative, x, w);
            if let DecimalView::Finite { coefficient: e, scale: u, .. } = backend::truncated(
                negative,
                x,
                w,
            ) {
                lemma_unit_not_zero(e, u);
                scales::lemma_order_chain(e, u, 1, 0, e, u);
                scales::lemma_order_chain(e, u, x, w, c, s - scale);
                scales::lemma_order_chain(1, 0, e, u, c, s - scale);
                lemma_further_left(c, s, s - scale);
                scales::lemma_order_chain(1, 0, c, s - scale, c, s);
            }
        }
    }
}

/// What is one in size is not zero.
proof fn lemma_unit_not_zero(e: nat, u: int)
    requires
        number::is_unit(DecimalView::Finite { negative: false, coefficient: e, scale: u }),
    ensures
        e > 0,
        backend::finite_order(e, u, 1, 0) == 0,
{
    let w = vstd::math::max(u, 0);
    scales::lemma_order_at(e, u, 1, 0, w);
    digits::lemma_pow10_monotonic((w - 0) as nat, (w - 0) as nat);
    let p = digits::pow10((w - u) as nat);
    let q = digits::pow10((w - 0) as nat);
    assert(0 * p == 0 && 1 * q >= 1) by (nonlinear_arith)
        requires
            q >= 1,
    ;
}

/// Rounding a number up does not take it towards zero or past it, at every scale that
/// is allowed; left out are the numbers beyond one that are brought to one unit at a
/// negative scale.
pub proof fn law_round_up_is_outward(v: DecimalView, scale: int)
    requires
        v.representable(),
        rounding::in_format(v),
        !(v is NotANumber),
        number::scale_allowed(v, scale),
        scale < 0 && arithmetic::number_order(v.magnitude(), DecimalView::one()) > 0
            ==> !number::is_unit(arithmetic::ceil_of(number::moved(v.magnitude(), scale))),
    ensures
        ({
            let r = number::round_up_value(v, scale);
            &&& r.is_zero() == v.is_zero()
            &&& r.is_zero() || r.negative() == v.negative()
            &&& arithmetic::number_order(r.magnitude(), v.magnitude()) >= 0
        }),
{
    if let DecimalView::Finite { negative, coefficient: c, scale: s } = v {
        lemma_integer_near(negative, c, s, true);
        if c == 0 {
            lemma_zero_is_integral(s);
            if let DecimalView::Finite { scale: t, .. } = arithmetic::shifted(v, scale) {
                lemma_zero_is_integral(t);
                rounding::lemma_to_precision(0, t);
            }
        } else if scale != 0 {
            lemma_near_at(v, scale, true);
            lemma_unit_outward(v, scale);
        }
    }
}

/// The next integer away from zero from a moved number lies on its side of zero; where
/// that is one unit at a positive scale, the number is at most one.
proof fn lemma_unit_outward(v: DecimalView, scale: int)
    requires
        v.representable(),
        rounding::in_format(v),
        v is Finite,
        !v.is_zero(),
        scale != 0,
        number::scale_allowed(v, scale),
    ensures
        number::moved(v, scale) matches DecimalView::Finite {
            negative: m,
            coefficient: x,
            scale: w,
        } && m == v.negative() && ({
            let n = backend::integer_near(m, x, w, true);
            &&& n.negative() == m && !n.is_zero()
            &&& number::is_unit(n) == number::is_unit(
                arithmetic::ceil_of(number::moved(v.magnitude(), scale)),
            )
            &&& number::is_unit(n) && scale > 0 ==> backend::magnitude_order(
                DecimalView::one(),
                v,
            ) >= 0
        }),
{
    if let DecimalView::Finite { negative, coefficient: c, scale: s } = v {
        lemma_allowed(v, c, s, scale);
        scales::lemma_moved(negative, c, s, scale);
        scales::lemma_moved(false, c, s, scale);
        if let DecimalView::Finite { coefficient: x, scale: w, .. } = number::moved(v, scale) {
            lemma_integer_near(negative, x, w, true);
            assert(number::moved(v.magnitude(), scale) == (DecimalView::Finite {
                negative: false,
                coefficient: x,
                scale: w,
            }));
            if let DecimalView::Finite { coefficient: e, scale: u, .. } = backend::integer_near(
                negative,
                x,
                w,
                true,
            ) {
                assert(arithmetic::ceil_of(number::moved(v.magnitude(), scale)) == (
                DecimalView::Finite { negative: false, coefficient: e, scale: u }));
                if number::is_unit(backend::integer_near(negative, x, w, true)) && scale > 0 {
                    lemma_unit_not_zero(e, u);
                    scales::lemma_order_chain(e, u, 1, 0, e, u);
                    scales::lemma_order_chain(e, u, x, w, c, s - scale);
                    scales::lemma_order_chain(1, 0, e, u, c, s - scale);
                    lemma_further_left(c, s - scale, s);
                    scales::lemma_order_chain(c, s, c, s - scale, c, s);
                    scales::lemma_order_chain(1, 0, c, s - scale, c, s);
                }
            }
        }
    }
}

/// Rounding a number half up, at every scale that is allowed, gives what rounding it
/// down or rounding it up gives.
pub proof fn law_half_up_is_down_or_up(v: DecimalView, scale: int)
    requires
        v.representable(),
        rounding::in_format(v),
        number::scale_allowed(v, scale),
    ensures
        number::round_half_up_value(v, scale) == number::round_down_value(v, scale)
            || number::round_half_up_value(v, scale) == number::round_up_value(v, scale),
{
    if let DecimalView::Finite { negative, coefficient: c, scale: s } = v {
        lemma_nearest_of(v);
        if scale != 0 {
            let moved = rounding::normalized(arithmetic::shifted(v, scale));
            lemma_nearest_of(moved);
            if c > 0 {
                lemma_near_at(v, scale, true);
            } else if let DecimalView::Finite { scale: t, .. } = arithmetic::shifted(v, scale) {
                rounding::lemma_to_precision(0, t);
            }
        }
    }
}

/// The nearest integer to a value is the value without its fraction, or the next
/// integer away from zero.
proof fn lemma_nearest_of(v: DecimalView)
    ensures
        v matches DecimalView::Finite { negative, coefficient: c, scale: s } ==> (
        arithmetic::nearest_of(v) == arithmetic::trunc_of(v) || arithmetic::nearest_of(v)
            == backend::integer_near(negative, c, s, true)),
{
    if let DecimalView::Finite { coefficient: c, scale: s, .. } = v {
        if s > 0 {
            digits::lemma_pow10_monotonic(s as nat, s as nat);
        }
    }
}

} // verus!
