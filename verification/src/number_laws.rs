//! What predicates, comparisons and simple functions of numbers mean.

use crate::arithmetic;
use crate::backend;
use crate::convert;
use crate::decimal;
use crate::decimal::DecimalView;
use crate::digits;
use crate::errors::NumberError;
use crate::laws;
use crate::number;
use crate::remainders;
use crate::results;
use crate::rounding;
use crate::scales;
use vstd::prelude::*;

verus! {

/// What a finite value is worth in units of `10^-w`, for a scale that it can be brought
/// to.
pub open spec fn worth(v: DecimalView, w: int) -> int {
    match v {
        DecimalView::Finite { negative, coefficient, scale } => decimal::signed(
            negative,
            coefficient * digits::pow10((w - scale) as nat),
        ),
        _ => 0,
    }
}

/// Whether a finite value can be brought to a scale.
pub open spec fn fits_scale(v: DecimalView, w: int) -> bool {
    v matches DecimalView::Finite { scale, .. } && scale <= w
}

/// Finite numbers are in the order of what they are worth, and equal where they are worth
/// the same.
pub proof fn law_order_is_of_worth(a: DecimalView, b: DecimalView, w: int)
    requires
        fits_scale(a, w),
        fits_scale(b, w),
    ensures
        arithmetic::number_order(a, b) == scales::sign_of(worth(a, w) - worth(b, w)),
        backend::same_number(a, b) <==> worth(a, w) == worth(b, w),
{
    if let DecimalView::Finite { coefficient: c, scale: s, .. } = a {
        if let DecimalView::Finite { coefficient: d, scale: t, .. } = b {
            scales::lemma_order_at(c, s, d, t, w);
            let p = digits::pow10((w - s) as nat);
            let q = digits::pow10((w - t) as nat);
            digits::lemma_pow10_monotonic((w - s) as nat, (w - s) as nat);
            digits::lemma_pow10_monotonic((w - t) as nat, (w - t) as nat);
            assert((c > 0 <==> c * p > 0) && (d > 0 <==> d * q > 0) && c * p >= 0 && d * q >= 0)
                by (nonlinear_arith)
                requires
                    p >= 1,
                    q >= 1,
                    c >= 0,
                    d >= 0,
            ;
        }
    }
}

/// An infinity is beyond every finite number on its side.
pub proof fn law_infinity_is_beyond(a: DecimalView, b: DecimalView)
    requires
        a is Finite,
        b is Infinite,
    ensures
        arithmetic::number_order(a, b) == (if b.negative() {
            1int
        } else {
            -1
        }),
        !backend::same_number(a, b),
{
}

/// The absolute value is the number or its opposite, whichever is not negative, and the
/// opposite is worth the opposite.
pub proof fn law_absolute_value(v: DecimalView, w: int)
    requires
        fits_scale(v, w),
    ensures
        fits_scale(v.magnitude(), w),
        fits_scale(v.negated(), w),
        worth(v.magnitude(), w) == vstd::math::abs(worth(v, w)),
        worth(v.negated(), w) == -worth(v, w),
{
    if let DecimalView::Finite { coefficient: c, scale: s, .. } = v {
        let p = digits::pow10((w - s) as nat);
        assert(c * p >= 0) by (nonlinear_arith)
            requires
                c >= 0,
                p >= 0,
        ;
    }
}

/// A finite number is an integer where it is worth a whole number of ones.
pub proof fn law_integers_are_whole(v: DecimalView, k: int)
    requires
        v is Finite,
        backend::same_number(v, results::units(k, 0)),
    ensures
        number::integer_like(v),
{
    if let DecimalView::Finite { coefficient: c, scale: s, .. } = v {
        if s > 0 {
            let unit = digits::pow10(s as nat);
            let n = vstd::math::abs(k) as nat;
            digits::lemma_pow10_monotonic(s as nat, s as nat);
            assert((s - 0) as nat == s as nat);
            if c == 0 {
                assert(0nat % unit == 0) by (nonlinear_arith)
                    requires
                        unit >= 1,
                ;
            } else {
                if n == 0 {
                    results::lemma_zero_below(c, s, 0);
                }
                assert(c == n * unit);
                rounding::lemma_quotient(n, unit, 0);
            }
        }
    }
}

/// A finite number that is an integer is worth a whole number of ones, which is returned.
pub proof fn law_whole_of_integer(v: DecimalView) -> (k: int)
    requires
        v is Finite,
        number::integer_like(v),
    ensures
        backend::same_number(v, results::units(k, 0)),
{
    if let DecimalView::Finite { negative, coefficient: c, scale: s } = v {
        assert(digits::pow10(0) == 1);
        assert(c * 1 == c) by (nonlinear_arith);
        if s > 0 {
            let unit = digits::pow10(s as nat);
            let n = c / unit;
            digits::lemma_pow10_monotonic(s as nat, s as nat);
            vstd::arithmetic::div_mod::lemma_fundamental_div_mod(c as int, unit as int);
            assert((s - 0) as nat == s as nat);
            assert(n * unit == c && n >= 0 && (c > 0 ==> n > 0)) by (nonlinear_arith)
                requires
                    n == c / unit,
                    c == unit * n,
                    unit >= 1,
                    c >= 0,
            ;
            decimal::signed(negative, n as nat)
        } else {
            let p = digits::pow10((-s) as nat);
            digits::lemma_pow10_monotonic((-s) as nat, (-s) as nat);
            assert((0 - s) as nat == (-s) as nat);
            assert(c * p >= 0 && (c > 0 ==> c * p > 0) && (c == 0 ==> c * p == 0))
                by (nonlinear_arith)
                requires
                    c >= 0,
                    p >= 1,
            ;
            decimal::signed(negative, (c * p) as nat)
        }
    } else {
        0
    }
}

/// A number that is twice an integer is even, and one more than that is odd.
pub proof fn law_even_and_odd(v: DecimalView, j: int)
    requires
        v is Finite,
    ensures
        backend::same_number(v, results::units(2 * j, 0)) ==> number::even_value(v)
            && !number::odd_value(v),
        backend::same_number(v, results::units(2 * j + 1, 0)) ==> number::odd_value(v)
            && !number::even_value(v),
{
    if backend::same_number(v, results::units(2 * j, 0)) {
        lemma_parity(v, 2 * j);
    }
    if backend::same_number(v, results::units(2 * j + 1, 0)) {
        lemma_parity(v, 2 * j + 1);
    }
}

/// The parity of a number is that of the integer that it is.
proof fn lemma_parity(v: DecimalView, k: int)
    requires
        v is Finite,
        backend::same_number(v, results::units(k, 0)),
    ensures
        arithmetic::parity(v) == Some(k % 2 == 0),
        number::integer_like(v),
{
    law_integers_are_whole(v, k);
    let n = vstd::math::abs(k) as nat;
    if let DecimalView::Finite { coefficient: c, scale: s, .. } = v {
        assert(digits::pow10(0) == 1);
        assert(c * 1 == c && c / 1 == c) by (nonlinear_arith);
        if c == 0 {
            if n > 0 {
                results::lemma_zero_below(n, 0, s);
            }
        } else {
            if n == 0 {
                results::lemma_zero_below(c, s, 0);
            }
            if s > 0 {
                let unit = digits::pow10(s as nat);
                digits::lemma_pow10_monotonic(s as nat, s as nat);
                assert((s - 0) as nat == s as nat);
                assert(c == n * unit);
                rounding::lemma_quotient(n, unit, 0);
            } else if s < 0 {
                let p = digits::pow10((-s) as nat);
                assert(p == 10 * digits::pow10((-s - 1) as nat));
                assert((0 - s) as nat == (-s) as nat);
                let h = digits::pow10((-s - 1) as nat);
                assert(c * (10 * h) == 2 * (5 * (c * h))) by (nonlinear_arith);
            }
        }
    }
}

/// Cutting off the fraction of a number leaves the whole ones that it holds.
pub proof fn law_trunc_leaves_ones(v: DecimalView, q: nat)
    requires
        v is Finite,
        !v.is_zero(),
        v.representable(),
        rounding::in_format(v),
        results::holds_units(v, 0, q),
    ensures
        backend::same_number(arithmetic::trunc_of(v), results::units_like(v, q, 0)),
{
    if let DecimalView::Finite { negative: m, coefficient: x, scale: w } = v {
        results::lemma_at_scale(v, 0);
        results::lemma_held(v, 0, q);
        results::lemma_rounded_ones(m, x, w, q);
    }
}

/// A number is its whole ones and the rest: the fraction that is left has its sign, is
/// below one and is exact.
pub proof fn law_frac_is_rest(v: DecimalView, w: int)
    requires
        v is Finite,
        !v.is_zero(),
        v.representable(),
        rounding::in_format(v),
        fits_scale(v, w),
        w >= 0,
    ensures
        ({
            let whole = arithmetic::trunc_of(v);
            let exact = backend::exact_sum(v, whole.negated());
            let rest = rounding::normalized(arithmetic::difference_value(v, whole));
            &&& fits_scale(whole, w) && fits_scale(exact, w)
            &&& worth(exact, w) == worth(v, w) - worth(whole, w)
            &&& backend::same_number(rest, rounding::normalized(exact))
        }),
{
    if let DecimalView::Finite { negative: m, coefficient: x, scale: s } = v {
        let q = results::law_units_are_held(v, 0);
        let whole = arithmetic::trunc_of(v);
        results::lemma_at_scale(v, 0);
        results::lemma_held(v, 0, q);
        results::lemma_rounded_ones(m, x, s, q);
        if s <= 0 {
            let k = if 0 - s <= backend::room(x) {
                (0 - s) as nat
            } else {
                backend::room(x)
            };
            rounding::lemma_room_bound(x);
            assert(s + k <= 0);
        }
        lemma_trunc_representable(v);
        laws::law_sum_is_rounded_once(v, whole.negated());
        laws::law_difference_is_sum(v, whole);
        lemma_exact_sum_is_worth(v, whole.negated(), w);
        law_absolute_value(whole, w);
    }
}

/// A number without its fraction fits where the number does.
proof fn lemma_trunc_representable(v: DecimalView)
    requires
        v is Finite,
        v.representable(),
        rounding::in_format(v),
    ensures
        arithmetic::trunc_of(v).representable(),
{
    if let DecimalView::Finite { coefficient: c, scale: s, .. } = v {
        if s > 0 {
            let unit = digits::pow10(s as nat);
            digits::lemma_pow10_monotonic(s as nat, s as nat);
            assert(c / unit <= c && c / unit >= 0) by (nonlinear_arith)
                requires
                    unit >= 1,
                    c >= 0,
            ;
        } else if c > 0 {
            rounding::lemma_room_bound(c);
            let k = if 0 - s <= backend::room(c) {
                (0 - s) as nat
            } else {
                backend::room(c)
            };
            assert(digits::pow10(0) == 1);
            assert(c * 1 == c) by (nonlinear_arith);
            digits::lemma_pow10_monotonic(k, backend::room(c));
            let p = digits::pow10(k);
            let r = digits::pow10(backend::room(c));
            assert(c * p <= c * r) by (nonlinear_arith)
                requires
                    p <= r,
                    c >= 0,
            ;
        }
    }
}

/// The exact sum of two numbers is worth what they are worth together.
pub proof fn lemma_exact_sum_is_worth(a: DecimalView, b: DecimalView, w: int)
    requires
        fits_scale(a, w),
        fits_scale(b, w),
    ensures
        fits_scale(backend::exact_sum(a, b), w),
        worth(backend::exact_sum(a, b), w) == worth(a, w) + worth(b, w),
{
    if let DecimalView::Finite { negative: m, coefficient: c, scale: s } = a {
        if let DecimalView::Finite { negative: n, coefficient: d, scale: t } = b {
            let top = if s < t {
                t
            } else {
                s
            };
            digits::lemma_pow10_add((top - s) as nat, (w - top) as nat);
            digits::lemma_pow10_add((top - t) as nat, (w - top) as nat);
            assert((top - s) as nat + (w - top) as nat == (w - s) as nat);
            assert((top - t) as nat + (w - top) as nat == (w - t) as nat);
            let p = digits::pow10((top - s) as nat) as int;
            let q = digits::pow10((top - t) as nat) as int;
            let k = digits::pow10((w - top) as nat) as int;
            let x = c * p;
            let y = d * q;
            assert(c * (p * k) == x * k && d * (q * k) == y * k && (x + y) * k == x * k + y * k && (
            x - y) * k == x * k - y * k && (y - x) * k == y * k - x * k && (-(x + y)) * k == -(x * k
                + y * k)) by (nonlinear_arith)
                requires
                    x == c * p,
                    y == d * q,
            ;
            let total = decimal::signed(m, x as nat) + decimal::signed(n, y as nat);
            assert(x >= 0 && y >= 0) by (nonlinear_arith)
                requires
                    x == c * p,
                    y == d * q,
                    c >= 0,
                    d >= 0,
                    p >= 0,
                    q >= 0,
            ;
            assert(vstd::math::abs(total) * k == (if total < 0 {
                -total
            } else {
                total
            }) * k);
        }
    }
}

/// The sum of two numbers is what they are worth together, rounded once.
pub proof fn law_sum_is_of_worth(a: DecimalView, b: DecimalView, w: int)
    requires
        fits_scale(a, w),
        fits_scale(b, w),
        rounding::in_format(a),
        rounding::in_format(b),
        a.representable(),
        b.representable(),
    ensures
        backend::same_number(
            rounding::normalized(arithmetic::sum_value(a, b)),
            rounding::normalized(backend::exact_sum(a, b)),
        ),
        worth(backend::exact_sum(a, b), w) == worth(a, w) + worth(b, w),
{
    laws::law_sum_is_rounded_once(a, b);
    lemma_exact_sum_is_worth(a, b, w);
}

/// The leading exponent of a number is the power of ten that it reaches and whose
/// successor it does not.
pub proof fn law_leading_exponent(v: DecimalView, e: int)
    requires
        v is Finite,
        !v.is_zero(),
        arithmetic::number_order(results::units(1, -e), v.magnitude()) <= 0,
        arithmetic::number_order(v.magnitude(), results::units(1, -e - 1)) < 0,
    ensures
        rounding::order_of(v) == e,
{
    if let DecimalView::Finite { coefficient: c, scale: s, .. } = v {
        results::lemma_leading(c, s, e);
        results::lemma_leading(c, s, e + 1);
        scales::lemma_order_chain(c, s, 1, -e, c, s);
    }
}

/// A scale is refused, except 0, where the leading exponent of the number and the scale
/// add up to less than -6111 or to more than 6144; the refusal names the sum.
pub proof fn law_scale_is_refused(v: DecimalView, n: int, e: int)
    requires
        v is Finite,
        !v.is_zero(),
        -10000 <= e <= 10000,
        i32::MIN + 10000 <= n <= i32::MAX - 10000,
        arithmetic::number_order(results::units(1, -e), v.magnitude()) <= 0,
        arithmetic::number_order(v.magnitude(), results::units(1, -e - 1)) < 0,
    ensures
        number::scale_allowed(v, n) <==> n == 0 || -6111 <= e + n <= 6144,
        number::scale_error(v, n) == (NumberError::InvalidScale {
            min: -6111i32,
            max: 6144i32,
            actual: (e + n) as i32,
        }),
{
    law_leading_exponent(v, e);
}

/// Rounding zero gives zero, and rounding an infinity gives the infinity.
pub proof fn law_roundings_of_the_rest(v: DecimalView, n: int)
    requires
        v.is_zero() || v is Infinite,
    ensures
        v.is_zero() ==> number::floor_value(v, n).is_zero() && number::ceiling_value(
            v,
            n,
        ).is_zero() && number::round_down_value(v, n).is_zero() && number::round_up_value(
            v,
            n,
        ).is_zero() && number::round_half_up_value(v, n).is_zero(),
        v is Infinite ==> number::floor_value(v, n) == v && number::ceiling_value(v, n) == v
            && number::round_down_value(v, n) == v && number::round_up_value(v, n) == v
            && number::round_half_up_value(v, n) == v && arithmetic::trunc_of(v) == v,
        v is Infinite ==> rounding::normalized(rounding::rescaled(v, n)) == v,
        v.is_zero() ==> rounding::normalized(rounding::rescaled(v, n)).is_zero(),
{
    if v.is_zero() {
        results::lemma_rescaled_zero(v, n);
        lemma_zero_rounds(v);
        if let DecimalView::Finite { .. } = arithmetic::shifted(v, n) {
            laws::lemma_zero_stays(arithmetic::shifted(v, n));
            lemma_zero_rounds(number::moved(v, n));
        }
    }
}

/// Zero is rounded to zero.
proof fn lemma_zero_rounds(v: DecimalView)
    requires
        v.is_zero(),
    ensures
        arithmetic::floor_of(v).is_zero(),
        arithmetic::ceil_of(v).is_zero(),
        arithmetic::trunc_of(v).is_zero(),
        arithmetic::nearest_of(v).is_zero(),
{
    if let DecimalView::Finite { scale, .. } = v {
        if scale > 0 {
            let unit = digits::pow10(scale as nat);
            digits::lemma_pow10_monotonic(scale as nat, scale as nat);
            assert(0nat / unit == 0 && 0nat % unit == 0) by (nonlinear_arith)
                requires
                    unit >= 1,
            ;
        }
    }
}

/// A number made of an integer and a scale is as many units of that scale.
pub proof fn law_new_is_units(n: int, s: int)
    requires
        i16::MIN <= s <= i16::MAX,
    ensures
        number::stored(n, s) == results::units(n, s),
{
}

/// Moving a number by a power of ten moves what it is worth by as many places.
pub proof fn law_moved_number(negative: bool, c: nat, s: int, n: int)
    requires
        c > 0,
        rounding::significant(c),
        i16::MIN <= s - n <= i16::MAX,
        rounding::MIN_ADJUSTED_EXPONENT <= decimal::adjusted_exponent(c, s) + n
            <= rounding::MAX_ADJUSTED_EXPONENT,
    ensures
        backend::same_number(
            rounding::normalized(
                arithmetic::shifted(DecimalView::Finite { negative, coefficient: c, scale: s }, n),
            ),
            DecimalView::Finite { negative, coefficient: c, scale: s - n },
        ),
{
    scales::lemma_moved(negative, c, s, n);
}

/// The integer that a number is converted to is the whole ones that it holds, with its
/// sign.
pub proof fn law_whole_part_is_ones(v: DecimalView, q: nat)
    requires
        v is Finite,
        v.representable(),
        rounding::in_format(v),
        results::holds_units(v, 0, q),
    ensures
        convert::whole_part(v) == Some(decimal::signed(v.negative(), q)),
{
    if let DecimalView::Finite { negative: m, coefficient: x, scale: u } = v {
        assert(digits::pow10(0) == 1);
        if x == 0 {
            lemma_zero_rounds(v);
            if q > 0 {
                results::lemma_zero_below(q, 0, u);
            }
            if let DecimalView::Finite { scale: t, .. } = arithmetic::trunc_of(v) {
                assert(0 * digits::pow10((-t) as nat) == 0) by (nonlinear_arith);
            }
        } else {
            results::lemma_at_scale(v, 0);
            results::lemma_held(v, 0, q);
            results::lemma_rounded_ones(m, x, u, q);
            if let DecimalView::Finite { coefficient: e, scale: t, .. } = backend::truncated(
                m,
                x,
                u,
            ) {
                assert(e * 1 == e && q * 1 == q) by (nonlinear_arith);
                if u <= 0 {
                    let k = if 0 - u <= backend::room(x) {
                        (0 - u) as nat
                    } else {
                        backend::room(x)
                    };
                    assert(t <= 0);
                }
                assert(e * digits::pow10((0 - t) as nat) == q);
            }
        }
    }
}

/// A floored remainder has the sign of the divisor, is smaller than it, and differs from
/// the dividend by a multiple of it.
pub proof fn law_floored_remainder(a: int, b: int) -> (k: int)
    requires
        b != 0,
    ensures
        ({
            let r = remainders::floored_remainder(a, b);
            &&& a == k * b + r
            &&& b > 0 ==> 0 <= r < b
            &&& b < 0 ==> b < r <= 0
        }),
{
    if b > 0 {
        vstd::arithmetic::div_mod::lemma_fundamental_div_mod(a, b);
        let k = a / b;
        assert(b * k == k * b) by (nonlinear_arith);
        k
    } else {
        vstd::arithmetic::div_mod::lemma_fundamental_div_mod(-a, -b);
        let k = (-a) / (-b);
        assert((-b) * k == -(k * b)) by (nonlinear_arith);
        k
    }
}

} // verus!
