//! What holds of FEEL numbers across functions.

use crate::arithmetic;
use crate::arithmetic::Magnitude;
use crate::backend;
use crate::convert;
use crate::decimal;
use crate::decimal::DecimalView;
use crate::digits;
use crate::display;
use crate::grammar;
use crate::literal;
use crate::number;
use crate::powers;
use crate::rounding;
use crate::scales;
use vstd::prelude::*;

verus! {

/// Rounding half to even moves a number by at most half a unit in its last place,
/// and by exactly half only to an even neighbour.
pub proof fn law_half_even_is_nearest(c: nat, k: nat)
    ensures
        ({
            let unit = digits::pow10(k) as int;
            let q = rounding::half_even_quotient(c, k) as int;
            &&& 2 * (q * unit - c) <= unit
            &&& 2 * (c - q * unit) <= unit
            &&& (2 * (q * unit - c) == unit || 2 * (c - q * unit) == unit) ==> q % 2 == 0
        }),
{
    arithmetic::lemma_half_even_nearest(c, k);
}

/// A value that decimal128 has, with at most 34 digits, is left as it is.
pub proof fn law_format_is_fixed(v: DecimalView)
    requires
        rounding::in_format(v),
        rounding::narrow(v),
        v is NotANumber ==> !v.negative(),
    ensures
        rounding::normalized(v) == v,
{
    if let DecimalView::Finite { coefficient, .. } = v {
        rounding::lemma_precision_fits(coefficient);
    }
}

/// Bringing a value to the format twice does no more than doing it once.
pub proof fn law_normalizing_is_idempotent(v: DecimalView)
    ensures
        rounding::normalized(rounding::normalized(v)) == rounding::normalized(v),
{
    rounding::lemma_normalized_in_format(v);
    law_format_is_fixed(rounding::normalized(v));
}

/// The product of two numbers is exact before it is rounded, so that it is rounded once.
pub proof fn law_product_is_rounded_once(a: DecimalView, b: DecimalView)
    requires
        a is Finite,
        b is Finite,
        rounding::in_format(a),
        rounding::in_format(b),
        a.representable(),
        b.representable(),
    ensures
        backend::known_product(a, b) is Some,
        match (a, b) {
            (
                DecimalView::Finite { negative: m, coefficient: c, scale: s },
                DecimalView::Finite { negative: n, coefficient: d, scale: t },
            ) => {
                let r = rounding::normalized(arithmetic::product_value(a, b));
                if c == 0 || d == 0 {
                    r.is_zero() && r.negative() == (m != n)
                } else {
                    r == rounding::normalized(
                        DecimalView::Finite {
                            negative: m != n,
                            coefficient: c * d,
                            scale: s + t,
                        },
                    )
                }
            },
            _ => true,
        },
{
    if let DecimalView::Finite { negative: m, coefficient: c, scale: s } = a {
        if let DecimalView::Finite { negative: n, coefficient: d, scale: t } = b {
            if c == 0 || d == 0 {
                assert(c * d == 0) by (nonlinear_arith)
                    requires
                        c == 0 || d == 0,
                ;
                if let DecimalView::Finite { scale, .. } = backend::constructed(
                    m != n,
                    0,
                    -(s + t),
                ) {
                    rounding::lemma_to_precision(0, scale);
                }
            } else {
                assert(c * d > 0) by (nonlinear_arith)
                    requires
                        c > 0,
                        d > 0,
                ;
                rounding::lemma_coefficient_digits(c);
                rounding::lemma_coefficient_digits(d);
                lemma_exact_product(c, s, d, t);
                lemma_spilled(m != n, c * d, s + t);
            }
        }
    }
}

/// The digits that a product of two numbers has to lose are zeros.
pub proof fn lemma_exact_product(c: nat, s: int, d: nat, t: int)
    requires
        0 < c < decimal::coefficient_limit(),
        0 < d < decimal::coefficient_limit(),
        rounding::significant(c),
        rounding::significant(d),
    ensures
        (c * d) % digits::pow10(backend::spill(c * d)) == 0,
        backend::spill(c * d) <= 88,
{
    let (x, u) = rounding::to_precision(c, s);
    let (y, w) = rounding::to_precision(d, t);
    scales::lemma_surplus_zeros(c, s);
    scales::lemma_surplus_zeros(d, t);
    rounding::lemma_to_precision(c, s);
    rounding::lemma_to_precision(d, t);
    rounding::lemma_coefficient_digits(c);
    rounding::lemma_coefficient_digits(d);
    let i = (s - u) as nat;
    let j = (t - w) as nat;
    let z = backend::spill(c * d);
    let k = i + j;
    let p = x * y;
    let unit = digits::pow10(k);
    digits::lemma_pow10_add(i, j);
    digits::lemma_pow10_add(34, 34);
    digits::lemma_pow10_add(68, k);
    digits::lemma_pow10_monotonic(k, k);
    lemma_double_precision();
    let pi = digits::pow10(i);
    let pj = digits::pow10(j);
    let wide = digits::pow10(34);
    assert(c * d == p * unit) by (nonlinear_arith)
        requires
            c == x * pi,
            d == y * pj,
            unit == pi * pj,
            p == x * y,
    ;
    assert(0 <= p < wide * wide) by (nonlinear_arith)
        requires
            p == x * y,
            0 <= x < wide,
            0 <= y < wide,
    ;
    assert(p * unit < digits::pow10(68) * unit) by (nonlinear_arith)
        requires
            p < digits::pow10(68),
            unit >= 1,
    ;
    scales::lemma_spill(c * d);
    if z > k {
        digits::lemma_pow10_monotonic(k, (z - 1) as nat);
        let high = digits::pow10((z - 1) as nat);
        assert(decimal::coefficient_limit() * high >= digits::pow10(68) * unit)
            by (nonlinear_arith)
            requires
                decimal::coefficient_limit() >= digits::pow10(68),
                high >= unit,
                unit >= 1,
                digits::pow10(68) >= 0,
        ;
    }
    assert(p % digits::pow10(0) == 0) by {
        assert(digits::pow10(0) == 1);
    }
    arithmetic::lemma_divisible_scale(p, 0, k);
    assert(0 + k == z + (k - z) as nat);
    arithmetic::lemma_divisible_split(c * d, z, (k - z) as nat);
}

/// A product that loses zeros until it fits in a coefficient is rounded as the whole
/// product is.
pub proof fn lemma_spilled(negative: bool, p: nat, s: int)
    requires
        p > 0,
        p % digits::pow10(backend::spill(p)) == 0,
        backend::spill(p) <= 88,
        -20000 <= s <= 20000,
    ensures
        rounding::normalized(
            backend::constructed(
                negative,
                p / digits::pow10(backend::spill(p)),
                backend::spill(p) - s,
            ),
        ) == rounding::normalized(DecimalView::Finite { negative, coefficient: p, scale: s }),
        p < decimal::coefficient_limit() ==> backend::constructed(negative, p, -s) == (
        DecimalView::Finite { negative, coefficient: p, scale: s }),
{
    let z = backend::spill(p);
    let unit = digits::pow10(z);
    let rest = p / unit;
    assert(digits::pow10(0) == 1);
    digits::lemma_pow10_monotonic(z, z);
    vstd::arithmetic::div_mod::lemma_fundamental_div_mod(p as int, unit as int);
    assert(rest * unit == p) by (nonlinear_arith)
        requires
            p == unit * rest,
    ;
    assert(rest > 0) by (nonlinear_arith)
        requires
            p == unit * rest,
            p > 0,
            unit >= 1,
    ;
    if z > 0 {
        scales::lemma_spill(p);
        lemma_double_precision();
        digits::lemma_pow10_monotonic(34, 67);
        assert(digits::pow10(68) == 10 * digits::pow10(67));
        digits::lemma_digit_count_at_most(rest, 33);
        digits::lemma_pow10_monotonic(33, 34);
        scales::lemma_trailing_zeros(rest, s - z, z);
    } else {
        assert(p / 1 == p) by (nonlinear_arith);
    }
}

/// Twice the precision, and three quarters of a coefficient's digits, fit in a
/// coefficient.
proof fn lemma_double_precision()
    ensures
        digits::pow10(68) < decimal::coefficient_limit(),
        2 * digits::pow10(76) < decimal::coefficient_limit(),
{
    assert(digits::pow10(17) == 100_000_000_000_000_000nat) by {
        reveal_with_fuel(digits::pow10, 18);
    }
    assert(digits::pow10(8) == 100_000_000nat) by {
        reveal_with_fuel(digits::pow10, 9);
    }
    digits::lemma_pow10_add(17, 17);
    assert(digits::pow10(34) == 10_000_000_000_000_000_000_000_000_000_000_000nat);
    digits::lemma_pow10_add(34, 34);
    digits::lemma_pow10_add(68, 8);
}

/// The sum of two numbers is their exact sum rounded once.
pub proof fn law_sum_is_rounded_once(a: DecimalView, b: DecimalView)
    requires
        a is Finite,
        b is Finite,
        rounding::in_format(a),
        rounding::in_format(b),
        a.representable(),
        b.representable(),
    ensures
        backend::same_number(
            rounding::normalized(arithmetic::sum_value(a, b)),
            rounding::normalized(backend::exact_sum(a, b)),
        ),
{
    let sum = arithmetic::sum_value(a, b);
    let exact = backend::exact_sum(a, b);
    let r = rounding::normalized(exact);
    law_equality_is_equivalence(r, r, r);
    if let DecimalView::Finite { negative: m, coefficient: c, scale: s } = a {
        if let DecimalView::Finite { negative: n, coefficient: d, scale: t } = b {
            let scale = if s < t {
                t
            } else {
                s
            };
            assert(digits::pow10(0) == 1);
            assert(c * 1 == c && d * 1 == d) by (nonlinear_arith);
            assert(0 * digits::pow10((scale - s) as nat) == 0 && 0 * digits::pow10(
                (scale - t) as nat,
            ) == 0) by (nonlinear_arith);
            let x = c * digits::pow10((scale - s) as nat);
            let y = d * digits::pow10((scale - t) as nat);
            if c > 0 {
                digits::lemma_digit_count_scale_up(c, (scale - s) as nat);
            }
            if d > 0 {
                digits::lemma_digit_count_scale_up(d, (scale - t) as nat);
            }
            if c == 0 && d == 0 {
                lemma_zero_stays(sum);
                lemma_zero_stays(exact);
            } else if c == 0 {
                assert(exact == (DecimalView::Finite { negative: n, coefficient: y, scale }));
                lemma_widened_sum(n, d, t, s);
            } else if d == 0 {
                assert(exact == (DecimalView::Finite { negative: m, coefficient: x, scale }));
                lemma_widened_sum(m, c, s, t);
            } else if sum != exact {
                lemma_shortened_sum(a, b);
            }
        }
    }
}

/// Adding a number that lies well below the last of 34 digits of another does not
/// change the other.
pub proof fn law_small_addend_is_lost(a: DecimalView, b: DecimalView)
    requires
        a is Finite,
        b is Finite,
        !a.is_zero(),
        !b.is_zero(),
        rounding::in_format(a),
        rounding::in_format(b),
        a.representable(),
        b.representable(),
        rounding::order_of(b) + 36 <= rounding::order_of(a),
    ensures
        backend::same_number(rounding::normalized(arithmetic::sum_value(a, b)), a),
{
    law_sum_is_rounded_once(a, b);
    if let DecimalView::Finite { negative: m, coefficient: c, scale: s } = a {
        if let DecimalView::Finite { negative: n, coefficient: d, scale: t } = b {
            let top = if s < t {
                t
            } else {
                s
            };
            let order = rounding::order_of(a);
            let k = (top - 33 + order) as nat;
            digits::lemma_digit_count_bounds(d);
            digits::lemma_digit_count_bounds(c);
            assert(top - 33 + order >= 3);
            let q = lemma_34_digits(c, s, top);
            let x = c * digits::pow10((top - s) as nat);
            let y = d * digits::pow10((top - t) as nat);
            let unit = digits::pow10(k);
            assert(100 * y < unit) by {
                let j = digits::digit_count(d);
                let p = digits::pow10((top - t) as nat);
                let e = digits::pow10(j);
                digits::lemma_pow10_add(j, (top - t) as nat);
                digits::lemma_pow10_monotonic((top - t) as nat, (top - t) as nat);
                digits::lemma_pow10_monotonic(j + (top - t) as nat, (k - 2) as nat);
                assert(digits::pow10(k) == 10 * digits::pow10((k - 1) as nat));
                assert(digits::pow10((k - 1) as nat) == 10 * digits::pow10((k - 2) as nat));
                assert(y < e * p) by (nonlinear_arith)
                    requires
                        y == d * p,
                        d < e,
                        p >= 1,
                ;
            }
            digits::lemma_pow10_monotonic(0, 33);
            assert(digits::pow10(0) == 1);
            assert(q * unit >= unit) by (nonlinear_arith)
                requires
                    q >= 1,
                    unit >= 1,
            ;
            let exact = backend::exact_sum(a, b);
            let total = decimal::signed(m, x) + decimal::signed(n, y);
            let size = vstd::math::abs(total) as nat;
            assert(exact == (DecimalView::Finite { negative: m, coefficient: size, scale: top }));
            scales::lemma_rounds_to(q, k, size, top);
            let w = DecimalView::Finite { negative: m, coefficient: q, scale: top - k };
            let r = rounding::normalized(exact);
            rounding::lemma_precision_fits(q);
            digits::lemma_digit_count_is(q, 34);
            assert(r == rounding::normalized(w));
            scales::lemma_kept(m, q, top - k);
            law_equality_is_equivalence(r, w, a);
            law_equality_is_equivalence(
                rounding::normalized(arithmetic::sum_value(a, b)),
                r,
                a,
            );
        }
    }
}

/// A coefficient of at most 34 significant digits, written with 34 of them, seen at a
/// scale further down.
proof fn lemma_34_digits(c: nat, s: int, top: int) -> (q: nat)
    requires
        c > 0,
        rounding::significant(c),
        s <= top,
        top - 33 + decimal::adjusted_exponent(c, s) >= 0,
    ensures
        digits::pow10(33) <= q < digits::pow10(34),
        q * digits::pow10((top - 33 + decimal::adjusted_exponent(c, s)) as nat) == c
            * digits::pow10((top - s) as nat),
        backend::finite_order(q, 33 - decimal::adjusted_exponent(c, s), c, s) == 0,
        c * digits::pow10((top - s) as nat) > 0,
        digits::pow10((top - 33 + decimal::adjusted_exponent(c, s)) as nat) >= 1,
{
    let (f, v) = rounding::to_precision(c, s);
    scales::lemma_surplus_zeros(c, s);
    rounding::lemma_to_precision(c, s);
    let n = digits::digit_count(f);
    let i = (34 - n) as nat;
    let order = decimal::adjusted_exponent(c, s);
    let k = (top - 33 + order) as nat;
    let q = f * digits::pow10(i);
    digits::lemma_digit_count_scale_up(f, i);
    digits::lemma_digit_count_bounds(q);
    digits::lemma_digit_count_scale_up(c, (top - s) as nat);
    digits::lemma_pow10_add(i, k);
    digits::lemma_pow10_add((s - v) as nat, (top - s) as nat);
    digits::lemma_pow10_monotonic(k, k);
    assert(i + k == (s - v) as nat + (top - s) as nat);
    let pi = digits::pow10(i);
    let pk = digits::pow10(k);
    let pv = digits::pow10((s - v) as nat);
    let ps = digits::pow10((top - s) as nat);
    assert(q * pk == c * ps) by (nonlinear_arith)
        requires
            q == f * pi,
            c == f * pv,
            pi * pk == pv * ps,
    ;
    scales::lemma_padded_order(f, v, i);
    assert(v + i == 33 - order);
    scales::lemma_order_chain(q, v + i, f, v, c, s);
    q
}

/// A zero is brought to the format as a zero.
pub proof fn lemma_zero_stays(v: DecimalView)
    requires
        v.is_zero(),
    ensures
        rounding::normalized(v).is_zero(),
{
    if let DecimalView::Finite { scale, .. } = v {
        rounding::lemma_to_precision(0, scale);
    }
}

/// A value widened as far as there is room is rounded to the number that it is.
proof fn lemma_widened_sum(negative: bool, c: nat, s: int, t: int)
    requires
        c > 0,
        rounding::significant(c),
    ensures
        ({
            let scale = if s < t {
                t
            } else {
                s
            };
            let exact = DecimalView::Finite {
                negative,
                coefficient: c * digits::pow10((scale - s) as nat),
                scale,
            };
            backend::same_number(
                rounding::normalized(backend::widened(negative, c, s, t)),
                rounding::normalized(exact),
            )
        }),
{
    let scale = if s < t {
        t
    } else {
        s
    };
    let v = DecimalView::Finite { negative, coefficient: c, scale: s };
    let k = (scale - s) as nat;
    let exact = DecimalView::Finite {
        negative,
        coefficient: c * digits::pow10(k),
        scale,
    };
    assert(digits::pow10(0) == 1);
    assert(c * 1 == c) by (nonlinear_arith);
    lemma_padded_rounds_alike(negative, c, s, 0);
    lemma_padded_rounds_alike(negative, c, s, k);
    lemma_padded_rounds_alike(negative, c, s, backend::room(c));
    law_equality_is_equivalence(
        rounding::normalized(backend::widened(negative, c, s, t)),
        rounding::normalized(v),
        rounding::normalized(exact),
    );
}

/// Zeros appended to a coefficient of at most 34 significant digits do not change the
/// number that it is rounded to.
pub proof fn lemma_padded_rounds_alike(negative: bool, c: nat, s: int, k: nat)
    requires
        c > 0,
        rounding::significant(c),
    ensures
        ({
            let v = rounding::normalized(
                DecimalView::Finite { negative, coefficient: c, scale: s },
            );
            let w = rounding::normalized(
                DecimalView::Finite {
                    negative,
                    coefficient: c * digits::pow10(k),
                    scale: s + k,
                },
            );
            backend::same_number(v, w) && backend::same_number(w, v)
        }),
{
    let d = c * digits::pow10(k);
    digits::lemma_digit_count_scale_up(c, k);
    scales::lemma_padded_significant(c, k);
    let order = decimal::adjusted_exponent(c, s);
    if rounding::MIN_ADJUSTED_EXPONENT <= order <= rounding::MAX_ADJUSTED_EXPONENT {
        scales::lemma_kept(negative, c, s);
        scales::lemma_kept(negative, d, s + k);
        scales::lemma_padded_order(c, s, k);
        if let DecimalView::Finite { coefficient: x, scale: t, .. } = rounding::normalized(
            DecimalView::Finite { negative, coefficient: c, scale: s },
        ) {
            if let DecimalView::Finite { coefficient: y, scale: u, .. } = rounding::normalized(
                DecimalView::Finite { negative, coefficient: d, scale: s + k },
            ) {
                scales::lemma_order_chain(x, t, c, s, d, s + k);
                scales::lemma_order_chain(y, u, d, s + k, x, t);
                scales::lemma_order_chain(d, s + k, x, t, y, u);
                scales::lemma_order_chain(x, t, d, s + k, y, u);
            }
        }
    } else {
        scales::lemma_surplus_zeros(c, s);
        scales::lemma_surplus_zeros(d, s + k);
        rounding::lemma_to_precision(c, s);
        rounding::lemma_to_precision(d, s + k);
    }
}

/// A sum that lost zeros is rounded to the number that the whole sum is rounded to.
proof fn lemma_shortened_sum(a: DecimalView, b: DecimalView)
    requires
        backend::shortened_sum(a, b) is Some,
    ensures
        backend::same_number(
            rounding::normalized(backend::shortened_sum(a, b)->Some_0),
            rounding::normalized(backend::exact_sum(a, b)),
        ),
{
    let short = backend::shortened_sum(a, b)->Some_0;
    let exact = backend::exact_sum(a, b);
    let r = rounding::normalized(exact);
    law_equality_is_equivalence(r, r, r);
    if let DecimalView::Finite { negative, coefficient: size, scale } = exact {
        if let DecimalView::Finite { coefficient: rest, scale: u, .. } = short {
            let z = (scale - u) as nat;
            let unit = digits::pow10(z);
            digits::lemma_pow10_monotonic(z, z);
            vstd::arithmetic::div_mod::lemma_fundamental_div_mod(size as int, unit as int);
            assert(rest * unit == size) by (nonlinear_arith)
                requires
                    size == unit * rest,
            ;
            assert(u + z == scale);
            if rest == 0 {
                assert(0 * unit == 0) by (nonlinear_arith);
                lemma_zero_stays(short);
                lemma_zero_stays(exact);
            } else if digits::digit_count(rest) >= rounding::PRECISION {
                scales::lemma_trailing_zeros(rest, u, z);
            } else {
                lemma_padded_rounds_alike(negative, rest, u, z);
            }
        }
    }
}

/// The largest of three scales.
spec fn top(s: int, t: int, u: int) -> int {
    vstd::math::max(s, vstd::math::max(t, u))
}

/// Turning a comparison around turns its answer around.
pub proof fn law_order_is_antisymmetric(a: DecimalView, b: DecimalView)
    ensures
        arithmetic::number_order(a, b) == -arithmetic::number_order(b, a),
        backend::same_number(a, b) == backend::same_number(b, a),
{
    if let DecimalView::Finite { coefficient: c, scale: s, .. } = a {
        if let DecimalView::Finite { coefficient: d, scale: t, .. } = b {
            let u = top(s, t, t);
            scales::lemma_order_at(c, s, d, t, u);
            scales::lemma_order_at(d, t, c, s, u);
        }
    }
}

/// What is at or below a value is at or below everything that the value is at or
/// below.
pub proof fn law_order_is_transitive(a: DecimalView, b: DecimalView, c: DecimalView)
    requires
        arithmetic::number_order(a, b) <= 0,
        arithmetic::number_order(b, c) <= 0,
    ensures
        arithmetic::number_order(a, c) <= 0,
{
    number::lemma_order_to_zero(a);
    number::lemma_order_to_zero(b);
    number::lemma_order_to_zero(c);
    lemma_zero_magnitudes(a, b);
    lemma_zero_magnitudes(b, c);
    lemma_zero_magnitudes(a, c);
    lemma_magnitudes_transitive(a, b, c);
    lemma_magnitudes_transitive(c, b, a);
}

/// Magnitudes are ordered transitively.
proof fn lemma_magnitudes_transitive(a: DecimalView, b: DecimalView, c: DecimalView)
    ensures
        backend::magnitude_order(a, b) <= 0 && backend::magnitude_order(b, c) <= 0
            ==> backend::magnitude_order(a, c) <= 0,
        backend::magnitude_order(a, b) == -backend::magnitude_order(b, a),
        backend::magnitude_order(b, c) == -backend::magnitude_order(c, b),
        backend::magnitude_order(a, c) == -backend::magnitude_order(c, a),
{
    lemma_magnitudes_antisymmetric(a, b);
    lemma_magnitudes_antisymmetric(b, c);
    lemma_magnitudes_antisymmetric(a, c);
    if let DecimalView::Finite { coefficient: x, scale: s, .. } = a {
        if let DecimalView::Finite { coefficient: y, scale: t, .. } = b {
            if let DecimalView::Finite { coefficient: z, scale: w, .. } = c {
                let u = top(s, t, w);
                scales::lemma_order_at(x, s, y, t, u);
                scales::lemma_order_at(y, t, z, w, u);
                scales::lemma_order_at(x, s, z, w, u);
            }
        }
    }
}

/// Magnitudes are ordered antisymmetrically.
proof fn lemma_magnitudes_antisymmetric(a: DecimalView, b: DecimalView)
    ensures
        backend::magnitude_order(a, b) == -backend::magnitude_order(b, a),
{
    if let DecimalView::Finite { coefficient: c, scale: s, .. } = a {
        if let DecimalView::Finite { coefficient: d, scale: t, .. } = b {
            let u = top(s, t, t);
            scales::lemma_order_at(c, s, d, t, u);
            scales::lemma_order_at(d, t, c, s, u);
        }
    }
}

/// A zero is below every other magnitude and equal to a zero.
proof fn lemma_zero_magnitudes(a: DecimalView, b: DecimalView)
    ensures
        a.is_zero() && b.is_zero() ==> backend::magnitude_order(a, b) == 0,
        a.is_zero() && !b.is_zero() ==> backend::magnitude_order(a, b) == -1,
        !a.is_zero() && b.is_zero() ==> backend::magnitude_order(a, b) == 1,
{
    if let DecimalView::Finite { coefficient: c, scale: s, .. } = a {
        if let DecimalView::Finite { coefficient: d, scale: t, .. } = b {
            let u = top(s, t, t);
            scales::lemma_order_at(c, s, d, t, u);
            let p = digits::pow10((u - s) as nat);
            let q = digits::pow10((u - t) as nat);
            digits::lemma_pow10_monotonic((u - s) as nat, (u - s) as nat);
            digits::lemma_pow10_monotonic((u - t) as nat, (u - t) as nat);
            assert((c > 0 ==> c * p > 0) && (d > 0 ==> d * q > 0) && 0 * p == 0 && 0 * q == 0)
                by (nonlinear_arith)
                requires
                    p >= 1,
                    q >= 1,
            ;
        }
    }
}

/// Of two values that are numbers, exactly one holds: the first is below, the two
/// are equal, or the first is above.
pub proof fn law_order_agrees_with_equality(a: DecimalView, b: DecimalView)
    requires
        !(a is NotANumber),
        !(b is NotANumber),
    ensures
        backend::same_number(a, b) <==> arithmetic::number_order(a, b) == 0,
{
    lemma_zero_magnitudes(a, b);
}

/// Equality is an equivalence on values that are numbers, and holds of no NaN.
pub proof fn law_equality_is_equivalence(a: DecimalView, b: DecimalView, c: DecimalView)
    ensures
        backend::same_number(a, a) <==> !(a is NotANumber),
        backend::same_number(a, b) ==> backend::same_number(b, a),
        backend::same_number(a, b) && backend::same_number(b, c) ==> backend::same_number(a, c),
{
    if let DecimalView::Finite { coefficient, scale, .. } = a {
        scales::lemma_order_at(coefficient, scale, coefficient, scale, scale);
    }
    lemma_zero_magnitudes(a, b);
    lemma_zero_magnitudes(b, c);
    lemma_zero_magnitudes(a, c);
    lemma_magnitudes_transitive(a, b, c);
    lemma_magnitudes_transitive(c, b, a);
}

/// A zero of either sign and of any scale equals every other zero, is not below it,
/// and is neither negative nor positive.
pub proof fn law_zeros_are_equal(a: DecimalView, b: DecimalView)
    requires
        a.is_zero(),
        b.is_zero(),
    ensures
        backend::same_number(a, b),
        arithmetic::number_order(a, b) == 0,
        arithmetic::number_order(a, DecimalView::zero()) == 0,
{
}

/// Addition commutes.
pub proof fn law_sum_commutes(a: DecimalView, b: DecimalView)
    ensures
        arithmetic::sum_value(a, b) == arithmetic::sum_value(b, a),
{
}

/// Multiplication of numbers commutes.
pub proof fn law_product_commutes(a: DecimalView, b: DecimalView)
    requires
        rounding::in_format(a),
        rounding::in_format(b),
        a.representable(),
        b.representable(),
    ensures
        arithmetic::product_value(a, b) == arithmetic::product_value(b, a),
{
    if let DecimalView::Finite { coefficient: c, .. } = a {
        if let DecimalView::Finite { coefficient: d, .. } = b {
            assert(c * d == d * c) by (nonlinear_arith);
            law_product_is_rounded_once(a, b);
        }
    }
}

/// Subtracting is adding the negated value.
pub proof fn law_difference_is_sum(a: DecimalView, b: DecimalView)
    ensures
        arithmetic::difference_value(a, b) == arithmetic::sum_value(a, b.negated()),
{
}

/// A finite value less itself is a zero without a sign.
pub proof fn law_difference_with_itself(v: DecimalView)
    requires
        v is Finite,
        v.representable(),
    ensures
        arithmetic::difference_value(v, v).is_zero(),
        v.is_zero() || !arithmetic::difference_value(v, v).negative(),
{
    if let DecimalView::Finite { negative, coefficient, scale } = v {
        assert(digits::pow10(0) == 1);
        assert(coefficient * 1 == coefficient) by (nonlinear_arith);
    }
}

/// Bringing a number of the format to at most 34 digits does not change the number.
pub proof fn law_format_keeps_number(v: DecimalView)
    requires
        rounding::in_format(v),
        !(v is NotANumber),
    ensures
        backend::same_number(rounding::normalized(v), v),
{
    law_equality_is_equivalence(v, v, v);
    if let DecimalView::Finite { negative, coefficient: c, scale: s } = v {
        if c > 0 {
            scales::lemma_kept(negative, c, s);
        }
    }
}

/// Adding a zero to a number of the format does not change the number.
pub proof fn law_adding_zero(v: DecimalView, z: DecimalView)
    requires
        rounding::in_format(v),
        !(v is NotANumber),
        z.is_zero(),
    ensures
        backend::same_number(rounding::normalized(arithmetic::sum_value(v, z)), v),
{
    let sum = arithmetic::sum_value(v, z);
    law_equality_is_equivalence(v, v, v);
    if let DecimalView::Finite { negative, coefficient: c, scale: s } = v {
        if let DecimalView::Finite { scale: t, .. } = z {
            if c > 0 {
                arithmetic::lemma_widened_in_format(negative, c, s, t);
                law_format_keeps_number(sum);
                lemma_widened_same_number(negative, c, s, t);
                law_equality_is_equivalence(rounding::normalized(sum), sum, v);
            } else {
                assert(rounding::normalized(sum).is_zero());
            }
        }
    }
}

/// Appending zeros does not change a number.
pub proof fn lemma_widened_same_number(negative: bool, c: nat, s: int, target: int)
    ensures
        backend::same_number(
            backend::widened(negative, c, s, target),
            DecimalView::Finite { negative, coefficient: c, scale: s },
        ),
{
    let v = DecimalView::Finite { negative, coefficient: c, scale: s };
    law_equality_is_equivalence(v, v, v);
    if target > s && c > 0 {
        let k = if target - s <= backend::room(c) {
            (target - s) as nat
        } else {
            backend::room(c)
        };
        scales::lemma_order_at(c * digits::pow10(k), s + k, c, s, s + k);
        assert(digits::pow10(0) == 1);
        assert((c * digits::pow10(k)) * 1 == c * digits::pow10(k)) by (nonlinear_arith);
        assert((s + k - s) as nat == k);
    }
}

/// One is neutral in multiplication and as a divisor.
pub proof fn law_one_is_neutral(v: DecimalView)
    requires
        v.representable(),
        !(v is NotANumber),
    ensures
        arithmetic::product_value(v, DecimalView::one()) == v,
        arithmetic::quotient_value(v, DecimalView::one()) == v,
{
    if let DecimalView::Finite { coefficient, .. } = v {
        assert(coefficient * 1 == coefficient) by (nonlinear_arith);
    }
}

/// A zero over a zero is not a number; any other number over a zero is an infinity
/// with the sign of the quotient.
pub proof fn law_division_by_zero(v: DecimalView, z: DecimalView)
    requires
        !(v is NotANumber),
        z.is_zero(),
    ensures
        v.is_zero() ==> arithmetic::quotient_value(v, z) is NotANumber,
        !v.is_zero() ==> arithmetic::quotient_value(v, z) == (DecimalView::Infinite {
            negative: v.negative() != z.negative(),
        }),
{
}

/// Everything to the power of zero is one, zero and what is not a number included.
pub proof fn law_power_of_zero_is_one(base: DecimalView, z: DecimalView, magnitude: Magnitude)
    requires
        z.is_zero(),
    ensures
        rounding::normalized(arithmetic::raw_power(base, z, magnitude)) == DecimalView::one(),
{
    number::lemma_small_in_format(1);
    rounding::lemma_normalized_in_format(DecimalView::one());
    assert(digits::digit_count(1) == 1) by {
        reveal_with_fuel(digits::digit_count, 2);
    }
}

/// One, at any scale, to any power is one; that of minus one is one or minus one by the
/// parity of the exponent.
pub proof fn law_power_of_one(base: DecimalView, exponent: DecimalView, magnitude: Magnitude)
    requires
        number::is_unit(base),
    ensures
        !base.negative() || arithmetic::parity(exponent) == Some(true) ==> backend::same_number(
            rounding::normalized(arithmetic::raw_power(base, exponent, magnitude)),
            DecimalView::one(),
        ),
        base.negative() && arithmetic::parity(exponent) == Some(false) ==> backend::same_number(
            rounding::normalized(arithmetic::raw_power(base, exponent, magnitude)),
            DecimalView::one().negated(),
        ),
{
    let size = arithmetic::power_size(base, exponent, magnitude);
    lemma_one_is_not_zero(base);
    lemma_padded_one(false, 0);
    lemma_padded_one(true, 0);
    law_power_is_in_format(base, exponent, magnitude);
    if exponent.is_zero() {
        law_power_of_zero_is_one(base, exponent, magnitude);
        lemma_parity_of_zero(exponent);
    } else if let Some(v) = backend::known_power(base.magnitude(), exponent) {
        if let DecimalView::Finite { coefficient: c, scale: s, .. } = base {
            arithmetic::lemma_one_is_padded(c, s);
            if let DecimalView::Finite { scale: k, .. } = v {
                let n = backend::natural_exponent(exponent)->Some_0;
                assert(s * n >= 0) by (nonlinear_arith)
                    requires
                        s >= 0,
                        n >= 0,
                ;
                lemma_padded_one(false, k as nat);
                lemma_padded_one(true, k as nat);
            }
        }
    }
}

/// One with trailing zeros is brought to the format as one.
proof fn lemma_padded_one(negative: bool, k: nat)
    requires
        k <= 6000,
    ensures
        backend::same_number(
            rounding::normalized(
                DecimalView::Finite {
                    negative,
                    coefficient: digits::pow10(k),
                    scale: k as int,
                },
            ),
            DecimalView::Finite { negative, coefficient: 1, scale: 0 },
        ),
{
    let one = DecimalView::Finite { negative, coefficient: 1, scale: 0 };
    assert(1 * digits::pow10(k) == digits::pow10(k)) by (nonlinear_arith);
    assert(digits::digit_count(1) == 1) by {
        reveal_with_fuel(digits::digit_count, 2);
    }
    number::lemma_small_in_format(1);
    rounding::lemma_normalized_in_format(one);
    lemma_padded_rounds_alike(negative, 1, 0, k);
    law_format_keeps_number(one);
    law_equality_is_equivalence(
        rounding::normalized(
            DecimalView::Finite { negative, coefficient: digits::pow10(k), scale: k as int },
        ),
        rounding::normalized(one),
        one,
    );
}

/// What is one in size is not zero.
pub proof fn lemma_one_is_not_zero(base: DecimalView)
    requires
        backend::same_number(base.magnitude(), DecimalView::one()),
    ensures
        !base.is_zero(),
{
    lemma_zero_magnitudes(base.magnitude(), DecimalView::one());
}

/// Zero is even.
proof fn lemma_parity_of_zero(z: DecimalView)
    requires
        z.is_zero(),
    ensures
        arithmetic::parity(z) == Some(true),
{
    if let DecimalView::Finite { scale, .. } = z {
        if scale > 0 {
            digits::lemma_pow10_monotonic(scale as nat, scale as nat);
            let unit = digits::pow10(scale as nat);
            assert(0nat / unit == 0 && 0nat % unit == 0) by (nonlinear_arith)
                requires
                    unit >= 1,
            ;
        }
    }
}

/// A power that is a number is one of the format.
pub proof fn law_power_is_in_format(
    base: DecimalView,
    exponent: DecimalView,
    magnitude: Magnitude,
)
    ensures
        ({
            let r = arithmetic::raw_power(base, exponent, magnitude);
            !(r is NotANumber) ==> rounding::normalized(r) == r && rounding::in_format(r)
                && rounding::narrow(r)
        }),
{
    let size = rounding::normalized(arithmetic::power_size(base, exponent, magnitude));
    rounding::lemma_normalized_in_format(arithmetic::power_size(base, exponent, magnitude));
    number::lemma_small_in_format(1);
    digits::lemma_pow10_monotonic(1, 34);
    assert(digits::pow10(1) == 10 * digits::pow10(0));
    assert(digits::pow10(0) == 1);
    law_format_is_fixed(DecimalView::one());
    law_format_is_fixed(DecimalView::zero());
    if !(size is NotANumber) {
        law_format_is_fixed(size);
        law_format_is_fixed(size.negated());
    }
}

/// The parity of an integer exponent alone decides the sign of a negative base's
/// power; without an integer exponent a negative base has no power.
pub proof fn law_sign_of_power(base: DecimalView, exponent: DecimalView, magnitude: Magnitude)
    requires
        !(base is NotANumber),
        !base.negative(),
        !base.is_zero(),
        !exponent.is_zero(),
    ensures
        match arithmetic::parity(exponent) {
            None => arithmetic::raw_power(base.negated(), exponent, magnitude) is NotANumber,
            Some(true) => arithmetic::raw_power(base.negated(), exponent, magnitude)
                == arithmetic::raw_power(base, exponent, magnitude),
            Some(false) => arithmetic::raw_power(base.negated(), exponent, magnitude)
                == arithmetic::raw_power(base, exponent, magnitude).negated(),
        },
{
}

/// Negating twice changes nothing, and negating turns an order around.
pub proof fn law_negation(a: DecimalView, b: DecimalView)
    ensures
        a.negated().negated() == a,
        arithmetic::number_order(a.negated(), b.negated()) == arithmetic::number_order(b, a),
{
    lemma_magnitudes_antisymmetric(a, b);
}

/// A magnitude is not negative, and is its own magnitude.
pub proof fn law_magnitude(v: DecimalView)
    ensures
        !(v is NotANumber) ==> !v.magnitude().negative(),
        v.magnitude().magnitude() == v.magnitude(),
        v.negated().magnitude() == v.magnitude() || v is NotANumber,
{
}

/// Rounding to integers gives integers.
pub proof fn law_rounding_gives_integers(v: DecimalView)
    requires
        !(v is NotANumber),
    ensures
        number::integer_like(arithmetic::floor_of(v)),
        number::integer_like(arithmetic::ceil_of(v)),
        number::integer_like(arithmetic::trunc_of(v)),
        number::integer_like(arithmetic::nearest_of(v)),
{
    if let DecimalView::Finite { coefficient, scale, .. } = v {
        if scale <= 0 && coefficient > 0 {
            let k = if 0 - scale <= backend::room(coefficient) {
                (0 - scale) as nat
            } else {
                backend::room(coefficient)
            };
            assert(scale + k <= 0);
        }
    }
}

/// An integer is left as it is by rounding to integers, as far as numbers go.
pub proof fn law_integers_are_fixed(v: DecimalView)
    requires
        number::integer_like(v),
    ensures
        arithmetic::floor_of(v) == v,
        arithmetic::ceil_of(v) == v,
        backend::same_number(arithmetic::trunc_of(v), v),
        backend::same_number(arithmetic::nearest_of(v), v),
{
    arithmetic::lemma_integral(v);
    law_order_is_antisymmetric(v, arithmetic::trunc_of(v));
    if let DecimalView::Finite { coefficient, scale, .. } = v {
        if scale > 0 {
            digits::lemma_pow10_monotonic(scale as nat, scale as nat);
        }
        assert(arithmetic::nearest_of(v) == arithmetic::trunc_of(v));
    }
}

/// A value with a fraction lies strictly between its floor and its ceiling, which are
/// one apart; cutting off the fraction gives the one nearer to zero.
pub proof fn law_floor_and_ceiling(negative: bool, c: nat, s: int)
    requires
        !backend::integral(c, s),
    ensures
        ({
            let v = DecimalView::Finite { negative, coefficient: c, scale: s };
            let unit = digits::pow10(s as nat) as int;
            let x = decimal::signed(negative, c);
            exists|f: int|
                {
                    &&& #[trigger] arithmetic::is_integer_value(arithmetic::floor_of(v), f)
                    &&& arithmetic::is_integer_value(arithmetic::ceil_of(v), f + 1)
                    &&& arithmetic::is_integer_value(
                        arithmetic::trunc_of(v),
                        if negative {
                            f + 1
                        } else {
                            f
                        },
                    )
                    &&& f * unit < x < (f + 1) * unit
                }
        }),
{
    let v = DecimalView::Finite { negative, coefficient: c, scale: s };
    let unit = digits::pow10(s as nat) as int;
    let x = decimal::signed(negative, c);
    digits::lemma_pow10_monotonic(s as nat, s as nat);
    vstd::arithmetic::div_mod::lemma_fundamental_div_mod(c as int, unit);
    let whole = c as int / unit;
    assert(whole >= 0) by (nonlinear_arith)
        requires
            whole == c as int / unit,
            unit >= 1,
            c >= 0,
    ;
    let f = if negative {
        -whole - 1
    } else {
        whole
    };
    assert(f * unit < x < (f + 1) * unit) by (nonlinear_arith)
        requires
            c == unit * whole + c as int % unit,
            0 < c as int % unit < unit,
            x == (if negative {
                -(c as int)
            } else {
                c as int
            }),
            f == (if negative {
                -whole - 1
            } else {
                whole
            }),
    ;
    assert(arithmetic::is_integer_value(arithmetic::floor_of(v), f));
}

/// Rounding to the nearest integer moves a value by at most one half.
pub proof fn law_nearest_is_nearest(negative: bool, c: nat, s: int)
    requires
        s > 0,
    ensures
        ({
            let unit = digits::pow10(s as nat) as int;
            arithmetic::nearest_of(DecimalView::Finite { negative, coefficient: c, scale: s })
                matches DecimalView::Finite { negative: m, coefficient: q, scale: t } && m
                == negative && t == 0 && 2 * (q * unit - c) <= unit && 2 * (c - q * unit) < unit
        }),
{
    let unit = digits::pow10(s as nat) as int;
    digits::lemma_pow10_monotonic(s as nat, s as nat);
    vstd::arithmetic::div_mod::lemma_fundamental_div_mod(c as int, unit);
    let whole = c as int / unit;
    assert(unit * whole == whole * unit && (whole + 1) * unit == whole * unit + unit)
        by (nonlinear_arith);
    assert(whole >= 0) by (nonlinear_arith)
        requires
            whole == c as int / unit,
            unit >= 1,
            c >= 0,
    ;
}

/// A finite integer is either even or odd; nothing is both.
pub proof fn law_even_or_odd(v: DecimalView)
    ensures
        !(number::even_value(v) && number::odd_value(v)),
        v is Finite && number::integer_like(v) ==> number::even_value(v) != number::odd_value(v),
{
}

/// The parity of an integer is that of the number it is: an integer at a scale of at
/// most 0 is even where `c * 10^-s` is.
pub proof fn law_parity_is_that_of_the_number(negative: bool, c: nat, s: int)
    requires
        s <= 0,
    ensures
        arithmetic::parity(DecimalView::Finite { negative, coefficient: c, scale: s }) == Some(
            backend::integer_value(negative, c, s) % 2 == 0,
        ),
{
    let p = digits::pow10((-s) as nat);
    if s < 0 {
        let r = digits::pow10((-s - 1) as nat);
        assert(p == 10 * r);
        assert(c * p == 2 * (c * (5 * r))) by (nonlinear_arith)
            requires
                p == 10 * r,
        ;
    } else {
        assert(digits::pow10(0) == 1);
        assert(c * 1 == c) by (nonlinear_arith);
    }
}

/// A value is what is left of it without its fraction together with that fraction,
/// which has the value's sign and scale and is below one.
pub proof fn law_trunc_and_frac(negative: bool, c: nat, s: int)
    requires
        s > 0,
        c < decimal::coefficient_limit(),
    ensures
        ({
            let v = DecimalView::Finite { negative, coefficient: c, scale: s };
            let unit = digits::pow10(s as nat);
            let whole = arithmetic::trunc_of(v);
            let rest = arithmetic::difference_value(v, whole);
            &&& whole == (DecimalView::Finite { negative, coefficient: c / unit, scale: 0 })
            &&& rest matches DecimalView::Finite { negative: m, coefficient: f, scale: t } && f == c
                % unit && t == s && (f > 0 ==> m == negative)
            &&& (c / unit) * unit + c % unit == c
            &&& c % unit < unit
        }),
{
    let unit = digits::pow10(s as nat);
    digits::lemma_pow10_monotonic(s as nat, s as nat);
    vstd::arithmetic::div_mod::lemma_fundamental_div_mod(c as int, unit as int);
    let whole = c / unit;
    assert(unit * whole == whole * unit) by (nonlinear_arith);
    assert(whole >= 0) by (nonlinear_arith)
        requires
            whole == c / unit,
            unit >= 1,
    ;
    assert(digits::pow10(0) == 1);
    assert(c * 1 == c) by (nonlinear_arith);
    assert((s - 0) as nat == s as nat);
    if whole == 0 {
        assert(0 * unit == 0) by (nonlinear_arith);
    }
    if c == 0 {
        assert(0nat % unit == 0 && 0nat / unit == 0) by (nonlinear_arith)
            requires
                unit >= 1,
        ;
    }
}

/// An integer becomes a number and comes back unchanged.
pub proof fn law_integers_come_back(n: int)
    ensures
        convert::whole_part(convert::integer_of(n)) == Some(n),
{
    let m = vstd::math::abs(n) as nat;
    assert(digits::pow10(0) == 1);
    assert(m * 1 == m) by (nonlinear_arith);
}

/// A zero, and a value that is not finite, is refused every scale but 0, short of the
/// few that saturate.
pub proof fn law_zero_has_no_scale(v: DecimalView, scale: int)
    requires
        v.is_zero() || !(v is Finite),
        i32::MIN <= scale < i32::MAX - 6110,
        scale != 0,
    ensures
        !number::scale_allowed(v, scale),
{
}

/// Moving a number of at most 34 digits by a power of ten and back gives the number
/// again, as long as the moved number is one that the format stores.
pub proof fn law_shifting_there_and_back(negative: bool, c: nat, s: int, n: int)
    requires
        c > 0,
        rounding::narrow(DecimalView::Finite { negative, coefficient: c, scale: s }),
        rounding::in_format(DecimalView::Finite { negative, coefficient: c, scale: s }),
        rounding::in_format(DecimalView::Finite { negative, coefficient: c, scale: s - n }),
    ensures
        ({
            let v = DecimalView::Finite { negative, coefficient: c, scale: s };
            let moved = rounding::normalized(arithmetic::shifted(v, n));
            &&& moved == (DecimalView::Finite { negative, coefficient: c, scale: s - n })
            &&& rounding::normalized(arithmetic::shifted(moved, -n)) == v
        }),
{
    rounding::lemma_precision_fits(c);
    rounding::lemma_coefficient_digits(c);
    law_format_is_fixed(DecimalView::Finite { negative, coefficient: c, scale: s });
    law_format_is_fixed(DecimalView::Finite { negative, coefficient: c, scale: s - n });
}

/// Trailing zeros are all that trimming takes away.
proof fn lemma_trimmed(s: Seq<char>)
    ensures
        display::trimmed(s).len() <= s.len(),
        s == display::trimmed(s) + digits::zeros((s.len() - display::trimmed(s).len()) as nat),
    decreases s.len(),
{
    if s.len() > 0 && s.last() == '0' {
        lemma_trimmed(s.drop_last());
        let t = display::trimmed(s);
        assert(s =~= s.drop_last().push('0'));
        assert(s =~= t + digits::zeros((s.len() - t.len()) as nat));
    } else {
        assert(s =~= s + digits::zeros(0));
    }
}

/// The digits written before and after the point are those of the coefficient, with
/// the zeros that trimming takes away.
proof fn lemma_written_digits(c: nat, s: int, trim: bool)
    requires
        s >= 0,
    ensures
        ({
            let whole = display::whole_text(c, s);
            let fraction = display::fraction_text(c, s, trim);
            &&& fraction.len() <= s
            &&& digits::value(whole + fraction) * digits::pow10((s - fraction.len()) as nat) == c
            &&& !trim ==> fraction.len() == s
            &&& whole.len() + fraction.len() <= s + 1 + digits::digit_count(c)
        }),
{
    let sb = digits::decimal_text(c);
    let whole = display::whole_text(c, s);
    let fraction = display::fraction_text(c, s, trim);
    let full = display::fraction_text(c, s, false);
    digits::lemma_decimal_text(c);
    lemma_trimmed(sb);
    assert(digits::value(whole + full) == c) by {
        if s == 0 {
            assert(whole + full =~= sb);
        } else if sb.len() <= s {
            let lead = seq!['0'] + digits::zeros((s - sb.len()) as nat);
            assert(lead =~= digits::zeros((s - sb.len() + 1) as nat));
            digits::lemma_value_zeros((s - sb.len() + 1) as nat);
            digits::lemma_split_value(whole + full, lead.len() as int);
            assert((whole + full).take(lead.len() as int) =~= lead);
            assert((whole + full).skip(lead.len() as int) =~= sb);
            assert(0 * digits::pow10(sb.len()) == 0) by (nonlinear_arith);
        } else {
            assert(whole + full =~= sb);
        }
    }
    if 0 < s < sb.len() {
        lemma_trimmed(sb.skip(sb.len() - s));
    }
    let j = (full.len() - fraction.len()) as nat;
    assert(full =~= fraction + digits::zeros(j));
    let text = whole + fraction;
    digits::lemma_split_value(whole + full, text.len() as int);
    assert((whole + full).take(text.len() as int) =~= text);
    assert((whole + full).skip(text.len() as int) =~= digits::zeros(j));
    digits::lemma_value_zeros(j);
}

/// A text of digits, a point and a sign can be read.
proof fn lemma_plain_text(negative: bool, whole: Seq<char>, fraction: Seq<char>)
    requires
        digits::all_digits(whole),
        digits::all_digits(fraction),
        whole.len() > 0,
        whole.len() + fraction.len() <= 0x7fff_0000,
    ensures
        ({
            let text = grammar::plain(negative, whole, fraction).text();
            &&& literal::without_blanks(text) == text
            &&& backend::readable(text)
        }),
{
    let text = grammar::plain(negative, whole, fraction).text();
    let n = if negative {
        1int
    } else {
        0
    };
    let w = whole.len() as int;
    assert(text.len() <= w + fraction.len() + 2);
    assert forall|i: int| 0 <= i < text.len() implies text[i] != 'e' && text[i] != 'E' by {
        if n <= i < n + w {
            assert(text[i] == whole[i - n]);
        } else if i > n + w {
            assert(text[i] == fraction[i - n - w - 1]);
        }
    }
    rounding::lemma_first_of_absent(text, 'e', 'E');
    if negative {
        assert(text[0] == '-');
    } else {
        assert(text[0] == whole[0]);
    }
}

/// The text of a value is the literal of the digits before and after its point.
proof fn lemma_text_is_literal(negative: bool, c: nat, s: int, trim: bool)
    ensures
        display::display_text(
            DecimalView::Finite { negative, coefficient: c, scale: s },
            trim,
            None,
        ) == grammar::plain(
            negative,
            display::whole_text(c, s),
            display::fraction_text(c, s, trim),
        ).text(),
{
    let v = DecimalView::Finite { negative, coefficient: c, scale: s };
    assert(display::display_text(v, trim, None) =~= grammar::plain(
        negative,
        display::whole_text(c, s),
        display::fraction_text(c, s, trim),
    ).text());
}

/// A number written as typed is read back digit for digit: with its sign, its
/// coefficient and its scale.
pub proof fn law_typed_text_reads_back(negative: bool, c: nat, s: int)
    requires
        s >= 0,
        (DecimalView::Finite { negative, coefficient: c, scale: s }).representable(),
        rounding::in_format(DecimalView::Finite { negative, coefficient: c, scale: s }),
        rounding::narrow(DecimalView::Finite { negative, coefficient: c, scale: s }),
    ensures
        ({
            let v = DecimalView::Finite { negative, coefficient: c, scale: s };
            let text = display::display_text(v, false, None);
            let whole = display::whole_text(c, s);
            let fraction = display::fraction_text(c, s, false);
            &&& literal::without_blanks(text) == text
            &&& backend::readable(text)
            &&& text == grammar::plain(negative, whole, fraction).text()
            &&& grammar::plain(negative, whole, fraction).well_formed()
            &&& literal::literal_number(grammar::plain(negative, whole, fraction)) == Some(v)
        }),
{
    let v = DecimalView::Finite { negative, coefficient: c, scale: s };
    let whole = display::whole_text(c, s);
    let fraction = display::fraction_text(c, s, false);
    display::lemma_parts_are_digits(c, s, false);
    rounding::lemma_coefficient_digits(c);
    lemma_written_digits(c, s, false);
    lemma_plain_text(negative, whole, fraction);
    lemma_text_is_literal(negative, c, s, false);
    assert(digits::pow10(0) == 1);
    assert(digits::value(whole + fraction) * 1 == digits::value(whole + fraction)) by (nonlinear_arith);
    grammar::lemma_plain(negative, whole, fraction);
    law_format_is_fixed(v);
}

/// A number written in either way is read back as the same number, as long as its
/// digits fit in a coefficient.
pub proof fn law_text_reads_back(negative: bool, c: nat, s: int, trim: bool)
    requires
        (DecimalView::Finite { negative, coefficient: c, scale: s }).representable(),
        rounding::in_format(DecimalView::Finite { negative, coefficient: c, scale: s }),
        s < 0 ==> c * digits::pow10((-s) as nat) < decimal::coefficient_limit(),
    ensures
        ({
            let v = DecimalView::Finite { negative, coefficient: c, scale: s };
            let text = display::display_text(v, trim, None);
            let whole = display::whole_text(c, s);
            let fraction = display::fraction_text(c, s, trim);
            &&& literal::without_blanks(text) == text
            &&& backend::readable(text)
            &&& text == grammar::plain(negative, whole, fraction).text()
            &&& grammar::plain(negative, whole, fraction).well_formed()
            &&& literal::literal_number(grammar::plain(negative, whole, fraction)) matches Some(w)
                && backend::same_number(w, v)
        }),
{
    let v = DecimalView::Finite { negative, coefficient: c, scale: s };
    let whole = display::whole_text(c, s);
    let fraction = display::fraction_text(c, s, trim);
    display::lemma_parts_are_digits(c, s, trim);
    rounding::lemma_coefficient_digits(c);
    lemma_text_is_literal(negative, c, s, trim);
    let d = digits::value(whole + fraction);
    let t = fraction.len() as int;
    if s >= 0 {
        lemma_written_digits(c, s, trim);
        let k = (s - t) as nat;
        digits::lemma_pow10_monotonic(k, k);
        assert(d <= c) by (nonlinear_arith)
            requires
                d * digits::pow10(k) == c,
                digits::pow10(k) >= 1,
                d >= 0,
        ;
        lemma_plain_text(negative, whole, fraction);
        grammar::lemma_plain(negative, whole, fraction);
        lemma_shortened(negative, d, t, k);
    } else {
        let k = (-s) as nat;
        let sb = digits::decimal_text(c);
        digits::lemma_decimal_text(c);
        digits::lemma_value_zeros(k);
        digits::lemma_split_value(whole + fraction, sb.len() as int);
        assert((whole + fraction).take(sb.len() as int) =~= sb);
        assert((whole + fraction).skip(sb.len() as int) =~= digits::zeros(k));
        assert(d == c * digits::pow10(k));
        lemma_plain_text(negative, whole, fraction);
        grammar::lemma_plain(negative, whole, fraction);
        if c == 0 {
            assert(0 * digits::pow10(k) == 0) by (nonlinear_arith);
        } else {
            rounding::lemma_room(c, k);
            arithmetic::lemma_widened_in_format(negative, c, s, 0);
            lemma_widened_same_number(negative, c, s, 0);
            digits::lemma_digit_count_scale_up(c, k);
            let w = DecimalView::Finite { negative, coefficient: d, scale: 0 };
            assert(backend::widened(negative, c, s, 0) == w);
            law_format_keeps_number(w);
            law_equality_is_equivalence(rounding::normalized(w), w, v);
        }
    }
}

/// A number whose digits do not fit in a coefficient when they are written out is not
/// read back.
pub proof fn law_long_text_is_refused(negative: bool, c: nat, s: int, trim: bool)
    requires
        s < 0,
        c * digits::pow10((-s) as nat) >= decimal::coefficient_limit(),
    ensures
        ({
            let v = DecimalView::Finite { negative, coefficient: c, scale: s };
            let whole = display::whole_text(c, s);
            let fraction = display::fraction_text(c, s, trim);
            let l = grammar::plain(negative, whole, fraction);
            &&& display::display_text(v, trim, None) == l.text()
            &&& l.well_formed()
            &&& literal::literal_number(l) is None
        }),
{
    let whole = display::whole_text(c, s);
    let fraction = display::fraction_text(c, s, trim);
    let k = (-s) as nat;
    let sb = digits::decimal_text(c);
    display::lemma_parts_are_digits(c, s, trim);
    lemma_text_is_literal(negative, c, s, trim);
    digits::lemma_decimal_text(c);
    digits::lemma_value_zeros(k);
    digits::lemma_split_value(whole + fraction, sb.len() as int);
    assert((whole + fraction).take(sb.len() as int) =~= sb);
    assert((whole + fraction).skip(sb.len() as int) =~= digits::zeros(k));
    grammar::lemma_plain_form(negative, whole, fraction);
}

/// A value without `k` of its trailing zeros is the same number, and stays in the
/// format.
proof fn lemma_shortened(negative: bool, d: nat, t: int, k: nat)
    requires
        0 <= t,
        t + k <= 32767,
        rounding::in_format(
            DecimalView::Finite { negative, coefficient: d * digits::pow10(k), scale: t + k },
        ),
    ensures
        ({
            let v = DecimalView::Finite {
                negative,
                coefficient: d * digits::pow10(k),
                scale: t + k,
            };
            let w = backend::constructed(negative, d, -t);
            rounding::normalized(w) is Finite && backend::same_number(rounding::normalized(w), v)
        }),
{
    let c = d * digits::pow10(k);
    let v = DecimalView::Finite { negative, coefficient: c, scale: t + k };
    let w = DecimalView::Finite { negative, coefficient: d, scale: t };
    assert(backend::constructed(negative, d, -t) == w);
    digits::lemma_pow10_monotonic(k, k);
    if d == 0 {
        assert(0 * digits::pow10(k) == 0) by (nonlinear_arith);
        rounding::lemma_to_precision(0, t);
    } else {
        let n = digits::digit_count(d);
        digits::lemma_digit_count_scale_up(d, k);
        if n > rounding::PRECISION {
            let j = (n - rounding::PRECISION) as nat;
            assert(k + j == (n + k - rounding::PRECISION) as nat);
            arithmetic::lemma_divisible_split(c, k, j);
            rounding::lemma_quotient(d, digits::pow10(k), 0);
        }
        law_format_keeps_number(w);
        scales::lemma_order_at(d, t, c, t + k, t + k);
        assert((t + k - t) as nat == k);
        assert(digits::pow10(0) == 1);
        assert(c * 1 == c) by (nonlinear_arith);
        law_equality_is_equivalence(rounding::normalized(w), w, v);
    }
}

/// The remainder of a number that is a whole multiple of the divisor is zero: one
/// coefficient divides the other, and the quotient is an integer of the format.
pub proof fn law_remainder_of_a_multiple(a: DecimalView, b: DecimalView)
    requires
        rounding::in_format(a),
        rounding::narrow(a),
        a matches DecimalView::Finite { coefficient: c, scale: s, .. } && b
            matches DecimalView::Finite { coefficient: d, scale: t, .. } && c > 0 && d > 0 && c % d
            == 0 && s <= t && rounding::in_format(
            DecimalView::Finite { negative: false, coefficient: c / d, scale: s - t },
        ),
    ensures
        arithmetic::remainder_value(a, b).is_zero(),
{
    if let DecimalView::Finite { negative: m, coefficient: c, scale: s } = a {
        if let DecimalView::Finite { negative: n, coefficient: d, scale: t } = b {
            let q = c / d;
            vstd::arithmetic::div_mod::lemma_fundamental_div_mod(c as int, d as int);
            assert(q * d == d * q && 0 < q <= c) by (nonlinear_arith)
                requires
                    c == d * q,
                    c > 0,
                    d > 0,
            ;
            if b == DecimalView::one() {
                assert(c / 1 == c) by (nonlinear_arith);
            }
            let whole = DecimalView::Finite { negative: m != n, coefficient: q, scale: s - t };
            rounding::lemma_precision_fits(c);
            rounding::lemma_precision_fits(q);
            rounding::lemma_coefficient_digits(c);
            rounding::lemma_coefficient_digits(q);
            assert(arithmetic::quotient_value(a, b) == whole);
            law_format_is_fixed(whole);
            law_format_is_fixed(a);
            assert(arithmetic::floor_of(whole) == whole);
            assert(arithmetic::product_value(b, whole) == a);
            law_difference_with_itself(a);
            let zero = arithmetic::difference_value(a, a);
            if let DecimalView::Finite { scale, .. } = zero {
                rounding::lemma_to_precision(0, scale);
            }
        }
    }
}

/// The square root of an even power of ten is the power of ten with half the exponent.
pub proof fn law_root_of_even_power_of_ten(c: nat, s: int, k: int)
    requires
        0 < c < decimal::coefficient_limit(),
        rounding::in_format(DecimalView::Finite { negative: false, coefficient: c, scale: s }),
        backend::finite_order(c, s, 1, -2 * k) == 0,
    ensures
        arithmetic::raw_root(DecimalView::Finite { negative: false, coefficient: c, scale: s })
            == (DecimalView::Finite { negative: false, coefficient: 1, scale: -k }),
{
    let v = DecimalView::Finite { negative: false, coefficient: c, scale: s };
    assert(digits::pow10(0) == 1);
    assert(digits::pow10(1) == 10 * digits::pow10(0));
    digits::lemma_digit_count_is(1, 1);
    digits::lemma_pow10_monotonic(1, 34);
    rounding::lemma_coefficient_digits(c);
    rounding::lemma_precision_fits(1);
    scales::lemma_order_chain(c, s, 1, -2 * k, c, s);
    scales::lemma_order_of_leading(c, s, 1, -2 * k);
    scales::lemma_order_of_leading(1, -2 * k, c, s);
    assert(rounding::order_of(v) == 2 * k);
    scales::lemma_moved(false, c, s, -2 * k);
    if let DecimalView::Finite { coefficient: d, scale: t, .. } = rounding::normalized(
        arithmetic::shifted(v, -2 * k),
    ) {
        scales::lemma_order_chain(d, t, c, s + 2 * k, 1, 0);
    }
    law_format_is_fixed(DecimalView::Finite { negative: false, coefficient: 1, scale: -k });
}

/// How many zeros a power of ten loses until it fits in a coefficient.
pub proof fn lemma_spill_of_ten(k: nat)
    ensures
        backend::spill(digits::pow10(k)) == (if k > 77 {
            (k - 77) as nat
        } else {
            0
        }),
    decreases k,
{
    lemma_double_precision();
    digits::lemma_pow10_add(68, 8);
    assert(digits::pow10(8) == 100_000_000nat) by {
        reveal_with_fuel(digits::pow10, 9);
    }
    assert(digits::pow10(17) == 100_000_000_000_000_000nat) by {
        reveal_with_fuel(digits::pow10, 18);
    }
    digits::lemma_pow10_add(17, 17);
    assert(digits::pow10(34) == 10_000_000_000_000_000_000_000_000_000_000_000nat);
    digits::lemma_pow10_add(34, 34);
    assert(digits::pow10(77) == 10 * digits::pow10(76));
    assert(digits::pow10(78) == 10 * digits::pow10(77));
    if k > 77 {
        digits::lemma_pow10_monotonic(78, k);
        let low = digits::pow10((k - 1) as nat);
        assert(digits::pow10(k) == 10 * low);
        assert(digits::pow10(k) / 10 == low);
        lemma_spill_of_ten((k - 1) as nat);
    } else {
        digits::lemma_pow10_monotonic(k, 77);
    }
}

/// The square of one, at any scale, is the product of one with itself.
proof fn lemma_square_of_one(c: nat, s: int)
    requires
        0 < c < decimal::coefficient_limit(),
        backend::finite_order(c, s, 1, 0) == 0,
        i16::MIN <= s <= i16::MAX,
    ensures
        ({
            let v = DecimalView::Finite { negative: false, coefficient: c, scale: s };
            backend::known_power(v, DecimalView::two()) == backend::known_product(v, v)
        }),
{
    let v = DecimalView::Finite { negative: false, coefficient: c, scale: s };
    assert(digits::pow10(0) == 1);
    assert(2nat * 1 == 2) by (nonlinear_arith);
    assert(backend::natural_exponent(DecimalView::two()) == Some(2nat));
    arithmetic::lemma_one_is_padded(c, s);
    let k = s as nat;
    digits::lemma_pow10_add(k, k);
    assert(c * c == digits::pow10(k + k));
    lemma_spill_of_ten(k);
    lemma_spill_of_ten(k + k);
    assert(k <= 77) by {
        if k > 77 {
            assert(backend::spill(c) == 0);
        }
    }
    let n = backend::natural_exponent(DecimalView::two())->Some_0;
    assert(s * n == s + s) by (nonlinear_arith)
        requires
            n == 2,
    ;
    if k + k > 77 {
        let z = (k + k - 77) as nat;
        digits::lemma_pow10_add(77, z);
        digits::lemma_pow10_monotonic(z, z);
        rounding::lemma_quotient(digits::pow10(77), digits::pow10(z), 0);
        assert(backend::spill(c * c) > 0);
        assert(c * c >= decimal::coefficient_limit());
        digits::lemma_pow10_monotonic(0, 77);
    } else {
        assert(c * c < decimal::coefficient_limit()) by {
            if c * c >= decimal::coefficient_limit() {
                assert(backend::spill(c * c) > 0);
            }
        }
        digits::lemma_pow10_monotonic(0, k + k);
    }
}

/// The square of a number is the product of the number with itself.
pub proof fn law_square_is_product(v: DecimalView)
    requires
        v is Finite,
        rounding::in_format(v),
        v.representable(),
    ensures
        backend::same_number(
            rounding::normalized(arithmetic::power_value(v, DecimalView::two())),
            rounding::normalized(arithmetic::product_value(v, v)),
        ),
        !v.is_zero() ==> rounding::normalized(arithmetic::power_value(v, DecimalView::two()))
            == rounding::normalized(arithmetic::product_value(v, v)),
{
    if let DecimalView::Finite { negative, coefficient: c, scale: s } = v {
        let two = DecimalView::two();
        let product = arithmetic::product_value(v, v);
        let r = rounding::normalized(product);
        law_product_is_rounded_once(v, v);
        assert(digits::pow10(0) == 1);
        assert(2nat * 1 == 2) by (nonlinear_arith);
        assert(backend::natural_exponent(two) == Some(2nat));
        if c == 0 {
            rounding::lemma_to_precision(0, 0);
        } else {
            assert(arithmetic::parity(two) == Some(true)) by {
                assert(2nat / 1 == 2) by (nonlinear_arith);
            }
            rounding::lemma_normalized_in_format(product);
            law_equality_is_equivalence(r, r, r);
            if number::is_unit(v) {
                lemma_square_of_one(c, s);
            } else {
                number::lemma_small_in_format(2);
                law_exact_power_is_rounded_once(v, two);
            }
            law_normalizing_is_idempotent(product);
        }
    }
}

/// A coefficient of at most 34 digits at a small scale is in the format.
proof fn lemma_small_in_format(negative: bool, c: nat, u: nat)
    requires
        c < digits::pow10(34),
        u <= 17,
    ensures
        rounding::in_format(
            DecimalView::Finite { negative, coefficient: c, scale: u as int },
        ),
        rounding::narrow(DecimalView::Finite { negative, coefficient: c, scale: u as int }),
{
    rounding::lemma_precision_fits(c);
    digits::lemma_digit_count_bounds(c);
}

/// A smaller coefficient of the other sign at the same scale leaves the difference.
proof fn lemma_same_scale(negative: bool, c: nat, d: nat, s: int)
    requires
        0 < d <= c < decimal::coefficient_limit(),
    ensures
        backend::finite_sum(
            DecimalView::Finite { negative, coefficient: c, scale: s },
            DecimalView::Finite { negative: !negative, coefficient: d, scale: s },
        ) == Some(
            DecimalView::Finite {
                negative: negative && c > d,
                coefficient: (c - d) as nat,
                scale: s,
            },
        ),
{
    assert((s - s) as nat == 0);
    assert(digits::pow10(0) == 1);
    assert(c * 1 == c && d * 1 == d) by (nonlinear_arith);
    let x = c * digits::pow10((s - s) as nat);
    let y = d * digits::pow10((s - s) as nat);
    assert(x == c && y == d);
}

/// Rounding half down a number with one digit after the point goes to the nearest
/// integer, and from a tie to the one nearer to zero.
pub proof fn law_half_down_at_tenths(negative: bool, c: nat)
    requires
        0 < c < digits::pow10(34),
    ensures
        ({
            let v = DecimalView::Finite { negative, coefficient: c, scale: 1 };
            number::round_half_down_value(v, 0) matches DecimalView::Finite {
                negative: m,
                coefficient: q,
                scale: t,
            } && t == 0 && q == (c + 4) / 10 && (q > 0 ==> m == negative)
        }),
{
    let v = DecimalView::Finite { negative, coefficient: c, scale: 1 };
    let moved = if negative {
        arithmetic::sum_value(v, number::tenth())
    } else {
        arithmetic::difference_value(v, number::tenth())
    };
    assert(digits::pow10(0) == 1);
    assert(digits::pow10(1) == 10) by {
        reveal_with_fuel(digits::pow10, 2);
    }
    assert(c * 1 == c) by (nonlinear_arith);
    rounding::lemma_precision_fits(c);
    let rest = (c - 1) as nat;
    lemma_same_scale(negative, c, 1, 1);
    assert(moved == (DecimalView::Finite {
        negative: negative && c > 1,
        coefficient: rest,
        scale: 1,
    }));
    lemma_small_in_format(negative && c > 1, rest, 1);
    law_format_is_fixed(moved);
}

/// Only one number is the nearest quotient of at most 34 digits: two that both are
/// differ in trailing zeros at most.
pub proof fn law_nearest_quotient_is_unique(c: nat, d: nat, q: nat, j: nat, r: nat, k: nat)
    requires
        c > 0,
        d > 0,
        j <= k,
        arithmetic::nearest_quotient(c, d, q, j),
        arithmetic::nearest_quotient(c, d, r, k),
    ensures
        backend::finite_order(q, j as int, r, k as int) == 0,
{
    let i = (k - j) as nat;
    let p = digits::pow10(i);
    let x = c * digits::pow10(j);
    let gap = q * d - x;
    let other = r * d - c * digits::pow10(k);
    digits::lemma_pow10_add(j, i);
    digits::lemma_pow10_monotonic(i, i);
    assert(c * digits::pow10(k) == x * p) by (nonlinear_arith)
        requires
            digits::pow10(k) == digits::pow10(j) * p,
            x == c * digits::pow10(j),
    ;
    let apart = r - q * p;
    assert(apart * d == other - gap * p) by (nonlinear_arith)
        requires
            apart == r - q * p,
            other == r * d - x * p,
            gap == q * d - x,
    ;
    let high = digits::pow10(34) as int;
    let low = digits::pow10(33) as int;
    assert(high == 10 * low);
    digits::lemma_pow10_monotonic(1, 33);
    assert(digits::pow10(1) == 10) by {
        reveal_with_fuel(digits::pow10, 2);
    }
    if gap == 0 {
        assert(apart == 0) by (nonlinear_arith)
            requires
                apart * d == other - gap * p,
                gap == 0,
                -(d as int) <= 2 * other <= d,
                d > 0,
        ;
    } else if i == 0 {
        assert(digits::pow10(0) == 1);
        assert(q * p == q) by (nonlinear_arith)
            requires
                p == 1,
        ;
        assert(-1 <= apart <= 1 && (apart == 1 ==> 2 * other == d && 2 * gap == -(d as int)) && (
        apart == -1 ==> 2 * other == -(d as int) && 2 * gap == d)) by (nonlinear_arith)
            requires
                apart * d == other - gap * p,
                p == 1,
                -(d as int) <= 2 * other <= d,
                -(d as int) <= 2 * gap <= d,
                d > 0,
        ;
    } else if q == low {
        assert(q * p == low * p);
        digits::lemma_pow10_monotonic(1, i);
        assert(apart <= -1) by (nonlinear_arith)
            requires
                apart == r - low * p,
                r <= high - 1,
                high == 10 * low,
                p >= 10,
                low >= 10,
        ;
        assert(p == 10) by {
            if p != 10 {
                digits::lemma_pow10_monotonic(2, i);
                assert(digits::pow10(2) == 100) by {
                    reveal_with_fuel(digits::pow10, 3);
                }
                assert(false) by (nonlinear_arith)
                    requires
                        apart * d == other - gap * p,
                        apart == r - low * p,
                        r <= high - 1,
                        high == 10 * low,
                        p >= 100,
                        low >= 10,
                        20 * gap <= d,
                        -(d as int) <= 2 * other,
                        d > 0,
                ;
            }
        }
        assert(apart == -1 && 2 * other == -(d as int)) by (nonlinear_arith)
            requires
                apart <= -1,
                apart * d == other - gap * p,
                p == 10,
                20 * gap <= d,
                -(d as int) <= 2 * other,
                d > 0,
        ;
        assert(r == high - 1);
    } else {
        digits::lemma_pow10_monotonic(1, i);
        assert(false) by (nonlinear_arith)
            requires
                apart * d == other - gap * p,
                apart == r - q * p,
                r <= high - 1,
                high == 10 * low,
                q >= low + 1,
                p >= 10,
                low >= 10,
                2 * gap <= d,
                -(d as int) <= 2 * other,
                d > 0,
        ;
    }
    scales::lemma_order_at(q, j as int, r, k as int, k as int);
    assert(digits::pow10(0) == 1);
    assert(r * 1 == r) by (nonlinear_arith);
    assert((k as int - j as int) as nat == i);
    assert((k as int - k as int) as nat == 0);
}

/// Powers of naturals grow with the base.
pub proof fn lemma_pow_grows(x: nat, y: nat, q: nat)
    requires
        x < y,
        q > 0,
    ensures
        0 <= vstd::arithmetic::power::pow(x as int, q) < vstd::arithmetic::power::pow(y as int, q),
    decreases q,
{
    reveal(vstd::arithmetic::power::pow);
    let r = (q - 1) as nat;
    let a = vstd::arithmetic::power::pow(x as int, r);
    let b = vstd::arithmetic::power::pow(y as int, r);
    if r > 0 {
        lemma_pow_grows(x, y, r);
    } else {
        vstd::arithmetic::power::lemma_pow0(x as int);
        vstd::arithmetic::power::lemma_pow0(y as int);
    }
    assert(0 <= x * a < y * b) by (nonlinear_arith)
        requires
            0 <= x < y,
            0 <= a <= b,
            b > 0,
    ;
}

/// A power to a natural number is compared with a power of ten without its fraction.
pub proof fn lemma_whole_power(c: nat, n: nat, q: nat, places: int)
    requires
        c > 0,
        q > 0,
    ensures
        ({
            let whole = vstd::arithmetic::power::pow(c as int, n);
            let power = vstd::arithmetic::power::pow(c as int, n * q);
            &&& whole >= 1
            &&& places >= 0 && power >= digits::pow10((places * q) as nat) ==> whole
                >= digits::pow10(places as nat)
            &&& places >= 0 && power <= digits::pow10((places * q) as nat) ==> whole
                <= digits::pow10(places as nat)
        }),
{
    let whole = vstd::arithmetic::power::pow(c as int, n);
    vstd::arithmetic::power::lemma_pow_positive(c as int, n);
    vstd::arithmetic::power::lemma_pow_multiplies(c as int, n, q);
    if places >= 0 {
        let k = places as nat;
        arithmetic::lemma_pow_of_ten(k, q);
        assert(places * q == k * q);
        if whole < digits::pow10(k) {
            lemma_pow_grows(whole as nat, digits::pow10(k), q);
        }
        if whole > digits::pow10(k) {
            lemma_pow_grows(digits::pow10(k), whole as nat, q);
        }
    }
}

/// A value at or above `10^6145` is infinite in the format.
pub proof fn law_above_range_is_infinite(negative: bool, c: nat, s: int)
    requires
        c > 0,
        s + 6145 < 0 || c >= digits::pow10((s + 6145) as nat),
    ensures
        rounding::normalized(DecimalView::Finite { negative, coefficient: c, scale: s }) == (
        DecimalView::Infinite { negative }),
{
    digits::lemma_digit_count_bounds(c);
    if s + 6145 >= 0 {
        digits::lemma_digit_count_at_most(c, (s + 6145) as nat);
    }
    lemma_rounded_order(c, s);
}

/// A value at or below `10^-6177` is zero in the format.
pub proof fn law_below_range_is_zero(negative: bool, c: nat, s: int)
    requires
        c > 0,
        s - 6177 >= 0,
        c <= digits::pow10((s - 6177) as nat),
    ensures
        rounding::normalized(DecimalView::Finite { negative, coefficient: c, scale: s })
            == DecimalView::zero(),
{
    let k = (s - 6177) as nat;
    digits::lemma_digit_count_at_most(c, k);
    lemma_rounded_order(c, s);
    if c == digits::pow10(k) {
        assert(1 * digits::pow10(k) == digits::pow10(k)) by (nonlinear_arith);
        assert(digits::digit_count(1) == 1) by {
            reveal_with_fuel(digits::digit_count, 2);
        }
        digits::lemma_digit_count_scale_up(1, k);
        scales::lemma_padded_significant(1, k);
        scales::lemma_surplus_zeros(c, s);
    }
}

/// Rounding to 34 digits keeps the leading exponent, or raises it by one.
pub proof fn lemma_rounded_order(c: nat, s: int)
    requires
        c > 0,
    ensures
        ({
            let (q, t) = rounding::to_precision(c, s);
            q > 0 && decimal::adjusted_exponent(c, s) <= decimal::adjusted_exponent(q, t)
                <= decimal::adjusted_exponent(c, s) + 1
        }),
{
    rounding::lemma_to_precision(c, s);
}

/// A power that is known exactly is out of the format's range where it is said to be.
proof fn lemma_exact_power_out_of_range(
    base: DecimalView,
    exponent: DecimalView,
    magnitude: Magnitude,
)
    requires
        rounding::in_format(base),
        base.representable(),
        base is Finite,
        !base.is_zero(),
        !base.negative(),
        !backend::same_number(base, DecimalView::one()),
        arithmetic::range_holds(base, exponent, magnitude),
        backend::known_power(base, exponent) is Some,
    ensures
        ({
            let v = backend::known_power(base, exponent)->Some_0;
            &&& !(v is NotANumber) && !v.negative()
            &&& magnitude is Above ==> rounding::normalized(v) == (DecimalView::Infinite {
                negative: false,
            })
            &&& magnitude is Below ==> rounding::normalized(v) == DecimalView::zero()
        }),
{
    let v = backend::known_power(base, exponent)->Some_0;
    let n = backend::natural_exponent(exponent)->Some_0;
    let (p, q) = backend::exponent_size(exponent);
    arithmetic::lemma_natural_size(exponent);
    if let DecimalView::Finite { coefficient: c, scale: s, .. } = base {
        let power = vstd::arithmetic::power::pow(c as int, n) as nat;
        let up = s * n + 6145;
        let down = s * n - 6177;
        assert(n * q == p && up * q == s * p + 6145 * q && down * q == s * p + (-6177) * q)
            by (nonlinear_arith)
            requires
                p == n * q,
                up == s * n + 6145,
                down == s * n - 6177,
        ;
        assert((up < 0 ==> up * q < 0) && (up >= 0 ==> up * q >= 0) && (down < 0 ==> down * q < 0)
            && (down >= 0 ==> down * q >= 0)) by (nonlinear_arith)
            requires
                q >= 1,
        ;
        lemma_whole_power(c, n, q, up);
        lemma_whole_power(c, n, q, down);
        let exact = DecimalView::Finite { negative: false, coefficient: power, scale: s * n };
        if n == 2 {
            law_product_is_rounded_once(base, base);
            vstd::arithmetic::power::lemma_square_is_pow2(c as int);
            assert(s + s == s * n) by (nonlinear_arith)
                requires
                    n == 2,
            ;
            assert(rounding::normalized(v) == rounding::normalized(exact));
        } else {
            assert(v == exact);
        }
        if magnitude is Above {
            law_above_range_is_infinite(false, power, s * n);
        } else if magnitude is Below {
            law_below_range_is_zero(false, power, s * n);
        }
    }
}

/// Where a power is known exactly, the power of the two numbers is the exact one rounded
/// once.
pub proof fn law_exact_power_is_rounded_once(base: DecimalView, exponent: DecimalView)
    requires
        rounding::in_format(base),
        rounding::in_format(exponent),
        base.representable(),
        exponent.representable(),
        arithmetic::power_computed(base, exponent),
        backend::known_power(base.magnitude(), exponent) is Some,
    ensures
        arithmetic::power_value(base, exponent) == arithmetic::power_given(
            base,
            exponent,
            rounding::normalized(backend::known_power(base.magnitude(), exponent)->Some_0),
        ),
{
    let size = base.magnitude();
    let range = powers::range_of(size, exponent);
    powers::lemma_range_holds(size, exponent);
    lemma_exact_power_out_of_range(size, exponent, range);
    digits::lemma_pow10_monotonic(0, 34);
    law_format_is_fixed(DecimalView::zero());
}

} // verus!
