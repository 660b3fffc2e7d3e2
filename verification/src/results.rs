//! What results are, in terms of the numbers that they come from.

use crate::arithmetic;
use crate::arithmetic::Magnitude;
use crate::backend;
use crate::decimal;
use crate::decimal::DecimalView;
use crate::digits;
use crate::laws;
use crate::number;
use crate::powers;
use crate::rounding;
use crate::rounding_laws;
use crate::scales;
use vstd::prelude::*;

verus! {

/// The number `k * 10^-n`.
pub open spec fn units(k: int, n: int) -> DecimalView {
    DecimalView::Finite { negative: k < 0, coefficient: vstd::math::abs(k) as nat, scale: n }
}

/// Whether a number holds `q` whole units of `10^-n` in size.
pub open spec fn holds_units(v: DecimalView, n: int, q: nat) -> bool {
    &&& arithmetic::number_order(units(q as int, n), v.magnitude()) <= 0
    &&& arithmetic::number_order(v.magnitude(), units(q as int + 1, n)) < 0
}

/// The number `k * 10^-n` with the sign of another.
pub open spec fn units_like(v: DecimalView, k: nat, n: int) -> DecimalView {
    units(decimal::signed(v.negative(), k), n)
}

/// What a rounding at a scale leaves of `k` units: the units, or one where the scale is
/// not 0 and one unit is left.
pub open spec fn settled_units(v: DecimalView, k: nat, n: int) -> DecimalView {
    if n != 0 && k == 1 {
        units_like(v, 1, 0)
    } else {
        rounding::normalized(units_like(v, k, n))
    }
}

/// The greatest number of units at or below a number that holds `q` of them.
pub open spec fn greatest_below(v: DecimalView, n: int, q: nat) -> DecimalView {
    rounding::normalized(
        if !v.negative() {
            units(q as int, n)
        } else if backend::same_number(v, units(-(q as int), n)) {
            units(-(q as int), n)
        } else {
            units(-(q as int) - 1, n)
        },
    )
}

/// The least number of units at or above a number that holds `q` of them.
pub open spec fn least_above(v: DecimalView, n: int, q: nat) -> DecimalView {
    rounding::normalized(
        if v.negative() {
            units(-(q as int), n)
        } else if backend::same_number(v, units(q as int, n)) {
            units(q as int, n)
        } else {
            units(q as int + 1, n)
        },
    )
}

/// The units that a number holds, and one more where it holds more than those.
pub open spec fn completed_units(v: DecimalView, n: int, q: nat) -> DecimalView {
    settled_units(
        v,
        if backend::same_number(v.magnitude(), units(q as int, n)) {
            q
        } else {
            q + 1
        },
        n,
    )
}

/// The units that a number holds, and one more where it holds at least as many tenths of a
/// unit more as said.
pub open spec fn units_from(v: DecimalView, n: int, q: nat, tenths: nat) -> DecimalView {
    settled_units(
        v,
        if arithmetic::number_order(units((10 * q + tenths) as int, n + 1), v.magnitude()) <= 0 {
            q + 1
        } else {
            q
        },
        n,
    )
}

/// Whether `k` is the number of units of `10^-n` nearest to a number in size, from a tie
/// the even one.
pub open spec fn nearest_units(v: DecimalView, k: nat, n: int) -> bool {
    &&& k > 0 ==> arithmetic::number_order(units(10 * k - 5, n + 1), v.magnitude()) <= 0
    &&& arithmetic::number_order(v.magnitude(), units((10 * k + 5) as int, n + 1)) <= 0
    &&& k > 0 && backend::same_number(units(10 * k - 5, n + 1), v.magnitude()) ==> k % 2 == 0
    &&& backend::same_number(v.magnitude(), units((10 * k + 5) as int, n + 1)) ==> k % 2 == 0
}

/// The order of two magnitudes depends on the second one's size only.
pub proof fn lemma_replace(a: nat, s: int, b: nat, t: int, c: nat, u: int)
    requires
        backend::finite_order(b, t, c, u) == 0,
    ensures
        backend::finite_order(a, s, b, t) == backend::finite_order(a, s, c, u),
        backend::finite_order(b, t, a, s) == backend::finite_order(c, u, a, s),
        backend::finite_order(c, u, b, t) == 0,
{
    let w = vstd::math::max(s, vstd::math::max(t, u));
    scales::lemma_order_at(b, t, c, u, w);
    scales::lemma_order_at(c, u, b, t, w);
    scales::lemma_order_at(a, s, b, t, w);
    scales::lemma_order_at(a, s, c, u, w);
    scales::lemma_order_at(b, t, a, s, w);
    scales::lemma_order_at(c, u, a, s, w);
}

/// The whole units of a magnitude, and how the rest of it stands to tenths of a unit.
proof fn lemma_whole(x: nat, w: int, q: nat)
    requires
        backend::finite_order(q, 0, x, w) <= 0,
        backend::finite_order(x, w, q + 1, 0) < 0,
    ensures
        w > 0 ==> q == x / digits::pow10(w as nat) && x == q * digits::pow10(w as nat) + x
            % digits::pow10(w as nat) && 0 <= x % digits::pow10(w as nat) < digits::pow10(w as nat),
        w <= 0 ==> q == x * digits::pow10((-w) as nat),
        backend::integral(x, w) <==> backend::finite_order(q, 0, x, w) == 0,
        forall|t: nat|
            0 < t < 10 ==> (#[trigger] backend::finite_order(10 * q + t, 1, x, w) <= 0 <==> w > 0
                && 10 * (x % digits::pow10(w as nat)) >= t * digits::pow10(w as nat)),
{
    assert(digits::pow10(0) == 1);
    assert(digits::pow10(1) == 10 * digits::pow10(0));
    assert(x * 1 == x && q * 1 == q) by (nonlinear_arith);
    if w > 0 {
        let unit = digits::pow10(w as nat);
        digits::lemma_pow10_monotonic(w as nat, w as nat);
        assert((w - 0) as nat == w as nat);
        let rest = x - q * unit;
        assert(0 <= rest < unit) by (nonlinear_arith)
            requires
                q * unit <= x,
                x < (q + 1) * unit,
                rest == x - q * unit,
        ;
        vstd::arithmetic::div_mod::lemma_fundamental_div_mod_converse(
            x as int,
            unit as int,
            q as int,
            rest,
        );
        assert forall|t: nat| 0 < t < 10 implies (#[trigger] backend::finite_order(
            10 * q + t,
            1,
            x,
            w,
        ) <= 0 <==> 10 * (x % unit) >= t * unit) by {
            let low = digits::pow10((w - 1) as nat);
            assert(unit == 10 * low);
            assert((10 * q + t) * low <= x <==> 10 * rest >= t * unit) by (nonlinear_arith)
                requires
                    rest == x - q * unit,
                    unit == 10 * low,
            ;
            if w == 1 {
                assert((10 * q + t) * 1 == 10 * q + t) by (nonlinear_arith);
            }
        }
    } else {
        let p = digits::pow10((0 - w) as nat);
        digits::lemma_pow10_monotonic((0 - w) as nat, (0 - w) as nat);
        assert forall|t: nat| 0 < t < 10 implies #[trigger] backend::finite_order(
            10 * q + t,
            1,
            x,
            w,
        ) > 0 by {
            assert((1 - w) as nat == (0 - w) as nat + 1);
            assert(digits::pow10((1 - w) as nat) == 10 * p);
            assert(x * (10 * p) == 10 * (x * p)) by (nonlinear_arith);
        }
    }
}

/// Dropping zeros leaves the significant digits.
proof fn lemma_unpadded(k: nat, i: nat)
    requires
        k > 0,
        rounding::significant(k * digits::pow10(i)),
    ensures
        rounding::significant(k),
{
    digits::lemma_digit_count_scale_up(k, i);
    let n = digits::digit_count(k);
    if n > rounding::PRECISION {
        let j = (n - rounding::PRECISION) as nat;
        let e = k * digits::pow10(i);
        assert((n + i - rounding::PRECISION) as nat == i + j);
        arithmetic::lemma_divisible_split(e, i, j);
        digits::lemma_pow10_monotonic(i, i);
        rounding::lemma_quotient(k, digits::pow10(i), 0);
    }
}

/// Two ways to write one magnitude, of which one has at most 34 significant digits, are
/// brought to the same number of the format.
proof fn lemma_alike(negative: bool, e: nat, u: int, k: nat, n: int)
    requires
        e > 0,
        rounding::significant(e),
        backend::finite_order(e, u, k, n) == 0,
    ensures
        k > 0,
        rounding::significant(k),
        backend::same_number(
            rounding::normalized(DecimalView::Finite { negative, coefficient: e, scale: u }),
            rounding::normalized(DecimalView::Finite { negative, coefficient: k, scale: n }),
        ),
{
    assert(digits::pow10(0) == 1);
    assert(e * 1 == e && k * 1 == k) by (nonlinear_arith);
    if u <= n {
        let i = (n - u) as nat;
        digits::lemma_digit_count_scale_up(e, i);
        scales::lemma_padded_significant(e, i);
        laws::lemma_padded_rounds_alike(negative, e, u, i);
    } else {
        let i = (u - n) as nat;
        digits::lemma_pow10_monotonic(i, i);
        assert(k > 0) by (nonlinear_arith)
            requires
                e == k * digits::pow10(i),
                e > 0,
        ;
        lemma_unpadded(k, i);
        laws::lemma_padded_rounds_alike(negative, k, n, i);
    }
}

/// The number that is rounded to an integer when a number is rounded at a scale.
pub open spec fn at_scale(v: DecimalView, n: int) -> DecimalView {
    if n == 0 {
        v
    } else {
        number::moved(v, n)
    }
}

/// The number that is rounded at a scale holds as many ones as the number holds units.
pub proof fn lemma_at_scale(v: DecimalView, n: int)
    requires
        v is Finite,
        !v.is_zero(),
        v.representable(),
        rounding::in_format(v),
        number::scale_allowed(v, n),
    ensures
        match (v, at_scale(v, n)) {
            (
                DecimalView::Finite { negative: m, coefficient: c, scale: s },
                DecimalView::Finite { negative: l, coefficient: x, scale: w },
            ) => m == l && x > 0 && backend::finite_order(x, w, c, s - n) == 0 && -7000 <= w
                <= 7000,
            _ => false,
        },
        rounding::in_format(at_scale(v, n)),
        at_scale(v, n).representable(),
{
    if let DecimalView::Finite { negative, coefficient: c, scale: s } = v {
        rounding::lemma_coefficient_digits(c);
        digits::lemma_digit_count_bounds(c);
        if n == 0 {
            scales::lemma_padded_order(c, s, 0);
            assert(digits::pow10(0) == 1);
            assert(c * 1 == c) by (nonlinear_arith);
        } else {
            rounding_laws::lemma_allowed(v, c, s, n);
            scales::lemma_moved(negative, c, s, n);
            rounding::lemma_normalized_in_format(arithmetic::shifted(v, n));
            if let DecimalView::Finite { coefficient: x, .. } = number::moved(v, n) {
                rounding::lemma_precision_fits(x);
                digits::lemma_digit_count_bounds(x);
            }
        }
    }
}

/// The ones that a number moved by a scale holds.
proof fn lemma_ones(v: DecimalView, n: int, q: nat)
    requires
        v is Finite,
        !v.is_zero(),
        v.representable(),
        rounding::in_format(v),
        number::scale_allowed(v, n),
        holds_units(v, n, q),
    ensures
        at_scale(v, n) matches DecimalView::Finite { negative: m, coefficient: x, scale: w } && ({
            &&& m == v.negative() && x > 0
            &&& backend::finite_order(q, 0, x, w) <= 0
            &&& backend::finite_order(x, w, q + 1, 0) < 0
            &&& backend::integral(x, w) <==> backend::same_number(v.magnitude(), units(q as int, n))
            &&& forall|t: nat|
                0 < t < 10 ==> (arithmetic::number_order(
                    #[trigger] units((10 * q + t) as int, n + 1),
                    v.magnitude(),
                ) <= 0 <==> backend::finite_order(10 * q + t, 1, x, w) <= 0)
        }),
{
    lemma_at_scale(v, n);
    if let DecimalView::Finite { coefficient: c, scale: s, .. } = v {
        if let DecimalView::Finite { coefficient: x, scale: w, .. } = at_scale(v, n) {
            lemma_replace(q, 0, x, w, c, s - n);
            lemma_replace(q + 1, 0, x, w, c, s - n);
            assert(backend::finite_order(q, n, c, s) == backend::finite_order(q, 0, c, s - n));
            assert(backend::finite_order(c, s, q + 1, n) == backend::finite_order(
                c,
                s - n,
                q + 1,
                0,
            ));
            lemma_whole(x, w, q);
            scales::lemma_order_chain(c, s, q, n, c, s);
            if q == 0 {
                number::lemma_order_to_zero(v.magnitude());
                lemma_zero_below(c, s, n);
            }
            assert forall|t: nat| 0 < t < 10 implies (arithmetic::number_order(
                #[trigger] units((10 * q + t) as int, n + 1),
                v.magnitude(),
            ) <= 0 <==> backend::finite_order(10 * q + t, 1, x, w) <= 0) by {
                lemma_replace(10 * q + t, 1, x, w, c, s - n);
                assert(backend::finite_order(10 * q + t, n + 1, c, s) == backend::finite_order(
                    10 * q + t,
                    1,
                    c,
                    s - n,
                ));
            }
        }
    }
}

/// Zero is below every other magnitude.
pub proof fn lemma_zero_below(c: nat, s: int, n: int)
    requires
        c > 0,
    ensures
        backend::finite_order(0, n, c, s) < 0,
        backend::finite_order(c, s, 0, n) > 0,
{
    let w = vstd::math::max(s, n);
    scales::lemma_order_at(0, n, c, s, w);
    scales::lemma_order_at(c, s, 0, n, w);
    let p = digits::pow10((w - s) as nat);
    let z = digits::pow10((w - n) as nat);
    digits::lemma_pow10_monotonic((w - s) as nat, (w - s) as nat);
    assert(c * p > 0 && 0 * z == 0) by (nonlinear_arith)
        requires
            c > 0,
            p >= 1,
    ;
}

/// A number is somewhere between two neighbouring units of every scale.
pub proof fn law_units_are_held(v: DecimalView, n: int) -> (q: nat)
    requires
        v is Finite,
    ensures
        holds_units(v, n, q),
{
    if let DecimalView::Finite { coefficient: c, scale: s, .. } = v {
        assert(digits::pow10(0) == 1);
        let q = if n >= s {
            c * digits::pow10((n - s) as nat)
        } else {
            c / digits::pow10((s - n) as nat)
        };
        if n >= s {
            let p = digits::pow10((n - s) as nat);
            assert(c * p >= 0 && c * 1 == c) by (nonlinear_arith)
                requires
                    c >= 0,
                    p >= 0,
            ;
            if q == 0 {
                assert(c * p == 0);
                digits::lemma_pow10_monotonic((n - s) as nat, (n - s) as nat);
                assert(c == 0) by (nonlinear_arith)
                    requires
                        c * p == 0,
                        p >= 1,
                ;
                lemma_zero_below(1, n, s);
            }
            q as nat
        } else {
            let p = digits::pow10((s - n) as nat);
            digits::lemma_pow10_monotonic((s - n) as nat, (s - n) as nat);
            vstd::arithmetic::div_mod::lemma_fundamental_div_mod(c as int, p as int);
            assert(q * p <= c < (q + 1) * p && q >= 0) by (nonlinear_arith)
                requires
                    q == c / p,
                    c == p * q + c % p,
                    0 <= c % p < p,
            ;
            q as nat
        }
    } else {
        0
    }
}

/// What the four roundings to integers leave of a magnitude, in ones.
pub proof fn lemma_rounded_ones(m: bool, x: nat, w: int, q: nat)
    requires
        x > 0,
        -7000 <= w <= 7000,
        rounding::in_format(DecimalView::Finite { negative: m, coefficient: x, scale: w }),
        backend::finite_order(q, 0, x, w) <= 0,
        backend::finite_order(x, w, q + 1, 0) < 0,
    ensures
        is_ones(backend::truncated(m, x, w), m, q),
        is_ones(
            backend::integer_near(m, x, w, false),
            m,
            q,
        ),
        is_ones(
            backend::integer_near(m, x, w, true),
            m,
            if backend::integral(x, w) {
                q
            } else {
                q + 1
            },
        ),
        is_ones(
            backend::rounded_half_up(m, x, w),
            m,
            if backend::finite_order(10 * q + 5, 1, x, w) <= 0 {
                q + 1
            } else {
                q
            },
        ),
{
    let v = DecimalView::Finite { negative: m, coefficient: x, scale: w };
    lemma_whole(x, w, q);
    arithmetic::lemma_integers_in_format(v);
    assert(digits::pow10(0) == 1);
    assert(backend::integer_near(m, x, w, false) == arithmetic::floor_of(v)
        || backend::integer_near(m, x, w, false) == arithmetic::ceil_of(v));
    assert(backend::integer_near(m, x, w, true) == arithmetic::floor_of(v)
        || backend::integer_near(m, x, w, true) == arithmetic::ceil_of(v));
    digits::lemma_digit_count_bounds(0);
    scales::lemma_order_chain(q, 0, x, w, q, 0);
    scales::lemma_order_chain(x, w, q, 0, x, w);
    if w <= 0 {
        let k = if 0 - w <= backend::room(x) {
            (0 - w) as nat
        } else {
            backend::room(x)
        };
        scales::lemma_padded_order(x, w, 0);
        assert(x * 1 == x) by (nonlinear_arith);
        scales::lemma_padded_order(x, w, k);
        digits::lemma_digit_count_scale_up(x, (-w) as nat);
        digits::lemma_digit_count_scale_up(x, k);
        lemma_replace(x * digits::pow10(k), w + k, x, w, q, 0);
        assert(backend::finite_order(q, 0, x, w) == 0);
    } else {
        scales::lemma_padded_order(q, 0, 0);
        scales::lemma_padded_order(q + 1, 0, 0);
        assert(q * 1 == q && (q + 1) * 1 == q + 1) by (nonlinear_arith);
        let unit = digits::pow10(w as nat);
        if backend::integral(x, w) {
            assert(q > 0) by (nonlinear_arith)
                requires
                    x == q * unit,
                    x > 0,
                    q >= 0,
            ;
        }
        assert(2 * (x % unit) >= unit <==> 10 * (x % unit) >= 5 * unit);
    }
}

/// Whether a value is `k` ones with a sign, and one of the format.
pub open spec fn is_ones(r: DecimalView, negative: bool, k: nat) -> bool {
    r matches DecimalView::Finite { negative: m, coefficient: e, scale: u } && (k > 0 ==> m
        == negative) && rounding::significant(e) && (e == 0 <==> k == 0) && backend::finite_order(e, u, k, 0)
        == 0 && rounding::in_format(r) && -7000 <= u <= 7000
}

/// Ones moved back by a scale are units of the scale.
proof fn lemma_put_back(v: DecimalView, o: DecimalView, k: nat, n: int, keep_unit: bool)
    requires
        is_ones(o, v.negative(), k),
        -13000 <= n <= 13000,
    ensures
        n == 0 ==> backend::same_number(o, rounding::normalized(units_like(v, k, 0))),
        n != 0 ==> backend::same_number(
            number::unscaled(o, n, keep_unit),
            if keep_unit && k == 1 {
                units_like(v, 1, 0)
            } else {
                rounding::normalized(units_like(v, k, n))
            },
        ),
{
    if let DecimalView::Finite { negative: m, coefficient: e, scale: u } = o {
        if k == 0 {
            laws::lemma_zero_stays(units_like(v, k, n));
            laws::lemma_zero_stays(units_like(v, k, 0));
        } else {
            let moved = DecimalView::Finite { negative: m, coefficient: e, scale: u + n };
            assert(units_like(v, k, n) == (DecimalView::Finite {
                negative: m,
                coefficient: k,
                scale: n,
            }));
            assert(units_like(v, k, 0) == (DecimalView::Finite {
                negative: m,
                coefficient: k,
                scale: 0,
            }));
            lemma_alike(m, e, u, k, 0);
            assert(backend::finite_order(e, u + n, k, n) == backend::finite_order(e, u, k, 0));
            lemma_alike(m, e, u + n, k, n);
            assert(arithmetic::shifted(o, -n) == moved);
            laws::law_format_keeps_number(o);
            laws::law_equality_is_equivalence(
                o,
                rounding::normalized(o),
                rounding::normalized(units_like(v, k, 0)),
            );
            lemma_replace(1, 0, e, u, k, 0);
            scales::lemma_padded_order(1, 0, 0);
            assert(digits::pow10(0) == 1);
            laws::law_equality_is_equivalence(
                units_like(v, 1, 0),
                units_like(v, 1, 0),
                units_like(v, 1, 0),
            );
        }
    }
}

/// The floor of a number at a scale is the greatest number of units at or below it.
pub proof fn law_floor_is_greatest_below(v: DecimalView, n: int, q: nat)
    requires
        v is Finite,
        !v.is_zero(),
        v.representable(),
        rounding::in_format(v),
        number::scale_allowed(v, n),
        holds_units(v, n, q),
    ensures
        backend::same_number(
            number::floor_value(v, n),
            rounding::normalized(
                if !v.negative() {
                    units(q as int, n)
                } else if backend::same_number(v, units(-(q as int), n)) {
                    units(-(q as int), n)
                } else {
                    units(-(q as int) - 1, n)
                },
            ),
        ),
{
    lemma_ones(v, n, q);
    lemma_at_scale(v, n);
    lemma_allowed_range(v, n);
    if let DecimalView::Finite { negative: m, coefficient: x, scale: w } = at_scale(v, n) {
        lemma_rounded_ones(m, x, w, q);
        let k = if m && !backend::integral(x, w) {
            q + 1
        } else {
            q
        };
        lemma_put_back(v, backend::integer_near(m, x, w, m), k, n, false);
        lemma_sign_of_units(v, n, q);
    }
}

/// The ceiling of a number at a scale is the least number of units at or above it.
pub proof fn law_ceiling_is_least_above(v: DecimalView, n: int, q: nat)
    requires
        v is Finite,
        !v.is_zero(),
        v.representable(),
        rounding::in_format(v),
        number::scale_allowed(v, n),
        holds_units(v, n, q),
    ensures
        backend::same_number(
            number::ceiling_value(v, n),
            rounding::normalized(
                if v.negative() {
                    units(-(q as int), n)
                } else if backend::same_number(v, units(q as int, n)) {
                    units(q as int, n)
                } else {
                    units(q as int + 1, n)
                },
            ),
        ),
{
    lemma_ones(v, n, q);
    lemma_at_scale(v, n);
    lemma_allowed_range(v, n);
    if let DecimalView::Finite { negative: m, coefficient: x, scale: w } = at_scale(v, n) {
        lemma_rounded_ones(m, x, w, q);
        let k = if !m && !backend::integral(x, w) {
            q + 1
        } else {
            q
        };
        lemma_put_back(v, backend::integer_near(m, x, w, !m), k, n, false);
        lemma_sign_of_units(v, n, q);
        if k == 0 {
            laws::lemma_zero_stays(units(0, n));
        }
    }
}

/// An allowed scale is not far.
proof fn lemma_allowed_range(v: DecimalView, n: int)
    requires
        v is Finite,
        !v.is_zero(),
        v.representable(),
        rounding::in_format(v),
        number::scale_allowed(v, n),
    ensures
        -13000 <= n <= 13000,
{
    if let DecimalView::Finite { coefficient: c, scale: s, .. } = v {
        if n != 0 {
            rounding_laws::lemma_allowed(v, c, s, n);
        }
    }
}

/// A number is a number of units where its size is.
proof fn lemma_sign_of_units(v: DecimalView, n: int, q: nat)
    requires
        v is Finite,
        !v.is_zero(),
    ensures
        backend::same_number(v, units_like(v, q, n)) == backend::same_number(
            v.magnitude(),
            units(q as int, n),
        ),
{
    if let DecimalView::Finite { coefficient: c, scale: s, .. } = v {
        lemma_zero_below(c, s, n);
    }
}

/// Rounding a number down at a scale leaves the whole units that it holds.
pub proof fn law_round_down_cuts(v: DecimalView, n: int, q: nat)
    requires
        v is Finite,
        !v.is_zero(),
        v.representable(),
        rounding::in_format(v),
        number::scale_allowed(v, n),
        holds_units(v, n, q),
    ensures
        backend::same_number(number::round_down_value(v, n), settled_units(v, q, n)),
{
    lemma_ones(v, n, q);
    lemma_at_scale(v, n);
    lemma_allowed_range(v, n);
    if let DecimalView::Finite { negative: m, coefficient: x, scale: w } = at_scale(v, n) {
        lemma_rounded_ones(m, x, w, q);
        lemma_put_back(v, backend::truncated(m, x, w), q, n, true);
    }
}

/// Rounding a number up at a scale leaves the whole units that it holds, and one more
/// where it holds more than those.
pub proof fn law_round_up_completes(v: DecimalView, n: int, q: nat)
    requires
        v is Finite,
        !v.is_zero(),
        v.representable(),
        rounding::in_format(v),
        number::scale_allowed(v, n),
        holds_units(v, n, q),
    ensures
        backend::same_number(
            number::round_up_value(v, n),
            settled_units(
                v,
                if backend::same_number(v.magnitude(), units(q as int, n)) {
                    q
                } else {
                    q + 1
                },
                n,
            ),
        ),
{
    lemma_ones(v, n, q);
    lemma_at_scale(v, n);
    lemma_allowed_range(v, n);
    if let DecimalView::Finite { negative: m, coefficient: x, scale: w } = at_scale(v, n) {
        lemma_rounded_ones(m, x, w, q);
        let k = if backend::integral(x, w) {
            q
        } else {
            q + 1
        };
        lemma_put_back(v, backend::integer_near(m, x, w, true), k, n, true);
    }
}

/// Rounding a number half up at a scale leaves the whole units that it holds, and one
/// more where it holds at least half a unit more than those.
pub proof fn law_half_up_from_half(v: DecimalView, n: int, q: nat)
    requires
        v is Finite,
        !v.is_zero(),
        v.representable(),
        rounding::in_format(v),
        number::scale_allowed(v, n),
        holds_units(v, n, q),
    ensures
        backend::same_number(
            number::round_half_up_value(v, n),
            settled_units(
                v,
                if arithmetic::number_order(units((10 * q + 5) as int, n + 1), v.magnitude()) <= 0 {
                    q + 1
                } else {
                    q
                },
                n,
            ),
        ),
{
    lemma_ones(v, n, q);
    lemma_at_scale(v, n);
    lemma_allowed_range(v, n);
    if let DecimalView::Finite { negative: m, coefficient: x, scale: w } = at_scale(v, n) {
        lemma_rounded_ones(m, x, w, q);
        let k = if backend::finite_order(10 * q + 5, 1, x, w) <= 0 {
            q + 1
        } else {
            q
        };
        lemma_put_back(v, backend::rounded_half_up(m, x, w), k, n, true);
    }
}

/// A value with at most `k` digits rounds to at most `10^k` units of its scale.
proof fn lemma_rounded_at_most(negative: bool, c: nat, s: int, k: nat)
    requires
        c < digits::pow10(k),
        s - k >= -6000,
    ensures
        rounding::normalized(
            DecimalView::Finite { negative, coefficient: c, scale: s },
        ) matches DecimalView::Finite { coefficient: d, scale: t, .. } && backend::finite_order(
            d,
            t,
            1,
            s - k,
        ) <= 0,
{
    let (q, t) = rounding::to_precision(c, s);
    digits::lemma_digit_count_at_most(c, k);
    rounding::lemma_to_precision(c, s);
    assert(digits::pow10(0) == 1);
    if c == 0 {
        lemma_zero_below(1, s - k, s);
    } else {
        laws::lemma_rounded_order(c, s);
        lemma_zero_below(1, s - k, 0);
        let n = digits::digit_count(c);
        // The rounded digits stay at or below the next power of ten.
        assert(backend::finite_order(q, t, 1, s - n) <= 0) by {
            if n > rounding::PRECISION {
                let surplus = (n - rounding::PRECISION) as nat;
                rounding::lemma_half_even_digits(c);
                if t == s - surplus {
                    assert((t - (s - n)) as nat == 34);
                    assert(1 * digits::pow10(34) == digits::pow10(34)) by (nonlinear_arith);
                } else {
                    assert((t - (s - n)) as nat == 33);
                    assert(1 * digits::pow10(33) == digits::pow10(33)) by (nonlinear_arith);
                }
            } else {
                digits::lemma_digit_count_bounds(c);
                assert((s - (s - n)) as nat == n);
                assert(1 * digits::pow10(n) == digits::pow10(n)) by (nonlinear_arith);
            }
        }
        assert(backend::finite_order(1, s - n, 1, s - k) <= 0) by {
            let p = digits::pow10((k - n) as nat);
            digits::lemma_pow10_monotonic((k - n) as nat, (k - n) as nat);
            assert(((s - n) - (s - k)) as nat == (k - n) as nat);
            assert(1 * p >= 1) by (nonlinear_arith)
                requires
                    p >= 1,
            ;
        }
        scales::lemma_order_chain(q, t, 1, s - n, 1, s - k);
        if t < -rounding::MAX_STORED_EXPONENT {
            let i = (-rounding::MAX_STORED_EXPONENT - t) as nat;
            scales::lemma_padded_order(q, t, i);
            scales::lemma_order_chain(q * digits::pow10(i), t + i, q, t, 1, s - k);
        }
    }
}

/// Which integer is nearest to a value that is the same number as another.
proof fn lemma_nearest_ones(r: DecimalView, m: bool, y: nat, t: int, k: nat)
    requires
        rounding::in_format(r),
        r matches DecimalView::Finite { negative, coefficient: z, scale: u } && negative == m && z
            > 0 && -7000 <= u <= 7000 && backend::finite_order(z, u, y, t) == 0,
        k > 0 ==> backend::finite_order((10 * k - 5) as nat, 1, y, t) <= 0,
        backend::finite_order(10 * k + 5, 1, y, t) > 0,
    ensures
        is_ones(arithmetic::nearest_of(r), m, k),
{
    if let DecimalView::Finite { coefficient: z, scale: u, .. } = r {
        let q = law_units_are_held(r, 0);
        lemma_held(r, 0, q);
        lemma_rounded_ones(m, z, u, q);
        lemma_replace(10 * k + 5, 1, z, u, y, t);
        scales::lemma_order_chain(z, u, 10 * k + 5, 1, z, u);
        if k > 0 {
            lemma_replace((10 * k - 5) as nat, 1, z, u, y, t);
        }
        lemma_fives(q, k, z, u);
    }
}

/// The units that a number holds, by the order of magnitudes.
pub proof fn lemma_held(v: DecimalView, n: int, q: nat)
    requires
        v is Finite,
        !v.is_zero(),
        holds_units(v, n, q),
    ensures
        v matches DecimalView::Finite { coefficient: c, scale: s, .. } && backend::finite_order(
            q,
            n,
            c,
            s,
        ) <= 0 && backend::finite_order(c, s, q + 1, n) < 0,
{
    if let DecimalView::Finite { coefficient: c, scale: s, .. } = v {
        if q == 0 {
            lemma_zero_below(c, s, n);
        }
    }
}

/// Between which halves a magnitude lies tells the integer that it is rounded to.
proof fn lemma_fives(q: nat, k: nat, z: nat, u: int)
    requires
        backend::finite_order(q, 0, z, u) <= 0,
        backend::finite_order(z, u, q + 1, 0) < 0,
        k > 0 ==> backend::finite_order((10 * k - 5) as nat, 1, z, u) <= 0,
        backend::finite_order(10 * k + 5, 1, z, u) > 0,
    ensures
        k == (if backend::finite_order(10 * q + 5, 1, z, u) <= 0 {
            q + 1
        } else {
            q
        }),
{
    let w = vstd::math::max(u, 1);
    let a = digits::pow10((w - 1) as nat);
    let b = digits::pow10((w - u) as nat);
    scales::lemma_order_at(q, 0, z, u, w);
    scales::lemma_order_at(z, u, q + 1, 0, w);
    scales::lemma_order_at(10 * k + 5, 1, z, u, w);
    scales::lemma_order_at(10 * q + 5, 1, z, u, w);
    digits::lemma_pow10_monotonic((w - 1) as nat, (w - 1) as nat);
    assert(digits::pow10((w - 0) as nat) == 10 * a);
    let x = z * b;
    assert(q * (10 * a) <= x && x < (q + 1) * (10 * a) && x < (10 * k + 5) * a);
    if k > 0 {
        scales::lemma_order_at((10 * k - 5) as nat, 1, z, u, w);
        assert((10 * k - 5) * a <= x);
    }
    let up = (10 * q + 5) * a <= x;
    assert(k == (if up {
        q + 1
    } else {
        q
    })) by (nonlinear_arith)
        requires
            q * (10 * a) <= x,
            x < (q + 1) * (10 * a),
            x < (10 * k + 5) * a,
            k > 0 ==> (10 * k - 5) * a <= x,
            up == ((10 * q + 5) * a <= x),
            a >= 1,
            q >= 0,
            k >= 0,
    ;
}

/// A value with a fraction, a tenth nearer to zero: the digits are still exact.
proof fn lemma_tenth_off(m: bool, x: nat, w: nat)
    requires
        w > 0,
        digits::pow10((w - 1) as nat) < x < decimal::coefficient_limit(),
        rounding::significant(x),
        x % digits::pow10(w) != 0,
    ensures
        ({
            let y = (x - digits::pow10((w - 1) as nat)) as nat;
            let r = rounding::normalized(
                DecimalView::Finite { negative: m, coefficient: y, scale: w as int },
            );
            r matches DecimalView::Finite { negative, coefficient: z, scale: u } && negative == m
                && z > 0 && backend::finite_order(z, u, y, w as int) == 0
        }),
{
    let low = digits::pow10((w - 1) as nat);
    let y = (x - low) as nat;
    let (f, v) = rounding::to_precision(x, w as int);
    scales::lemma_surplus_zeros(x, w as int);
    rounding::lemma_to_precision(x, w as int);
    let i = (w - v) as nat;
    let unit = digits::pow10(i);
    digits::lemma_pow10_monotonic(i, i);
    // A value with a fraction has a digit past the point.
    if i >= w {
        let j = (i - w) as nat;
        digits::lemma_pow10_add(j, w);
        digits::lemma_pow10_monotonic(w, w);
        let p = digits::pow10(w);
        let g = f * digits::pow10(j);
        assert(x == g * p + 0) by (nonlinear_arith)
            requires
                x == f * unit,
                unit == digits::pow10(j) * p,
                g == f * digits::pow10(j),
        ;
        vstd::arithmetic::div_mod::lemma_fundamental_div_mod_converse(
            x as int,
            p as int,
            g as int,
            0,
        );
    }
    let h = digits::pow10((w - 1 - i) as nat);
    digits::lemma_pow10_add((w - 1 - i) as nat, i);
    let g = (f - h) as nat;
    assert(y == (f - h) * unit && f > h) by (nonlinear_arith)
        requires
            x == f * unit,
            low == h * unit,
            y == x - low,
            x > low,
            unit >= 1,
    ;
    digits::lemma_digit_count_at_most(g, 34);
    scales::lemma_padded_significant(g, i);
    rounding::lemma_coefficient_digits(x);
    digits::lemma_digit_count_bounds(y);
    digits::lemma_digit_count_at_most(x, (w - 1) as nat);
    rounding::lemma_coefficient_digits(y);
    scales::lemma_kept(m, y, w as int);
}

/// An integer of at most 34 significant digits, a tenth nearer to zero, rounds back to the
/// integer or keeps nine tenths.
proof fn lemma_tenth_off_integer(m: bool, q: nat, top: nat)
    requires
        q > 0,
        top > 0,
        rounding::significant(q),
        digits::digit_count(q) <= 6145,
    ensures
        ({
            let y = (10 * q - 1) as nat;
            let r = rounding::normalized(
                DecimalView::Finite {
                    negative: m,
                    coefficient: y * digits::pow10((top - 1) as nat),
                    scale: top as int,
                },
            );
            r matches DecimalView::Finite { negative, coefficient: z, scale: u } && negative == m
                && z > 0 && (backend::finite_order(z, u, y, 1) == 0 || backend::finite_order(
                z,
                u,
                q,
                0,
            ) == 0)
        }),
{
    let y = (10 * q - 1) as nat;
    let i = (top - 1) as nat;
    let e = y * digits::pow10(i);
    assert(digits::pow10(0) == 1);
    assert(digits::pow10(1) == 10 * digits::pow10(0));
    assert(q * digits::pow10(1) == 10 * q) by (nonlinear_arith)
        requires
            digits::pow10(1) == 10,
    ;
    digits::lemma_digit_count_scale_up(q, 1);
    scales::lemma_more_digits(10 * q, y);
    digits::lemma_digit_count_bounds(y);
    if y < digits::pow10(34) {
        digits::lemma_digit_count_at_most(y, 34);
        scales::lemma_padded_significant(y, i);
        digits::lemma_digit_count_scale_up(y, i);
        scales::lemma_kept(m, e, top as int);
        scales::lemma_padded_order(y, 1, i);
        assert(1 + i == top);
        if let DecimalView::Finite { coefficient: z, scale: u, .. } = rounding::normalized(
            DecimalView::Finite { negative: m, coefficient: e, scale: top as int },
        ) {
            scales::lemma_order_chain(z, u, e, top as int, y, 1);
            lemma_replace(z, u, e, top as int, y, 1);
        }
    } else {
        digits::lemma_digit_count_at_most(y, 34);
        scales::lemma_trailing_zeros(y, 1, i);
        let n = digits::digit_count(q);
        let (f, v) = rounding::to_precision(q, 0);
        scales::lemma_surplus_zeros(q, 0);
        rounding::lemma_to_precision(q, 0);
        assert(q > digits::pow10(33)) by {
            assert(digits::pow10(34) == 10 * digits::pow10(33));
        }
        digits::lemma_digit_count_at_most(q, 33);
        digits::lemma_digit_count_bounds(f);
        let k = (n - 34) as nat;
        assert(f * digits::pow10(k) == q) by {
            assert((0 - v) as nat == k);
        }
        let (g, t) = rounding::to_precision(y, 1);
        assert(g == f && t == -(k as int)) by {
            if k == 0 {
                assert(f * 1 == f) by (nonlinear_arith);
                digits::lemma_digit_count_at_most(q, 34);
                digits::lemma_digit_count_is(y, 35);
                assert(y as int / 10 == q - 1 && y as int % 10 == 9);
                assert(rounding::half_even_quotient(y, 1) == q);
            } else {
                digits::lemma_pow10_add(k, 1);
                assert(q * 10 == f * (digits::pow10(k) * 10)) by (nonlinear_arith)
                    requires
                        q == f * digits::pow10(k),
                ;
                digits::lemma_pow10_monotonic(2, k + 1);
                assert(digits::pow10(2) == 10 * digits::pow10(1));
                scales::lemma_rounds_to(f, k + 1, y, 1);
            }
        }
        scales::lemma_padded_order(f, t, k);
        assert(t + k == 0);
        let w = DecimalView::Finite { negative: m, coefficient: f, scale: t };
        digits::lemma_digit_count_at_most(f, 34);
        scales::lemma_kept(m, f, t);
        assert(rounding::to_precision(f, t) == (f, t));
        if let DecimalView::Finite { coefficient: z, scale: u, .. } = rounding::normalized(w) {
            lemma_replace(z, u, f, t, q, 0);
        }
    }
}

/// Rounding a value half down to an integer: one more than the whole ones from six tenths
/// on.
proof fn lemma_nudged(m: bool, x: nat, w: int, q: nat)
    requires
        x > 0,
        -7000 <= w <= 7000,
        rounding::in_format(DecimalView::Finite { negative: m, coefficient: x, scale: w }),
        (DecimalView::Finite { negative: m, coefficient: x, scale: w }).representable(),
        backend::finite_order(q, 0, x, w) <= 0,
        backend::finite_order(x, w, q + 1, 0) < 0,
    ensures
        is_ones(
            number::nudged(DecimalView::Finite { negative: m, coefficient: x, scale: w }, m),
            m,
            if backend::finite_order(10 * q + 6, 1, x, w) <= 0 {
                q + 1
            } else {
                q
            },
        ),
{
    let v = DecimalView::Finite { negative: m, coefficient: x, scale: w };
    let t = DecimalView::Finite { negative: !m, coefficient: 1, scale: 1 };
    let k = if backend::finite_order(10 * q + 6, 1, x, w) <= 0 {
        q + 1
    } else {
        q
    };
    let sum = arithmetic::sum_value(v, t);
    let r = rounding::normalized(sum);
    let exact = backend::exact_sum(v, t);
    let near = rounding::normalized(exact);
    laws::law_difference_is_sum(v, number::tenth());
    assert(digits::pow10(0) == 1);
    assert(digits::pow10(1) == 10 * digits::pow10(0));
    assert(digits::digit_count(1) == 1) by {
        reveal_with_fuel(digits::digit_count, 2);
    }
    laws::law_sum_is_rounded_once(v, t);
    rounding::lemma_normalized_in_format(sum);
    lemma_format_scale(r);
    lemma_whole(x, w, q);
    assert(number::nudged(v, m) == arithmetic::nearest_of(r));
    if backend::integral(x, w) {
        lemma_nudged_integer(m, x, w, q);
        lemma_nearest_integer(m, q, near, r);
    } else {
        let d = w as nat;
        let low = digits::pow10((d - 1) as nat);
        digits::lemma_pow10_monotonic((d - 1) as nat, (d - 1) as nat);
        assert(digits::pow10(d) == 10 * low);
        assert(x * 1 == x && 1 * low == low) by (nonlinear_arith);
        assert((w - w) as nat == 0 && (w - 1) as nat == (d - 1) as nat);
        let total = decimal::signed(m, x) + decimal::signed(!m, low);
        assert(exact == (DecimalView::Finite {
            negative: total < 0,
            coefficient: vstd::math::abs(total) as nat,
            scale: w,
        }));
        if x > low {
            lemma_tenth_off(m, x, d);
            lemma_nearest_above(m, x, d, q, k, near, r);
        } else {
            lemma_nearest_below(total < 0, x, d, q, near, r);
            assert(k == 0) by {
                let rest = x % (10 * low);
                assert(q == 0) by (nonlinear_arith)
                    requires
                        x == q * (10 * low) + rest,
                        x <= low,
                        low >= 1,
                        rest >= 0,
                        q >= 0,
                ;
                assert(0 * (10 * low) == 0) by (nonlinear_arith);
            }
        }
    }
}

/// The nearest integer to one that was moved by a tenth.
proof fn lemma_nearest_integer(m: bool, q: nat, near: DecimalView, r: DecimalView)
    requires
        q > 0,
        rounding::in_format(r),
        rounding::narrow(r),
        backend::same_number(r, near),
        near matches DecimalView::Finite { negative, coefficient: z, scale: u } && negative == m && z
            > 0 && (backend::finite_order(z, u, (10 * q - 1) as nat, 1) == 0
            || backend::finite_order(z, u, q, 0) == 0),
    ensures
        is_ones(arithmetic::nearest_of(r), m, q),
{
    lemma_format_scale(r);
    assert(digits::pow10(0) == 1);
    assert(digits::pow10(1) == 10 * digits::pow10(0));
    if let DecimalView::Finite { coefficient: z, scale: u, .. } = near {
        if let DecimalView::Finite { coefficient: y, scale: h, .. } = r {
            lemma_zero_below(z, u, h);
            if backend::finite_order(z, u, q, 0) == 0 {
                lemma_replace(y, h, z, u, q, 0);
                scales::lemma_padded_order(q, 0, 1);
                assert(q * 10 == 10 * q) by (nonlinear_arith);
                lemma_replace(y, h, q, 0, 10 * q, 1);
                lemma_nearest_ones(r, m, 10 * q, 1, q);
            } else {
                lemma_replace(y, h, z, u, (10 * q - 1) as nat, 1);
                lemma_nearest_ones(r, m, (10 * q - 1) as nat, 1, q);
            }
        }
    }
}

/// The nearest integer to a value with a fraction that was moved by a tenth.
proof fn lemma_nearest_above(
    m: bool,
    x: nat,
    d: nat,
    q: nat,
    k: nat,
    near: DecimalView,
    r: DecimalView,
)
    requires
        d > 0,
        x > digits::pow10((d - 1) as nat),
        rounding::in_format(r),
        rounding::narrow(r),
        backend::same_number(r, near),
        near matches DecimalView::Finite { negative, coefficient: z, scale: u } && negative == m && z
            > 0 && backend::finite_order(
            z,
            u,
            (x - digits::pow10((d - 1) as nat)) as nat,
            d as int,
        ) == 0,
        x == q * digits::pow10(d) + x % digits::pow10(d),
        0 <= x % digits::pow10(d) < digits::pow10(d),
        k == (if 10 * (x % digits::pow10(d)) >= 6 * digits::pow10(d) {
            q + 1
        } else {
            q
        }),
    ensures
        is_ones(arithmetic::nearest_of(r), m, k),
{
    let low = digits::pow10((d - 1) as nat);
    let unit = digits::pow10(d);
    let w = d as int;
    let y = (x - low) as nat;
    let rest = x % unit;
    lemma_format_scale(r);
    digits::lemma_pow10_monotonic((d - 1) as nat, (d - 1) as nat);
    assert(unit == 10 * low);
    assert(digits::pow10(0) == 1);
    assert((w - 1) as nat == (d - 1) as nat);
    if let DecimalView::Finite { coefficient: z, scale: u, .. } = near {
        if let DecimalView::Finite { coefficient: g, scale: h, .. } = r {
            lemma_zero_below(z, u, h);
            lemma_replace(g, h, z, u, y, w);
            assert((k > 0 ==> (10 * k - 5) * low <= y) && y < (10 * k + 5) * low)
                by (nonlinear_arith)
                requires
                    x == q * unit + rest,
                    0 <= rest < unit,
                    unit == 10 * low,
                    y == x - low,
                    k == (if 10 * rest >= 6 * unit {
                        q + 1
                    } else {
                        q
                    }),
                    low >= 1,
                    q >= 0,
                    x > low,
            ;
            if d == 1 {
                assert((10 * k + 5) * 1 == 10 * k + 5) by (nonlinear_arith);
                assert(k > 0 ==> (10 * k - 5) * 1 == 10 * k - 5) by (nonlinear_arith);
            }
            lemma_nearest_ones(r, m, y, w, k);
        }
    }
}

/// The nearest integer to a value below a tenth that was moved by a tenth.
proof fn lemma_nearest_below(
    negative: bool,
    x: nat,
    d: nat,
    q: nat,
    near: DecimalView,
    r: DecimalView,
)
    requires
        d > 0,
        0 < x <= digits::pow10((d - 1) as nat),
        rounding::in_format(r),
        rounding::narrow(r),
        backend::same_number(r, near),
        near == rounding::normalized(
            DecimalView::Finite {
                negative,
                coefficient: (digits::pow10((d - 1) as nat) - x) as nat,
                scale: d as int,
            },
        ),
    ensures
        is_ones(arithmetic::nearest_of(r), negative, 0),
{
    let low = digits::pow10((d - 1) as nat);
    let y = (low - x) as nat;
    lemma_format_scale(r);
    lemma_rounded_at_most(negative, y, d as int, (d - 1) as nat);
    if let DecimalView::Finite { coefficient: z, scale: u, .. } = near {
        if let DecimalView::Finite { negative: a, coefficient: g, scale: h } = r {
            if g == 0 {
                lemma_zero_nearest(a, h);
            } else {
                if z == 0 {
                    lemma_zero_below(g, h, u);
                }
                lemma_replace(1, 1, g, h, z, u);
                assert(digits::pow10(0) == 1);
                scales::lemma_order_chain(g, h, 1, 1, 5, 1);
                scales::lemma_order_chain(5, 1, g, h, 1, 1);
                scales::lemma_padded_order(g, h, 0);
                assert(g * 1 == g) by (nonlinear_arith);
                lemma_nearest_ones(r, a, g, h, 0);
            }
        }
    }
}

/// The nearest integer to zero is zero.
proof fn lemma_zero_nearest(m: bool, s: int)
    ensures
        is_ones(
            arithmetic::nearest_of(DecimalView::Finite { negative: m, coefficient: 0, scale: s }),
            m,
            0,
        ),
{
    digits::lemma_digit_count_bounds(0);
    if s > 0 {
        let unit = digits::pow10(s as nat);
        digits::lemma_pow10_monotonic(s as nat, s as nat);
        assert(0nat / unit == 0 && 0nat % unit == 0) by (nonlinear_arith)
            requires
                unit >= 1,
        ;
    }
    let w = vstd::math::max(s, 0);
    scales::lemma_order_at(0, 0, 0, 0, w);
    scales::lemma_order_at(0, s, 0, 0, w);
    assert(0 * digits::pow10((w - s) as nat) == 0 && 0 * digits::pow10((w - 0) as nat) == 0)
        by (nonlinear_arith);
}

/// The scale of a number of the format with at most 34 digits is not far.
proof fn lemma_format_scale(r: DecimalView)
    requires
        rounding::in_format(r),
        rounding::narrow(r),
    ensures
        r matches DecimalView::Finite { coefficient: c, scale: s, .. } ==> c > 0 ==> -7000 <= s
            <= 7000,
{
    if let DecimalView::Finite { coefficient: c, .. } = r {
        rounding::lemma_precision_fits(c);
        digits::lemma_digit_count_bounds(c);
    }
}

/// An integer a tenth nearer to zero, before it is rounded to the format.
proof fn lemma_nudged_integer(m: bool, x: nat, w: int, q: nat)
    requires
        x > 0,
        rounding::in_format(DecimalView::Finite { negative: m, coefficient: x, scale: w }),
        backend::finite_order(q, 0, x, w) == 0,
    ensures
        q > 0,
        rounding::normalized(
            backend::exact_sum(
                DecimalView::Finite { negative: m, coefficient: x, scale: w },
                DecimalView::Finite { negative: !m, coefficient: 1, scale: 1 },
            ),
        ) matches DecimalView::Finite { negative, coefficient: z, scale: u } && negative == m && z
            > 0 && (backend::finite_order(z, u, (10 * q - 1) as nat, 1) == 0
            || backend::finite_order(z, u, q, 0) == 0),
{
    let v = DecimalView::Finite { negative: m, coefficient: x, scale: w };
    let t = DecimalView::Finite { negative: !m, coefficient: 1, scale: 1 };
    let top = (if w < 1 {
        1int
    } else {
        w
    }) as nat;
    scales::lemma_order_chain(q, 0, x, w, q, 0);
    lemma_alike(m, x, w, q, 0);
    scales::lemma_order_of_leading(x, w, q, 0);
    scales::lemma_order_of_leading(q, 0, x, w);
    scales::lemma_order_at(q, 0, x, w, top as int);
    let p = digits::pow10((top - 1) as nat);
    digits::lemma_pow10_monotonic((top - 1) as nat, (top - 1) as nat);
    assert(digits::pow10((top - 0) as nat) == 10 * p);
    let y = (10 * q - 1) as nat;
    assert(q * (10 * p) - 1 * p == y * p && y * p > 0) by (nonlinear_arith)
        requires
            y == 10 * q - 1,
            q > 0,
            p >= 1,
    ;
    assert(x * digits::pow10((top - w) as nat) == q * (10 * p));
    assert(digits::pow10(0) == 1);
    assert(backend::exact_sum(v, t) == (DecimalView::Finite {
        negative: m,
        coefficient: y * p,
        scale: top as int,
    }));
    lemma_tenth_off_integer(m, q, top);
}

/// Rounding a number half down at a scale leaves the whole units that it holds, and one
/// more where it holds at least six tenths of a unit more than those.
pub proof fn law_half_down_from_six_tenths(v: DecimalView, n: int, q: nat)
    requires
        v is Finite,
        !v.is_zero(),
        v.representable(),
        rounding::in_format(v),
        number::scale_allowed(v, n),
        holds_units(v, n, q),
    ensures
        backend::same_number(
            number::round_half_down_value(v, n),
            settled_units(
                v,
                if arithmetic::number_order(units((10 * q + 6) as int, n + 1), v.magnitude()) <= 0 {
                    q + 1
                } else {
                    q
                },
                n,
            ),
        ),
{
    lemma_ones(v, n, q);
    lemma_at_scale(v, n);
    lemma_allowed_range(v, n);
    if let DecimalView::Finite { negative: m, coefficient: x, scale: w } = at_scale(v, n) {
        lemma_nudged(m, x, w, q);
        let k = if backend::finite_order(10 * q + 6, 1, x, w) <= 0 {
            q + 1
        } else {
            q
        };
        lemma_put_back(v, number::nudged(at_scale(v, n), m), k, n, true);
    }
}

/// Whether a number has `n` for its whole part.
pub open spec fn has_whole_part(w: DecimalView, n: int) -> bool {
    &&& w is Finite
    &&& holds_units(w, 0, vstd::math::abs(n) as nat)
    &&& n < 0 ==> w.negative()
    &&& n > 0 ==> !w.negative()
}

/// The scale that a number stands for is its whole part.
pub proof fn law_scale_argument_is_whole_part(w: DecimalView, n: int)
    requires
        has_whole_part(w, n),
        w.representable(),
        rounding::in_format(w),
    ensures
        number::scale_argument(w) == (if n < i32::MIN || n > i32::MAX {
            0
        } else if n < i16::MIN {
            i16::MIN as int
        } else if n > i16::MAX {
            i16::MAX as int
        } else {
            n
        }),
{
    let q = vstd::math::abs(n) as nat;
    if let DecimalView::Finite { negative: m, coefficient: x, scale: u } = w {
        assert(digits::pow10(0) == 1);
        if x == 0 {
            laws::law_zeros_are_equal(w.magnitude(), units(0, 0));
            if q > 0 {
                lemma_zero_below(q, 0, u);
            }
            if u > 0 {
                let unit = digits::pow10(u as nat);
                digits::lemma_pow10_monotonic(u as nat, u as nat);
                assert(0nat / unit == 0) by (nonlinear_arith)
                    requires
                        unit >= 1,
                ;
            }
            assert(0 * digits::pow10(0) == 0);
        } else {
            rounding::lemma_coefficient_digits(x);
            digits::lemma_digit_count_bounds(x);
            lemma_held(w, 0, q);
            lemma_rounded_ones(m, x, u, q);
            if let DecimalView::Finite { coefficient: e, scale: t, .. } = backend::truncated(
                m,
                x,
                u,
            ) {
                assert(e * 1 == e && q * 1 == q) by (nonlinear_arith);
                if u <= 0 {
                    let k = if 0 - u <= backend::room(x) {
                        (0 - u) as nat
                    } else {
                        backend::room(x)
                    };
                    assert(t <= 0);
                }
                assert(e * digits::pow10((0 - t) as nat) == q);
            }
        }
    }
}

/// Rounding a number to as many places as the whole part of a second one says leaves the
/// nearest number of units, and from a tie the even one. The count of units is returned.
pub proof fn law_round_is_nearest(v: DecimalView, w: DecimalView, n: int) -> (k: nat)
    requires
        v is Finite,
        v.representable(),
        rounding::in_format(v),
        w.representable(),
        rounding::in_format(w),
        has_whole_part(w, n),
        i16::MIN <= n <= i16::MAX,
    ensures
        backend::same_number(
            rounding::normalized(rounding::rescaled(v, number::scale_argument(w))),
            rounding::normalized(units_like(v, k, n)),
        ),
        k > 0 ==> arithmetic::number_order(units(10 * k - 5, n + 1), v.magnitude()) <= 0,
        arithmetic::number_order(v.magnitude(), units((10 * k + 5) as int, n + 1)) <= 0,
        k > 0 && backend::same_number(units(10 * k - 5, n + 1), v.magnitude()) ==> k % 2 == 0,
        backend::same_number(v.magnitude(), units((10 * k + 5) as int, n + 1)) ==> k % 2 == 0,
{
    law_scale_argument_is_whole_part(w, n);
    if let DecimalView::Finite { negative: m, coefficient: c, scale: s } = v {
        assert(digits::pow10(0) == 1);
        assert(c * 1 == c) by (nonlinear_arith);
        if c == 0 {
            laws::lemma_zero_stays(units_like(v, 0, n));
            lemma_rescaled_zero(v, n);
            lemma_zero_below(5, n + 1, s);
            0
        } else if n >= s {
            let p = digits::pow10((n - s) as nat);
            let k = c * p;
            digits::lemma_digit_count_scale_up(c, (n - s) as nat);
            scales::lemma_padded_order(c, s, (n - s) as nat);
            assert(s + (n - s) as nat == n);
            lemma_alike(m, c, s, k, n);
            arithmetic::lemma_widened_in_format(m, c, s, n);
            laws::lemma_widened_same_number(m, c, s, n);
            let wide = backend::widened(m, c, s, n);
            laws::law_format_keeps_number(wide);
            laws::law_format_keeps_number(v);
            let target = rounding::normalized(units_like(v, k, n));
            laws::law_equality_is_equivalence(rounding::normalized(wide), wide, v);
            laws::law_equality_is_equivalence(rounding::normalized(v), v, target);
            laws::law_equality_is_equivalence(v, rounding::normalized(v), target);
            laws::law_equality_is_equivalence(rounding::normalized(wide), v, target);
            lemma_units_around(c, s, n, k);
            k
        } else {
            let j = (s - n) as nat;
            let k = rounding::half_even_quotient(c, j);
            number::lemma_settles(v, n);
            lemma_settled_units(m, k, n, c, s);
            laws::law_half_even_is_nearest(c, j);
            lemma_units_around_rounded(c, s, n, k);
            k
        }
    } else {
        0
    }
}

/// A zero is a zero at every scale.
pub proof fn lemma_rescaled_zero(v: DecimalView, n: int)
    requires
        v.is_zero(),
    ensures
        rounding::normalized(rounding::rescaled(v, n)).is_zero(),
{
    if let DecimalView::Finite { scale: s, .. } = v {
        if n < s {
            let unit = digits::pow10((s - n) as nat);
            digits::lemma_pow10_monotonic((s - n) as nat, (s - n) as nat);
            assert(0nat / unit == 0 && 0nat % unit == 0) by (nonlinear_arith)
                requires
                    unit >= 1,
            ;
            assert(digits::digit_count(0) == 0);
        }
        laws::lemma_zero_stays(rounding::rescaled(v, n));
    }
}

/// A whole number of units lies between its own halves.
proof fn lemma_units_around(c: nat, s: int, n: int, k: nat)
    requires
        c > 0,
        s <= n,
        k == c * digits::pow10((n - s) as nat),
    ensures
        backend::finite_order((10 * k - 5) as nat, n + 1, c, s) < 0,
        backend::finite_order(c, s, 10 * k + 5, n + 1) < 0,
        k > 0,
{
    let p = digits::pow10((n - s) as nat);
    digits::lemma_digit_count_scale_up(c, (n - s) as nat);
    scales::lemma_order_at((10 * k - 5) as nat, n + 1, c, s, n + 1);
    scales::lemma_order_at(c, s, 10 * k + 5, n + 1, n + 1);
    assert(digits::pow10(0) == 1);
    assert((n + 1 - s) as nat == (n - s) as nat + 1);
    assert(digits::pow10((n + 1 - s) as nat) == 10 * p);
    assert(c * (10 * p) == 10 * (c * p)) by (nonlinear_arith);
    assert((10 * k - 5) * 1 == 10 * k - 5 && (10 * k + 5) * 1 == 10 * k + 5) by (nonlinear_arith);
}

/// A rounded number of units has the rounded number between its halves.
proof fn lemma_units_around_rounded(c: nat, s: int, n: int, k: nat)
    requires
        c > 0,
        n < s,
        ({
            let unit = digits::pow10((s - n) as nat) as int;
            &&& 2 * (k * unit - c) <= unit
            &&& 2 * (c - k * unit) <= unit
            &&& (2 * (k * unit - c) == unit || 2 * (c - k * unit) == unit) ==> k % 2 == 0
        }),
    ensures
        k > 0 ==> arithmetic::number_order(
            units(10 * k - 5, n + 1),
            DecimalView::Finite { negative: false, coefficient: c, scale: s },
        ) <= 0,
        arithmetic::number_order(
            DecimalView::Finite { negative: false, coefficient: c, scale: s },
            units((10 * k + 5) as int, n + 1),
        ) <= 0,
        k > 0 && backend::same_number(
            units(10 * k - 5, n + 1),
            DecimalView::Finite { negative: false, coefficient: c, scale: s },
        ) ==> k % 2 == 0,
        backend::same_number(
            DecimalView::Finite { negative: false, coefficient: c, scale: s },
            units((10 * k + 5) as int, n + 1),
        ) ==> k % 2 == 0,
{
    let low = digits::pow10((s - n - 1) as nat);
    let unit = digits::pow10((s - n) as nat);
    assert(unit == 10 * low);
    assert(digits::pow10(0) == 1);
    assert(c * 1 == c) by (nonlinear_arith);
    scales::lemma_order_at(c, s, 10 * k + 5, n + 1, s);
    assert((s - (n + 1)) as nat == (s - n - 1) as nat);
    assert(k * unit == 10 * (k * low) && (10 * k + 5) * low == 10 * (k * low) + 5 * low && (10 * k
        - 5) * low == 10 * (k * low) - 5 * low) by (nonlinear_arith)
        requires
            unit == 10 * low,
    ;
    if k > 0 {
        scales::lemma_order_at((10 * k - 5) as nat, n + 1, c, s, s);
    }
}

/// Dropping the zeros past the 34th digit of a rounded number of units changes nothing.
proof fn lemma_settled_units(m: bool, k: nat, n: int, c: nat, s: int)
    requires
        n < s,
        k == rounding::half_even_quotient(c, (s - n) as nat),
        rounding::settles(c, s, n),
        i16::MIN <= n,
    ensures
        backend::same_number(
            rounding::normalized(rounding::settled(m, k, n)),
            rounding::normalized(units(decimal::signed(m, k), n)),
        ),
{
    let surplus = digits::digit_count(k) - rounding::PRECISION;
    let r = rounding::normalized(DecimalView::Finite { negative: m, coefficient: k, scale: n });
    laws::law_equality_is_equivalence(r, r, r);
    assert(digits::pow10(0) == 1);
    if k == 0 {
        assert(digits::digit_count(0) == 0);
        laws::lemma_zero_stays(units(0, n));
        laws::lemma_zero_stays(rounding::settled(m, k, n));
    } else {
        assert(units(decimal::signed(m, k), n) == (DecimalView::Finite {
            negative: m,
            coefficient: k,
            scale: n,
        }));
        if surplus > 0 {
            if n - surplus < i16::MIN {
                assert(k / 1 == k) by (nonlinear_arith);
            } else {
                let z = surplus as nat;
                let unit = digits::pow10(z);
                let rest = k / unit;
                digits::lemma_pow10_monotonic(z, z);
                vstd::arithmetic::div_mod::lemma_fundamental_div_mod(k as int, unit as int);
                assert(rest * unit == k) by (nonlinear_arith)
                    requires
                        k == unit * rest,
                ;
                digits::lemma_digit_count_scale_down(k, z);
                scales::lemma_trailing_zeros(rest, n - z, z);
            }
        }
    }
}

/// A number with no more places than the whole part of a second one says is left as it
/// is by rounding.
pub proof fn law_round_keeps_units(v: DecimalView, w: DecimalView, n: int, j: nat)
    requires
        v is Finite,
        v.representable(),
        rounding::in_format(v),
        w.representable(),
        rounding::in_format(w),
        has_whole_part(w, n),
        i16::MIN <= n <= i16::MAX,
        backend::same_number(v.magnitude(), units(j as int, n)),
    ensures
        backend::same_number(
            rounding::normalized(rounding::rescaled(v, number::scale_argument(w))),
            v,
        ),
{
    let k = law_round_is_nearest(v, w, n);
    let r = rounding::normalized(rounding::rescaled(v, number::scale_argument(w)));
    if let DecimalView::Finite { negative: m, coefficient: c, scale: s } = v {
        if c == 0 {
            law_scale_argument_is_whole_part(w, n);
            lemma_rescaled_zero(v, n);
        } else {
            if j == 0 {
                lemma_zero_below(c, s, n);
            }
            lemma_same_halves(c, s, n, j, k);
            lemma_alike(m, c, s, j, n);
            laws::law_format_keeps_number(v);
            let target = rounding::normalized(units_like(v, k, n));
            laws::law_equality_is_equivalence(v, rounding::normalized(v), target);
            laws::law_equality_is_equivalence(r, target, v);
            laws::law_equality_is_equivalence(target, v, target);
            laws::law_equality_is_equivalence(v, target, v);
        }
    }
}

/// Whole units between the halves of another number of units are that number.
proof fn lemma_same_halves(c: nat, s: int, n: int, j: nat, k: nat)
    requires
        c > 0,
        j > 0,
        backend::finite_order(c, s, j, n) == 0,
        k > 0 ==> arithmetic::number_order(
            units(10 * k - 5, n + 1),
            DecimalView::Finite { negative: false, coefficient: c, scale: s },
        ) <= 0,
        arithmetic::number_order(
            DecimalView::Finite { negative: false, coefficient: c, scale: s },
            units((10 * k + 5) as int, n + 1),
        ) <= 0,
    ensures
        j == k,
{
    lemma_replace(10 * k + 5, n + 1, c, s, j, n);
    assert((n + 1 - n) as nat == 1 && (n + 1 - (n + 1)) as nat == 0);
    assert(j * 10 == 10 * j) by (nonlinear_arith);
    scales::lemma_order_at(j, n, 10 * k + 5, n + 1, n + 1);
    assert(digits::pow10(0) == 1);
    assert(digits::pow10(1) == 10 * digits::pow10(0));
    assert((10 * k + 5) * 1 == 10 * k + 5 && (10 * k - 5) * 1 == 10 * k - 5) by (nonlinear_arith);
    if k > 0 {
        lemma_replace((10 * k - 5) as nat, n + 1, c, s, j, n);
        scales::lemma_order_at((10 * k - 5) as nat, n + 1, j, n, n + 1);
    }
}

/// Closeness can be told at any scale that both can be brought to.
proof fn lemma_close_at(a: nat, s: int, b: nat, t: int, places: nat, times: nat, u: int)
    requires
        s <= u,
        t <= u,
    ensures
        backend::close(a, s, b, t, places, times) <==> ({
            let x = a * digits::pow10((u - s) as nat);
            let y = b * digits::pow10((u - t) as nat);
            -times * y <= (x - y) * digits::pow10(places) <= times * y
        }),
{
    let w = if s < t {
        t
    } else {
        s
    };
    let k = digits::pow10((u - w) as nat) as int;
    let e = digits::pow10(places) as int;
    let n = times as int;
    digits::lemma_pow10_monotonic((u - w) as nat, (u - w) as nat);
    digits::lemma_pow10_add((w - s) as nat, (u - w) as nat);
    digits::lemma_pow10_add((w - t) as nat, (u - w) as nat);
    assert((w - s) as nat + (u - w) as nat == (u - s) as nat);
    assert((w - t) as nat + (u - w) as nat == (u - t) as nat);
    let ps = digits::pow10((w - s) as nat) as int;
    let pt = digits::pow10((w - t) as nat) as int;
    let x = a * ps;
    let y = b * pt;
    assert(a * (ps * k) == x * k && b * (pt * k) == y * k) by (nonlinear_arith)
        requires
            x == a * ps,
            y == b * pt,
    ;
    assert((-n * (y * k) <= (x * k - y * k) * e <==> -n * y <= (x - y) * e) && ((x * k - y * k) * e
        <= n * (y * k) <==> (x - y) * e <= n * y)) by (nonlinear_arith)
        requires
            k >= 1,
    ;
}

/// Bringing a number within range to the format keeps its sign and moves it by at most
/// half a unit of its 34th digit; only rounding at the top of the range makes it infinite.
pub proof fn law_format_is_close(negative: bool, c: nat, s: int)
    requires
        c > 0,
        rounding::MIN_ADJUSTED_EXPONENT <= decimal::adjusted_exponent(c, s)
            <= rounding::MAX_ADJUSTED_EXPONENT,
    ensures
        ({
            let r = rounding::normalized(
                DecimalView::Finite { negative, coefficient: c, scale: s },
            );
            &&& decimal::adjusted_exponent(c, s) < rounding::MAX_ADJUSTED_EXPONENT ==> r is Finite
            &&& r.negative() == negative && !(r is NotANumber)
            &&& r matches DecimalView::Finite { coefficient: d, scale: t, .. } ==> 0 < d
                < digits::pow10(34) && backend::close(d, t, c, s, 34, 5)
        }),
{
    let (q, t) = rounding::to_precision(c, s);
    rounding::lemma_to_precision(c, s);
    laws::lemma_rounded_order(c, s);
    digits::lemma_digit_count_bounds(c);
    lemma_precision_is_close(c, s);
    if t < -rounding::MAX_STORED_EXPONENT && decimal::adjusted_exponent(q, t)
        <= rounding::MAX_ADJUSTED_EXPONENT {
        let i = (-rounding::MAX_STORED_EXPONENT - t) as nat;
        rounding::lemma_padding(q, t);
        scales::lemma_padded_order(q, t, i);
        lemma_close_replace(q * digits::pow10(i), t + i, q, t, c, s, 34, 5);
    }
}

/// Of two ways to write the first magnitude, one is as close as the other.
proof fn lemma_close_replace(
    a: nat,
    s: int,
    b: nat,
    t: int,
    c: nat,
    u: int,
    places: nat,
    times: nat,
)
    requires
        backend::finite_order(a, s, b, t) == 0,
    ensures
        backend::close(a, s, c, u, places, times) == backend::close(b, t, c, u, places, times),
        backend::close(c, u, a, s, places, times) == backend::close(c, u, b, t, places, times),
{
    let w = vstd::math::max(s, vstd::math::max(t, u));
    scales::lemma_order_at(a, s, b, t, w);
    lemma_close_at(a, s, c, u, places, times, w);
    lemma_close_at(b, t, c, u, places, times, w);
    lemma_close_at(c, u, a, s, places, times, w);
    lemma_close_at(c, u, b, t, places, times, w);
}

/// Rounding to 34 digits moves a magnitude by at most half a unit of the 34th.
proof fn lemma_precision_is_close(c: nat, s: int)
    requires
        c > 0,
    ensures
        ({
            let (q, t) = rounding::to_precision(c, s);
            backend::close(q, t, c, s, 34, 5)
        }),
{
    let (q, t) = rounding::to_precision(c, s);
    let n = digits::digit_count(c);
    assert(digits::pow10(0) == 1);
    assert(c * 1 == c && q * 1 == q) by (nonlinear_arith);
    digits::lemma_digit_count_bounds(c);
    if n > rounding::PRECISION {
        let k = (n - rounding::PRECISION) as nat;
        let h = rounding::half_even_quotient(c, k);
        let unit = digits::pow10(k) as int;
        laws::law_half_even_is_nearest(c, k);
        digits::lemma_pow10_add(33, k);
        assert((n - 1) as nat == 33 + k);
        assert(digits::pow10(34) == 10 * digits::pow10(33));
        let e = digits::pow10(33) as int;
        let gap = h * unit - c;
        assert(-5 * c <= gap * (10 * e) <= 5 * c) by (nonlinear_arith)
            requires
                2 * gap <= unit,
                -2 * gap <= unit,
                e * unit <= c,
                e >= 0,
        ;
        // The rounded digits at the scale of the number.
        assert(q * digits::pow10((s - t) as nat) == h * unit) by {
            if h == digits::pow10(34) {
                assert((s - t) as nat == k + 1);
                assert(digits::pow10(k + 1) == 10 * digits::pow10(k));
                assert(e * (10 * unit) == (10 * e) * unit) by (nonlinear_arith);
            } else {
                assert((s - t) as nat == k);
            }
        }
        lemma_close_at(q, t, c, s, 34, 5, s);
    } else {
        lemma_close_at(c, s, c, s, 34, 5, s);
        assert((c - c) * digits::pow10(34) == 0) by (nonlinear_arith);
    }
}

/// A square whose root was rounded is still close.
proof fn lemma_squares(p: nat, q: nat, v: nat, e: nat, f: nat)
    requires
        e >= 1000,
        -5 * q <= (p - q) * (10 * e) <= 5 * q,
        -1 * v <= (q * q - v) * (e * f) <= 1 * v,
        f >= 100,
    ensures
        -2 * v <= (p * p - v) * e <= 2 * v,
{
    let d = p - q;
    let g = q * q - v;
    assert(p * p - q * q == d * (2 * q + d)) by (nonlinear_arith)
        requires
            d == p - q,
    ;
    assert(-q <= 2 * (d * e) <= q) by (nonlinear_arith)
        requires
            -5 * q <= d * (10 * e) <= 5 * q,
    ;
    assert(-q <= 2 * d <= q) by (nonlinear_arith)
        requires
            -q <= 2 * (d * e) <= q,
            e >= 1,
            q >= 0,
    ;
    let h = d * e;
    let sum = 2 * q + d;
    assert(d * (2 * q + d) * e == h * sum) by (nonlinear_arith)
        requires
            h == d * e,
            sum == 2 * q + d,
    ;
    // Twice the first difference is at most five quarters of the square.
    assert(-5 * (q * q) <= 4 * (h * sum) <= 5 * (q * q)) by (nonlinear_arith)
        requires
            -q <= 2 * h <= q,
            sum == 2 * q + d,
            -q <= 2 * d <= q,
            q >= 0,
    ;
    assert(-v <= 100 * (g * e) <= v && -v <= 100 * g <= v) by (nonlinear_arith)
        requires
            -1 * v <= g * (e * f) <= 1 * v,
            f >= 100,
            e >= 1,
            v >= 0,
    ;
    assert((p * p - v) * e == h * sum + g * e) by (nonlinear_arith)
        requires
            p * p - q * q == d * (2 * q + d),
            g == q * q - v,
            d * (2 * q + d) * e == h * sum,
    ;
}

/// The root of a value that was moved by an even number of places, moved back by half as
/// many and rounded, squares back to the value.
proof fn lemma_root_moved_back(c: nat, s: int, e: nat, g: int, h: int, y: nat, t: int)
    requires
        c > 0,
        y > 0,
        backend::finite_order(e, g, c, s + 2 * h) == 0,
        backend::close(y * y, 2 * t, e, g, 50, 1),
        -20000 <= t - h <= 20000,
        rounding::MIN_ADJUSTED_EXPONENT <= decimal::adjusted_exponent(y, t - h)
            < rounding::MAX_ADJUSTED_EXPONENT,
    ensures
        backend::squares_to(
            rounding::normalized(
                arithmetic::shifted(
                    DecimalView::Finite { negative: false, coefficient: y, scale: t },
                    h,
                ),
            ),
            DecimalView::Finite { negative: false, coefficient: c, scale: s },
            33,
            2,
        ),
{
    law_format_is_close(false, y, t - h);
    lemma_close_replace(e, g, c, s + 2 * h, y * y, 2 * t, 50, 1);
    if let DecimalView::Finite { coefficient: x, scale: u, .. } = rounding::normalized(
        DecimalView::Finite { negative: false, coefficient: y, scale: t - h },
    ) {
        let o = vstd::math::max(vstd::math::max(u, t - h), vstd::math::abs(s) as int);
        lemma_close_at(x, u, y, t - h, 34, 5, o);
        assert(backend::close(y * y, 2 * t, c, s + 2 * h, 50, 1) == backend::close(
            y * y,
            2 * (t - h),
            c,
            s,
            50,
            1,
        )) by {
            lemma_close_at(y * y, 2 * t, c, s + 2 * h, 50, 1, 2 * o + 2 * h);
            lemma_close_at(y * y, 2 * (t - h), c, s, 50, 1, 2 * o);
            assert((2 * o + 2 * h - 2 * t) as nat == (2 * o - 2 * (t - h)) as nat);
            assert((2 * o + 2 * h - (s + 2 * h)) as nat == (2 * o - s) as nat);
        }
        lemma_close_at(y * y, 2 * (t - h), c, s, 50, 1, 2 * o);
        lemma_close_at(x * x, 2 * u, c, s, 33, 2, 2 * o);
        let i = (o - u) as nat;
        let j = (o - (t - h)) as nat;
        digits::lemma_pow10_add(i, i);
        digits::lemma_pow10_add(j, j);
        assert((2 * o - 2 * u) as nat == i + i);
        assert((2 * o - 2 * (t - h)) as nat == j + j);
        let a = digits::pow10(i);
        let b = digits::pow10(j);
        let p = x * a;
        let q = y * b;
        let v = c * digits::pow10((2 * o - s) as nat);
        assert((x * x) * (a * a) == p * p && (y * y) * (b * b) == q * q) by (nonlinear_arith)
            requires
                p == x * a,
                q == y * b,
        ;
        digits::lemma_pow10_add(33, 17);
        assert(digits::pow10(34) == 10 * digits::pow10(33));
        assert(digits::pow10(3) == 1000) by {
            reveal_with_fuel(digits::pow10, 4);
        }
        digits::lemma_pow10_monotonic(3, 33);
        digits::lemma_pow10_monotonic(3, 17);
        lemma_squares(p, q, v, digits::pow10(33), digits::pow10(17));
    }
}

/// A magnitude whose leading digit is at or before the point is at least one; one whose
/// leading digit stands `k` places after it is below `10^(1 - k)`.
pub proof fn lemma_leading(c: nat, s: int, k: int)
    requires
        c > 0,
    ensures
        decimal::adjusted_exponent(c, s) >= k ==> backend::finite_order(c, s, 1, -k) >= 0,
        decimal::adjusted_exponent(c, s) < k ==> backend::finite_order(c, s, 1, -k) < 0,
{
    let n = digits::digit_count(c);
    let w = vstd::math::max(s, -k);
    digits::lemma_digit_count_bounds(c);
    scales::lemma_order_at(c, s, 1, -k, w);
    let p = digits::pow10((w - s) as nat);
    let q = digits::pow10((w + k) as nat);
    digits::lemma_pow10_monotonic((w - s) as nat, (w - s) as nat);
    assert((w - (-k)) as nat == (w + k) as nat);
    assert(1 * q == q) by (nonlinear_arith);
    if n - 1 - s >= k {
        let low = digits::pow10((n - 1) as nat);
        digits::lemma_pow10_add((n - 1) as nat, (w - s) as nat);
        digits::lemma_pow10_monotonic((w + k) as nat, (n - 1) as nat + (w - s) as nat);
        assert(low * p <= c * p) by (nonlinear_arith)
            requires
                low <= c,
                p >= 0,
        ;
    } else {
        let high = digits::pow10(n);
        digits::lemma_pow10_add(n, (w - s) as nat);
        digits::lemma_pow10_monotonic(n + (w - s) as nat, (w + k) as nat);
        assert(c * p < high * p) by (nonlinear_arith)
            requires
                c < high,
                p >= 1,
        ;
    }
}

/// Bringing a value to the format does not take it across one.
pub proof fn law_format_keeps_side_of_one(q: DecimalView, up: bool)
    requires
        backend::beside_one(q, up),
    ensures
        backend::beside_one(rounding::normalized(q), up),
{
    if let DecimalView::Finite { negative, coefficient: c, scale: s } = q {
        if c == 0 {
            laws::lemma_zero_stays(q);
            lemma_zero_below(1, 0, s);
            if let DecimalView::Finite { scale: t, .. } = rounding::normalized(q) {
                rounding::lemma_to_precision(0, s);
                lemma_zero_below(1, 0, t);
            }
        } else if up {
            let (d, t) = rounding::to_precision(c, s);
            lemma_leading(c, s, 0);
            laws::lemma_rounded_order(c, s);
            lemma_leading(d, t, 0);
            if t < -rounding::MAX_STORED_EXPONENT {
                let i = (-rounding::MAX_STORED_EXPONENT - t) as nat;
                scales::lemma_padded_order(d, t, i);
                lemma_replace(1, 0, d * digits::pow10(i), t + i, d, t);
                scales::lemma_order_chain(1, 0, d, t, 1, 0);
                scales::lemma_order_chain(d * digits::pow10(i), t + i, d, t, 1, 0);
            }
        } else if backend::finite_order(c, s, 1, 0) == 0 {
            arithmetic::lemma_one_is_padded(c, s);
            lemma_alike_one(c, s);
        } else {
            lemma_below_one(c, s);
            lemma_rounded_at_most(negative, c, s, s as nat);
        }
    }
}

/// A one at any scale is brought to the format as one.
proof fn lemma_alike_one(c: nat, s: int)
    requires
        c > 0,
        backend::finite_order(c, s, 1, 0) == 0,
    ensures
        rounding::normalized(
            DecimalView::Finite { negative: false, coefficient: c, scale: s },
        ) matches DecimalView::Finite { negative, coefficient: d, scale: t } && !negative
            && backend::finite_order(d, t, 1, 0) == 0,
{
    arithmetic::lemma_one_is_padded(c, s);
    assert(digits::digit_count(1) == 1) by {
        reveal_with_fuel(digits::digit_count, 2);
    }
    let k = s as nat;
    assert(1 * digits::pow10(k) == digits::pow10(k)) by (nonlinear_arith);
    scales::lemma_padded_significant(1, k);
    digits::lemma_digit_count_scale_up(1, k);
    scales::lemma_kept(false, c, s);
    if let DecimalView::Finite { coefficient: d, scale: t, .. } = rounding::normalized(
        DecimalView::Finite { negative: false, coefficient: c, scale: s },
    ) {
        lemma_replace(d, t, c, s, 1, 0);
    }
}

/// A magnitude below one has more places than digits.
proof fn lemma_below_one(c: nat, s: int)
    requires
        c > 0,
        backend::finite_order(c, s, 1, 0) < 0,
    ensures
        s > 0,
        c < digits::pow10(s as nat),
{
    if s <= 0 {
        let p = digits::pow10((0 - s) as nat);
        digits::lemma_pow10_monotonic((0 - s) as nat, (0 - s) as nat);
        assert(c * p >= 1) by (nonlinear_arith)
            requires
                c >= 1,
                p >= 1,
        ;
    } else {
        assert((s - 0) as nat == s as nat);
        assert(1 * digits::pow10(s as nat) == digits::pow10(s as nat)) by (nonlinear_arith);
    }
}

/// A root of a value from one to below a hundred lies near one as well.
proof fn lemma_root_leading(y: nat, t: int, e: nat, g: int)
    requires
        y > 0,
        backend::close(y * y, 2 * t, e, g, 50, 1),
        backend::finite_order(e, g, 1, 0) >= 0,
        backend::finite_order(e, g, 100, 0) < 0,
    ensures
        -1 <= decimal::adjusted_exponent(y, t) <= 1,
{
    let o = vstd::math::max(vstd::math::max(t, 1), vstd::math::max(g, 1));
    let one = digits::pow10((2 * o) as nat);
    lemma_close_at(y * y, 2 * t, e, g, 50, 1, 2 * o);
    scales::lemma_order_at(e, g, 1, 0, 2 * o);
    scales::lemma_order_at(e, g, 100, 0, 2 * o);
    assert((2 * o - 0) as nat == (2 * o) as nat);
    assert(1 * one == one) by (nonlinear_arith);
    let i = (o - t) as nat;
    digits::lemma_pow10_add(i, i);
    assert((2 * o - 2 * t) as nat == i + i);
    let a = digits::pow10(i);
    let r = y * a;
    assert((y * y) * (a * a) == r * r) by (nonlinear_arith)
        requires
            r == y * a,
    ;
    let b = e * digits::pow10((2 * o - g) as nat);
    let big = digits::pow10(50);
    digits::lemma_pow10_monotonic(1, 50);
    assert(digits::pow10(0) == 1);
    assert(digits::pow10(1) == 10 * digits::pow10(0));
    // The square is within a tenth of the value.
    assert(10 * (r * r) <= 11 * b && 9 * b <= 10 * (r * r)) by (nonlinear_arith)
        requires
            -1 * b <= (r * r - b) * big <= 1 * b,
            big >= 10,
            b >= 0,
    ;
    digits::lemma_pow10_add(o as nat, o as nat);
    let unit = digits::pow10(o as nat);
    digits::lemma_pow10_monotonic(o as nat, o as nat);
    assert((2 * o) as nat == o as nat + o as nat);
    lemma_leading(y, t, 2);
    lemma_leading(y, t, -1);
    scales::lemma_order_at(y, t, 1, -2, o);
    scales::lemma_order_at(y, t, 1, 1, o);
    digits::lemma_pow10_add(o as nat, 2);
    assert(digits::pow10(2) == 10 * digits::pow10(1));
    assert((o - (-2)) as nat == o as nat + 2);
    let tenth = digits::pow10((o - 1) as nat);
    assert(unit == 10 * tenth);
    if decimal::adjusted_exponent(y, t) >= 2 {
        assert(1 * (unit * 100) == unit * 100) by (nonlinear_arith);
        assert(r * r >= 10000 * (unit * unit)) by (nonlinear_arith)
            requires
                r >= unit * 100,
                unit >= 1,
        ;
    }
    if decimal::adjusted_exponent(y, t) < -1 {
        assert(1 * tenth == tenth) by (nonlinear_arith);
        assert(100 * (r * r) <= unit * unit) by (nonlinear_arith)
            requires
                0 <= r < tenth,
                unit == 10 * tenth,
        ;
    }
}

/// The root that is found for a positive number squares back to it.
pub proof fn lemma_root_found(v: DecimalView, q: DecimalView)
    requires
        v is Finite,
        !v.is_zero(),
        !v.negative(),
        v.representable(),
        rounding::in_format(v),
        q.representable(),
        ({
            let near = number::moved(v, -2 * (rounding::order_of(v) / 2));
            backend::from_one_to_hundred(near) ==> backend::squares_to(q, near, 50, 1)
        }),
    ensures
        backend::squares_to(
            rounding::normalized(arithmetic::shifted(q, rounding::order_of(v) / 2)),
            v,
            33,
            2,
        ),
        backend::from_one_to_hundred(number::moved(v, -2 * (rounding::order_of(v) / 2))),
{
    if let DecimalView::Finite { coefficient: c, scale: s, .. } = v {
        let h = rounding::order_of(v) / 2;
        let near = number::moved(v, -2 * h);
        rounding::lemma_coefficient_digits(c);
        digits::lemma_digit_count_bounds(c);
        scales::lemma_moved(false, c, s, -2 * h);
        if let DecimalView::Finite { coefficient: e, scale: g, .. } = near {
            lemma_replace(e, g, e, g, c, s + 2 * h);
            scales::lemma_order_chain(e, g, c, s + 2 * h, e, g);
            scales::lemma_order_of_leading(e, g, c, s + 2 * h);
            scales::lemma_order_of_leading(c, s + 2 * h, e, g);
            lemma_leading(e, g, 0);
            lemma_leading(e, g, 2);
            lemma_hundred(e, g);
            if let DecimalView::Finite { coefficient: y, scale: t, .. } = q {
                lemma_root_leading(y, t, e, g);
                rounding::lemma_coefficient_digits(y);
                digits::lemma_digit_count_bounds(y);
                lemma_root_moved_back(c, s, e, g, h, y, t);
            }
        }
    }
}

/// A hundred is ten squared.
proof fn lemma_hundred(e: nat, g: int)
    ensures
        backend::finite_order(e, g, 100, 0) == backend::finite_order(e, g, 1, -2),
{
    assert(digits::pow10(0) == 1);
    assert(digits::pow10(1) == 10 * digits::pow10(0));
    assert(digits::pow10(2) == 10 * digits::pow10(1));
    scales::lemma_padded_order(1, -2, 2);
    assert(1 * 100 == 100nat) by (nonlinear_arith);
    assert(-2 + 2 == 0int);
    lemma_replace(e, g, 100, 0, 1, -2);
}

/// One squares to every value that is one.
pub proof fn lemma_one_squares(v: DecimalView)
    requires
        backend::same_number(v, DecimalView::one()),
    ensures
        backend::squares_to(DecimalView::one(), v, 50, 1),
{
    if let DecimalView::Finite { coefficient: e, scale: g, .. } = v {
        assert(1nat * 1nat == 1nat);
        lemma_close_replace(e, g, 1, 0, 1, 0, 50, 1);
        lemma_close_at(1, 0, 1, 0, 50, 1, 0);
        assert(digits::pow10(0) == 1);
        assert((1nat - 1nat) * digits::pow10(50) == 0) by (nonlinear_arith);
    }
}

/// Every root squares back to its number to 33 digits, given that the wide type's roots
/// of values from one to below a hundred do so to 50.
pub proof fn law_root_squares_back(v: DecimalView)
    requires
        v is Finite,
        !v.is_zero(),
        !v.negative(),
        v.representable(),
        rounding::in_format(v),
        forall|d: DecimalView|
            backend::from_one_to_hundred(d) ==> (#[trigger] backend::root_of(d)).representable()
                && backend::squares_to(backend::root_of(d), d, 50, 1),
    ensures
        backend::squares_to(arithmetic::raw_root(v), v, 33, 2),
{
    let near = number::moved(v, -2 * (rounding::order_of(v) / 2));
    if backend::same_number(near, DecimalView::one()) {
        lemma_one_squares(near);
        lemma_root_found(v, DecimalView::one());
    } else {
        lemma_near_is_moved(v);
        assert(backend::root_of(near).representable());
        lemma_root_found(v, backend::root_of(near));
    }
}

/// A positive number moved by its even leading exponent lies from one to below a hundred.
proof fn lemma_near_is_moved(v: DecimalView)
    requires
        v is Finite,
        !v.is_zero(),
        !v.negative(),
        v.representable(),
        rounding::in_format(v),
    ensures
        backend::from_one_to_hundred(number::moved(v, -2 * (rounding::order_of(v) / 2))),
{
    if let DecimalView::Finite { coefficient: c, scale: s, .. } = v {
        let h = rounding::order_of(v) / 2;
        let near = number::moved(v, -2 * h);
        rounding::lemma_coefficient_digits(c);
        digits::lemma_digit_count_bounds(c);
        scales::lemma_moved(false, c, s, -2 * h);
        if let DecimalView::Finite { coefficient: e, scale: g, .. } = near {
            scales::lemma_order_chain(e, g, c, s + 2 * h, e, g);
            scales::lemma_order_of_leading(e, g, c, s + 2 * h);
            scales::lemma_order_of_leading(c, s + 2 * h, e, g);
            lemma_leading(e, g, 0);
            lemma_leading(e, g, 2);
            lemma_hundred(e, g);
        }
    }
}

/// Two is above one and a half below it.
pub proof fn lemma_two_and_half(c: nat, s: int)
    requires
        c > 0,
    ensures
        backend::finite_order(c, s, 2, 0) >= 0 ==> backend::finite_order(c, s, 1, 0) > 0,
        backend::finite_order(c, s, 5, 1) <= 0 ==> backend::finite_order(c, s, 1, 0) < 0,
        backend::finite_order(c, s, 2, 0) < 0 || backend::finite_order(c, s, 5, 1) > 0,
{
    let w = vstd::math::max(s, 1);
    scales::lemma_order_at(c, s, 2, 0, w);
    scales::lemma_order_at(c, s, 1, 0, w);
    scales::lemma_order_at(c, s, 5, 1, w);
    let p = digits::pow10((w - 1) as nat);
    digits::lemma_pow10_monotonic((w - 1) as nat, (w - 1) as nat);
    assert(digits::pow10((w - 0) as nat) == 10 * p);
    assert(2 * (10 * p) == 20 * p && 1 * (10 * p) == 10 * p) by (nonlinear_arith);
}

/// Zero is at or below one.
pub proof fn lemma_zero_beside_one()
    ensures
        backend::beside_one(DecimalView::zero(), false),
        backend::beside_one(rounding::normalized(DecimalView::zero()), false),
{
    lemma_zero_below(1, 0, 0);
    law_format_keeps_side_of_one(DecimalView::zero(), false);
}

/// Bringing a value beside one to the format leaves it there.
pub proof fn lemma_beside_one(q: DecimalView, up: bool)
    ensures
        backend::beside_one(q, up) ==> backend::beside_one(rounding::normalized(q), up),
{
    if backend::beside_one(q, up) {
        law_format_keeps_side_of_one(q, up);
    }
}

/// Whether two powers to opposite exponents multiply to one to 33 digits, as far as both
/// are numbers of the format other than zero.
pub open spec fn inverse_powers(p: DecimalView, q: DecimalView) -> bool {
    p is Finite && q is Finite && !p.is_zero() && !q.is_zero() ==> backend::reciprocal(p, q, 33, 2)
}

/// A number of the format is close to what was brought to it.
proof fn lemma_format_close(v: DecimalView)
    requires
        v is Finite,
        rounding::normalized(v) is Finite,
        !rounding::normalized(v).is_zero(),
    ensures
        match (v, rounding::normalized(v)) {
            (
                DecimalView::Finite { negative: m, coefficient: c, scale: s },
                DecimalView::Finite { negative: n, coefficient: d, scale: t },
            ) => m == n && c > 0 && backend::close(d, t, c, s, 34, 5),
            _ => false,
        },
{
    if let DecimalView::Finite { negative, coefficient: c, scale: s } = v {
        let (q, t) = rounding::to_precision(c, s);
        rounding::lemma_to_precision(c, s);
        if c > 0 {
            lemma_precision_is_close(c, s);
            if t < -rounding::MAX_STORED_EXPONENT && decimal::adjusted_exponent(q, t)
                <= rounding::MAX_ADJUSTED_EXPONENT {
                let i = (-rounding::MAX_STORED_EXPONENT - t) as nat;
                scales::lemma_padded_order(q, t, i);
                lemma_close_replace(q * digits::pow10(i), t + i, q, t, c, s, 34, 5);
            }
        }
    }
}

/// A product of two rounded factors is still close to one.
proof fn lemma_products(x: nat, a: nat, y: nat, b: nat, one: nat, e: nat, f: nat)
    requires
        e >= 1000,
        f >= 100,
        -5 * a <= (x - a) * (10 * e) <= 5 * a,
        -5 * b <= (y - b) * (10 * e) <= 5 * b,
        -1 * one <= (a * b - one) * (e * f) <= 1 * one,
    ensures
        -2 * one <= (x * y - one) * e <= 2 * one,
{
    let d = x - a;
    let h = y - b;
    let g = a * b - one;
    let i = d * e;
    let j = h * e;
    assert(-a <= 2 * i <= a && -b <= 2 * j <= b) by (nonlinear_arith)
        requires
            -5 * a <= d * (10 * e) <= 5 * a,
            -5 * b <= h * (10 * e) <= 5 * b,
            i == d * e,
            j == h * e,
    ;
    assert(-b <= 100 * h <= b) by (nonlinear_arith)
        requires
            -b <= 2 * j <= b,
            j == h * e,
            e >= 1000,
            b >= 0,
    ;
    assert((x * y - one) * e == i * y + a * j + g * e) by (nonlinear_arith)
        requires
            x == a + d,
            y == b + h,
            i == d * e,
            j == h * e,
            g == a * b - one,
    ;
    assert(-101 * (a * b) <= 200 * (i * y) <= 101 * (a * b)) by (nonlinear_arith)
        requires
            -a <= 2 * i <= a,
            y == b + h,
            -b <= 100 * h <= b,
            a >= 0,
            b >= 0,
    ;
    assert(-(a * b) <= 2 * (a * j) <= a * b) by (nonlinear_arith)
        requires
            -b <= 2 * j <= b,
            a >= 0,
    ;
    assert(-one <= 100 * (g * e) <= one && -one <= 100 * g <= one) by (nonlinear_arith)
        requires
            -1 * one <= g * (e * f) <= 1 * one,
            f >= 100,
            e >= 1,
            one >= 0,
    ;
}

/// Two values that are one over each other stay so when they are brought to the format.
pub proof fn lemma_reciprocals(p: DecimalView, q: DecimalView)
    requires
        backend::reciprocal(p, q, 50, 1),
    ensures
        inverse_powers(rounding::normalized(p), rounding::normalized(q)),
{
    let r = rounding::normalized(p);
    let l = rounding::normalized(q);
    if r is Finite && l is Finite && !r.is_zero() && !l.is_zero() {
        lemma_format_close(p);
        lemma_format_close(q);
        if let DecimalView::Finite { coefficient: a, scale: s, .. } = p {
            if let DecimalView::Finite { coefficient: b, scale: t, .. } = q {
                if let DecimalView::Finite { coefficient: x, scale: u, .. } = r {
                    if let DecimalView::Finite { coefficient: y, scale: w, .. } = l {
                        lemma_reciprocal_parts(a, s, b, t, x, u, y, w);
                    }
                }
            }
        }
    }
}

/// The coefficients of two values that are one over each other.
proof fn lemma_reciprocal_parts(
    a: nat,
    s: int,
    b: nat,
    t: int,
    x: nat,
    u: int,
    y: nat,
    w: int,
)
    requires
        backend::close(a * b, s + t, 1, 0, 50, 1),
        backend::close(x, u, a, s, 34, 5),
        backend::close(y, w, b, t, 34, 5),
    ensures
        backend::close(x * y, u + w, 1, 0, 33, 2),
{
    let o = vstd::math::max(vstd::math::max(s, u), 0);
    let k = vstd::math::max(vstd::math::max(t, w), 0);
    lemma_close_at(x, u, a, s, 34, 5, o);
    lemma_close_at(y, w, b, t, 34, 5, k);
    lemma_close_at(a * b, s + t, 1, 0, 50, 1, o + k);
    lemma_close_at(x * y, u + w, 1, 0, 33, 2, o + k);
    digits::lemma_pow10_add((o - s) as nat, (k - t) as nat);
    digits::lemma_pow10_add((o - u) as nat, (k - w) as nat);
    assert((o - s) as nat + (k - t) as nat == (o + k - (s + t)) as nat);
    assert((o - u) as nat + (k - w) as nat == (o + k - (u + w)) as nat);
    let ps = digits::pow10((o - s) as nat);
    let pt = digits::pow10((k - t) as nat);
    let pu = digits::pow10((o - u) as nat);
    let pw = digits::pow10((k - w) as nat);
    assert((a * b) * (ps * pt) == (a * ps) * (b * pt) && (x * y) * (pu * pw) == (x * pu) * (y
        * pw)) by (nonlinear_arith);
    digits::lemma_pow10_add(33, 17);
    assert(digits::pow10(34) == 10 * digits::pow10(33));
    assert(digits::pow10(3) == 1000) by {
        reveal_with_fuel(digits::pow10, 4);
    }
    digits::lemma_pow10_monotonic(3, 33);
    digits::lemma_pow10_monotonic(3, 17);
    lemma_products(
        x * pu,
        a * ps,
        y * pw,
        b * pt,
        1 * digits::pow10((o + k - 0) as nat),
        digits::pow10(33),
        digits::pow10(17),
    );
}

/// The powers of a base to opposite exponents are one over each other.
pub proof fn lemma_inverse(base: DecimalView, exponent: DecimalView, wide: DecimalView)
    requires
        arithmetic::both_nonzero(base, exponent),
        !base.negative(),
        !backend::same_number(base, DecimalView::one()),
        match powers::range_of(base, exponent) {
            Magnitude::Above => wide == (DecimalView::Infinite { negative: false }),
            Magnitude::Below => wide == DecimalView::zero(),
            Magnitude::Within => backend::reciprocal(
                wide,
                backend::wide_power(base, exponent.negated()),
                50,
                1,
            ),
        },
    ensures
        inverse_powers(
            rounding::normalized(wide),
            arithmetic::power_value(base, exponent.negated()),
        ),
{
    assert(exponent.negated().magnitude() == exponent.magnitude());
    assert(powers::is_far(base, exponent.negated()) == powers::is_far(base, exponent));
    laws::lemma_zero_stays(DecimalView::zero());
    if powers::range_of(base, exponent) is Within {
        lemma_reciprocals(wide, backend::wide_power(base, exponent.negated()));
    }
}

/// Rounding zero half down gives zero.
pub proof fn law_half_down_of_zero(v: DecimalView)
    requires
        v.is_zero(),
        v.representable(),
    ensures
        number::round_half_down_value(v, 0).is_zero(),
{
    if let DecimalView::Finite { negative: m, .. } = v {
        let t = DecimalView::Finite { negative: !m, coefficient: 1, scale: 1 };
        let sum = arithmetic::sum_value(v, t);
        assert(digits::digit_count(1) == 1) by {
            reveal_with_fuel(digits::digit_count, 2);
        }
        laws::law_sum_commutes(v, t);
        laws::law_difference_is_sum(v, number::tenth());
        laws::law_adding_zero(t, v);
        rounding::lemma_normalized_in_format(sum);
        let r = rounding::normalized(sum);
        lemma_format_scale(r);
        assert(digits::pow10(0) == 1);
        if let DecimalView::Finite { coefficient: z, scale: u, .. } = r {
            lemma_zero_below(1, 1, u);
            lemma_nearest_ones(r, !m, 1, 1, 0);
        }
    }
}

/// Zero and infinity are their own roots, and a negative number has none.
pub proof fn law_root_of_the_rest(v: DecimalView)
    ensures
        v.is_zero() ==> arithmetic::raw_root(v).is_zero(),
        v is Infinite ==> arithmetic::raw_root(v) == v,
        v is Finite && !v.is_zero() && v.negative() ==> arithmetic::raw_root(v) is NotANumber,
        v is NotANumber ==> arithmetic::raw_root(v) is NotANumber,
{
    if v.is_zero() {
        laws::lemma_zero_stays(v);
    }
}

/// A value that is no finite number stands for the scale 0.
pub proof fn law_scale_of_no_number(w: DecimalView)
    requires
        !(w is Finite),
    ensures
        number::scale_argument(w) == 0,
{
}

} // verus!
