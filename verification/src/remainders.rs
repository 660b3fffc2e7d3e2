//! The remainder of a division, floored.

use crate::arithmetic;
use crate::backend;
use crate::decimal;
use crate::decimal::DecimalView;
use crate::digits;
use crate::laws;
use crate::number;
use crate::rounding;
use crate::scales;
use vstd::prelude::*;

verus! {

/// What is left of `a` after the whole multiples of `b` at or below it: it has the sign
/// of `b` and is smaller.
pub open spec fn floored_remainder(a: int, b: int) -> int {
    if b > 0 {
        a % b
    } else {
        -((-a) % (-b))
    }
}

/// The powers of ten that bound small integers and their products.
proof fn lemma_integer_bounds()
    ensures
        digits::pow10(33) == 1_000_000_000_000_000_000_000_000_000_000_000nat,
        digits::pow10(34) == 10 * digits::pow10(33),
        digits::pow10(68) == 10 * (digits::pow10(34) * digits::pow10(33)),
        digits::pow10(68) < decimal::coefficient_limit(),
{
    assert(digits::pow10(16) == 10_000_000_000_000_000) by {
        reveal_with_fuel(digits::pow10, 17);
    }
    digits::lemma_pow10_add(16, 16);
    assert(digits::pow10(33) == 10 * digits::pow10(32));
    assert(digits::pow10(34) == 10_000_000_000_000_000_000_000_000_000_000_000nat);
    digits::lemma_pow10_add(34, 33);
    assert(digits::pow10(68) == 10 * digits::pow10(67));
    digits::lemma_pow10_add(34, 34);
}

/// The places of a nearest quotient of small integers are few, and the quotient is
/// not zero.
proof fn lemma_quotient_places(c: nat, d: nat, e: nat, j: nat)
    requires
        0 < c < digits::pow10(33),
        0 < d < digits::pow10(33),
        arithmetic::nearest_quotient(c, d, e, j),
    ensures
        j <= 67,
        e > 0,
        e * d != c * digits::pow10(j) ==> digits::pow10(j) > d,
{
    let w = digits::pow10(j);
    lemma_integer_bounds();
    digits::lemma_pow10_monotonic(j, j);
    let high = digits::pow10(34);
    let small = digits::pow10(33);
    if j >= 68 {
        digits::lemma_pow10_monotonic(68, j);
        assert(e * d <= high * small && c * w >= w) by (nonlinear_arith)
            requires
                e <= high,
                d <= small,
                c >= 1,
                w >= 1,
        ;
        assert(high * small >= small) by (nonlinear_arith)
            requires
                high >= 1,
                small >= 1,
        ;
    }
    if e == 0 {
        assert(0 * d == 0) by (nonlinear_arith);
        assert(c * w > 0) by (nonlinear_arith)
            requires
                c > 0,
                w >= 1,
        ;
    }
    if e * d != c * w {
        if w <= d {
            assert(c * w <= (small - 1) * d && e * d >= small * d && (small - 1) * d == small * d
                - d) by (nonlinear_arith)
                requires
                    e >= small,
                    0 <= c <= small - 1,
                    0 <= w <= d,
            ;
        }
    }
}

/// The floor of a nearest quotient of small integers is the whole quotient, one less
/// below zero, unless nothing is left over.
proof fn lemma_floor_of_quotient(c: nat, d: nat, e: nat, j: nat)
    requires
        0 < c < digits::pow10(33),
        0 < d < digits::pow10(33),
        arithmetic::nearest_quotient(c, d, e, j),
    ensures
        c % d == 0 ==> e == (c / d) * digits::pow10(j),
        c % d != 0 ==> !backend::integral(e, j as int) && e / digits::pow10(j) == c / d,
{
    let w = digits::pow10(j) as int;
    let x = c as int / d as int;
    let y = c as int % d as int;
    let gap = e * d - c * w;
    lemma_quotient_places(c, d, e, j);
    digits::lemma_pow10_monotonic(j, j);
    vstd::arithmetic::div_mod::lemma_fundamental_div_mod(c as int, d as int);
    let over = e - x * w;
    assert(over * d == y * w + gap) by (nonlinear_arith)
        requires
            over == e - x * w,
            gap == e * d - c * w,
            c == d * x + y,
    ;
    if y == 0 {
        assert(over == 0) by (nonlinear_arith)
            requires
                over * d == y * w + gap,
                y == 0,
                -(d as int) <= 2 * gap <= d,
                d > 0,
        ;
    } else {
        assert(0 < over < w) by (nonlinear_arith)
            requires
                over * d == y * w + gap,
                0 < y < d,
                gap == 0 || w > d,
                -(d as int) <= 2 * gap <= d,
                d > 0,
                w >= 1,
        ;
        vstd::arithmetic::div_mod::lemma_fundamental_div_mod_converse(e as int, w, x, over);
        if j == 0 {
            assert(w == 1);
        }
    }
}

/// The floored remainder of two integers by their sizes and signs.
proof fn lemma_floored(m: bool, c: nat, n: bool, d: nat)
    requires
        d > 0,
    ensures
        ({
            let rest = floored_remainder(decimal::signed(m, c), decimal::signed(n, d));
            rest == decimal::signed(
                n,
                if c % d == 0 {
                    0
                } else if m == n {
                    c % d
                } else {
                    (d - c % d) as nat
                },
            )
        }),
{
    let x = c as int / d as int;
    let y = c as int % d as int;
    vstd::arithmetic::div_mod::lemma_fundamental_div_mod(c as int, d as int);
    if m != n {
        if y == 0 {
            assert(-(c as int) == (-x) * d) by (nonlinear_arith)
                requires
                    c == d * x,
            ;
            vstd::arithmetic::div_mod::lemma_fundamental_div_mod_converse(
                -(c as int),
                d as int,
                -x,
                0,
            );
        } else {
            assert(-(c as int) == (-x - 1) * d + (d - y)) by (nonlinear_arith)
                requires
                    c == d * x + y,
            ;
            vstd::arithmetic::div_mod::lemma_fundamental_div_mod_converse(
                -(c as int),
                d as int,
                -x - 1,
                d - y,
            );
        }
    }
}

/// Whether a finite value is `k * 10^-u` in size.
pub open spec fn in_units(v: DecimalView, k: nat, u: int) -> bool {
    v matches DecimalView::Finite { coefficient, scale, .. } && backend::finite_order(
        coefficient,
        scale,
        k,
        u,
    ) == 0
}

/// Whether two values are, in size, `x` and `y` times the same power of ten, both below
/// `10^33` and the second not zero.
pub open spec fn small_multiples(
    a: DecimalView,
    b: DecimalView,
    x: nat,
    y: nat,
    u: int,
) -> bool {
    &&& in_units(a, x, u)
    &&& in_units(b, y, u)
    &&& x < digits::pow10(33)
    &&& 0 < y < digits::pow10(33)
    &&& number::MIN_SCALE <= u <= number::MAX_SCALE
}

/// Whether a value is the floored remainder of two values that are `x` and `y` units in
/// size: the floored remainder of the two integers, in the same units.
pub open spec fn is_floored(
    a: DecimalView,
    b: DecimalView,
    r: DecimalView,
    x: nat,
    y: nat,
    u: int,
) -> bool {
    let rest = floored_remainder(
        decimal::signed(a.negative(), x),
        decimal::signed(b.negative(), y),
    );
    backend::same_number(
        r,
        DecimalView::Finite {
            negative: rest < 0,
            coefficient: vstd::math::abs(rest) as nat,
            scale: u,
        },
    )
}

/// A nearest quotient of two values is one of their sizes in units; where it has no
/// digits after the point it is exact.
proof fn lemma_quotient_of_units(
    c: nat,
    s: int,
    d: nat,
    t: int,
    x: nat,
    y: nat,
    u: int,
    e: nat,
    j: nat,
)
    requires
        d > 0,
        0 < x < digits::pow10(33),
        0 < y < digits::pow10(33),
        backend::finite_order(c, s, x, u) == 0,
        backend::finite_order(d, t, y, u) == 0,
        arithmetic::nearest_quotient(c, d, e, j),
    ensures
        s - t + j >= 0 ==> arithmetic::nearest_quotient(x, y, e, (s - t + j) as nat),
        s - t + j < 0 ==> e * d == c * digits::pow10(j) && x == (e * digits::pow10(
            (-(s - t + j)) as nat,
        )) * y,
{
    let w = vstd::math::max(s, vstd::math::max(t, u));
    let v = s - t + j;
    let pc = digits::pow10((w - s) as nat);
    let pd = digits::pow10((w - t) as nat);
    let pu = digits::pow10((w - u) as nat);
    let pj = digits::pow10(j);
    digits::lemma_pow10_monotonic((w - t) as nat, (w - t) as nat);
    digits::lemma_pow10_monotonic((w - u) as nat, (w - u) as nat);
    scales::lemma_order_at(c, s, x, u, w);
    scales::lemma_order_at(d, t, y, u, w);
    assert(c * pc == x * pu && d * pd == y * pu);
    let gap = e * d - c * pj;
    if v >= 0 {
        let pv = digits::pow10(v as nat);
        digits::lemma_pow10_add(v as nat, (w - s) as nat);
        digits::lemma_pow10_add(j, (w - t) as nat);
        assert(v as nat + (w - s) as nat == j + (w - t) as nat);
        let near = e * y - x * pv;
        assert(gap * pd == e * (d * pd) - c * (pj * pd)) by (nonlinear_arith)
            requires
                gap == e * d - c * pj,
        ;
        assert(c * (pv * pc) == pv * (c * pc)) by (nonlinear_arith);
        assert(near * pu == e * (y * pu) - pv * (x * pu)) by (nonlinear_arith)
            requires
                near == e * y - x * pv,
        ;
        lemma_same_ratio(gap, d as int, near, y as int, pd as int, pu as int);
    } else {
        let pv = digits::pow10((-v) as nat);
        digits::lemma_pow10_monotonic((-v) as nat, (-v) as nat);
        digits::lemma_pow10_add(j, (w - t) as nat);
        digits::lemma_pow10_add((-v) as nat, j + (w - t) as nat);
        assert((-v) as nat + (j + (w - t) as nat) == (w - s) as nat);
        assert(pc == pv * (pj * pd));
        if gap != 0 {
            lemma_integer_bounds();
            assert(2 * (c * pj) >= e * d) by (nonlinear_arith)
                requires
                    gap == e * d - c * pj,
                    2 * gap <= d,
                    e >= 1,
                    d > 0,
            ;
            // The value is at least ten times half the quotient.
            digits::lemma_pow10_monotonic(1, (-v) as nat);
            assert(digits::pow10(1) == 10 * digits::pow10(0));
            assert(digits::pow10(0) == 1);
            assert(2 * ((c * pj) * pd) >= (e * d) * pd && (e * d) * pd == e * (d * pd))
                by (nonlinear_arith)
                requires
                    2 * (c * pj) >= e * d,
                    pd >= 0,
            ;
            assert(2 * (c * pc) == pv * (2 * ((c * pj) * pd))) by (nonlinear_arith)
                requires
                    pc == pv * (pj * pd),
            ;
            assert(pv * (2 * ((c * pj) * pd)) >= 10 * (e * (y * pu))) by (nonlinear_arith)
                requires
                    2 * ((c * pj) * pd) >= e * (y * pu),
                    pv >= 10,
                    e * (y * pu) >= 0,
            ;
            assert(e * (y * pu) >= e * pu) by (nonlinear_arith)
                requires
                    y >= 1,
                    e >= 0,
                    pu >= 0,
            ;
            assert(2 * x >= 10 * e) by (nonlinear_arith)
                requires
                    2 * (x * pu) >= 10 * (e * pu),
                    pu >= 1,
            ;
        }
        assert(x == (e * pv) * y) by (nonlinear_arith)
            requires
                e * d == c * pj,
                c * pc == x * pu,
                d * pd == y * pu,
                pc == pv * (pj * pd),
                pu >= 1,
        ;
    }
}

/// Two pairs of numbers with the same ratio compare alike.
proof fn lemma_same_ratio(g: int, d: int, h: int, y: int, p: int, q: int)
    requires
        g * p == h * q,
        d * p == y * q,
        p >= 1,
        q >= 1,
    ensures
        2 * g <= d <==> 2 * h <= y,
        -d <= 2 * g <==> -y <= 2 * h,
        2 * g == d <==> 2 * h == y,
        2 * g == -d <==> 2 * h == -y,
        g == 0 <==> h == 0,
        20 * g <= d <==> 20 * h <= y,
{
    assert((2 * g <= d <==> 2 * h <= y) && (-d <= 2 * g <==> -y <= 2 * h)) by (nonlinear_arith)
        requires
            g * p == h * q,
            d * p == y * q,
            p >= 1,
            q >= 1,
    ;
    assert((2 * g == d <==> 2 * h == y) && (2 * g == -d <==> 2 * h == -y) && (g == 0 <==> h == 0))
        by (nonlinear_arith)
        requires
            g * p == h * q,
            d * p == y * q,
            p >= 1,
            q >= 1,
    ;
    assert(20 * g <= d <==> 20 * h <= y) by (nonlinear_arith)
        requires
            g * p == h * q,
            d * p == y * q,
            p >= 1,
            q >= 1,
    ;
}

/// A value of few units has few significant digits, and the leading exponent of the
/// units.
proof fn lemma_units(c: nat, s: int, k: nat, u: int)
    requires
        0 < k < digits::pow10(34),
        backend::finite_order(c, s, k, u) == 0,
    ensures
        c > 0,
        rounding::significant(c),
        decimal::adjusted_exponent(c, s) == decimal::adjusted_exponent(k, u),
{
    assert(digits::pow10(0) == 1);
    digits::lemma_digit_count_at_most(k, 34);
    if s < u {
        let p = digits::pow10((u - s) as nat);
        digits::lemma_pow10_monotonic((u - s) as nat, (u - s) as nat);
        assert(0 < c <= k) by (nonlinear_arith)
            requires
                c * p == k,
                k > 0,
                p >= 1,
        ;
        digits::lemma_digit_count_at_most(c, 34);
    } else if s > u {
        digits::lemma_digit_count_scale_up(k, (s - u) as nat);
        scales::lemma_padded_significant(k, (s - u) as nat);
    }
    scales::lemma_order_chain(c, s, k, u, c, s);
    scales::lemma_order_of_leading(c, s, k, u);
    scales::lemma_order_of_leading(k, u, c, s);
}

/// The difference of two values that are the same number is zero.
proof fn lemma_zero_difference(negative: bool, c: nat, s: int, d: nat, t: int)
    requires
        c > 0,
        d > 0,
        backend::finite_order(c, s, d, t) == 0,
    ensures
        rounding::normalized(
            arithmetic::difference_value(
                DecimalView::Finite { negative, coefficient: c, scale: s },
                DecimalView::Finite { negative, coefficient: d, scale: t },
            ),
        ).is_zero(),
{
    let a = DecimalView::Finite { negative, coefficient: c, scale: s };
    let b = DecimalView::Finite { negative: !negative, coefficient: d, scale: t };
    assert(digits::pow10(0) == 1);
    assert(c * 1 == c && d * 1 == d) by (nonlinear_arith);
    assert(backend::exact_sum(a, b).is_zero());
    if let DecimalView::Finite { scale, .. } = backend::exact_sum(a, b) {
        let past = (scale - backend::aligned_scale(a, b)) as nat;
        digits::lemma_pow10_monotonic(past, past);
        let unit = digits::pow10(past);
        assert(0nat / unit == 0) by (nonlinear_arith)
            requires
                unit >= 1,
        ;
        let rest = arithmetic::difference_value(
            a,
            DecimalView::Finite { negative, coefficient: d, scale: t },
        );
        assert(rest.is_zero());
        if let DecimalView::Finite { scale: v, .. } = rest {
            rounding::lemma_to_precision(0, v);
        }
    }
}

/// The difference of two numbers of few units is the difference of the units.
proof fn lemma_difference_of_units(
    m: bool,
    c: nat,
    s: int,
    d: nat,
    t: int,
    x: nat,
    y: nat,
    u: int,
)
    requires
        c > 0,
        d > 0,
        x != y,
        x < digits::pow10(34),
        y < digits::pow10(34),
        backend::finite_order(c, s, x, u) == 0,
        backend::finite_order(d, t, y, u) == 0,
        number::MIN_SCALE <= u <= number::MAX_SCALE,
        rounding::in_format(DecimalView::Finite { negative: m, coefficient: c, scale: s }),
        rounding::in_format(DecimalView::Finite { negative: m, coefficient: d, scale: t }),
        (DecimalView::Finite { negative: m, coefficient: c, scale: s }).representable(),
        (DecimalView::Finite { negative: m, coefficient: d, scale: t }).representable(),
    ensures
        backend::same_number(
            rounding::normalized(
                arithmetic::difference_value(
                    DecimalView::Finite { negative: m, coefficient: c, scale: s },
                    DecimalView::Finite { negative: m, coefficient: d, scale: t },
                ),
            ),
            DecimalView::Finite {
                negative: m == (x > y),
                coefficient: vstd::math::abs(x - y) as nat,
                scale: u,
            },
        ),
{
    let a = DecimalView::Finite { negative: m, coefficient: c, scale: s };
    let b = DecimalView::Finite { negative: !m, coefficient: d, scale: t };
    let top = if s < t {
        t
    } else {
        s
    };
    let w = vstd::math::max(top, u);
    let k = vstd::math::abs(x - y) as nat;
    let exact = backend::exact_sum(a, b);
    laws::law_sum_is_rounded_once(a, b);
    scales::lemma_order_at(c, s, x, u, w);
    scales::lemma_order_at(d, t, y, u, w);
    let pw = digits::pow10((w - top) as nat);
    let ps = digits::pow10((top - s) as nat);
    let pt = digits::pow10((top - t) as nat);
    let pu = digits::pow10((w - u) as nat);
    digits::lemma_pow10_add((top - s) as nat, (w - top) as nat);
    digits::lemma_pow10_add((top - t) as nat, (w - top) as nat);
    digits::lemma_pow10_monotonic((w - top) as nat, (w - top) as nat);
    digits::lemma_pow10_monotonic((w - u) as nat, (w - u) as nat);
    assert((top - s) as nat + (w - top) as nat == (w - s) as nat);
    assert((top - t) as nat + (w - top) as nat == (w - t) as nat);
    let gap = c * ps - d * pt;
    assert(gap * pw == (x - y) * pu) by (nonlinear_arith)
        requires
            c * (ps * pw) == x * pu,
            d * (pt * pw) == y * pu,
            gap == c * ps - d * pt,
    ;
    assert((gap > 0 <==> x > y) && gap != 0) by (nonlinear_arith)
        requires
            gap * pw == (x - y) * pu,
            x != y,
            pw >= 1,
            pu >= 1,
    ;
    let size = vstd::math::abs(gap) as nat;
    assert(exact == (DecimalView::Finite {
        negative: m == (x > y),
        coefficient: size,
        scale: top,
    }));
    assert(size * pw == k * pu) by (nonlinear_arith)
        requires
            gap * pw == (x - y) * pu,
            size == (if gap < 0 {
                -gap
            } else {
                gap
            }),
            k == (if x - y < 0 {
                -(x - y)
            } else {
                x - y
            }),
            (gap > 0 <==> x > y),
    ;
    scales::lemma_order_at(size, top, k, u, w);
    lemma_units(size, top, k, u);
    digits::lemma_digit_count_at_most(k, 34);
    digits::lemma_digit_count_bounds(k);
    scales::lemma_kept(m == (x > y), size, top);
    let v = DecimalView::Finite { negative: m == (x > y), coefficient: k, scale: u };
    laws::law_equality_is_equivalence(exact, v, v);
    laws::law_equality_is_equivalence(rounding::normalized(exact), exact, v);
    laws::law_equality_is_equivalence(
        rounding::normalized(arithmetic::sum_value(a, b)),
        rounding::normalized(exact),
        v,
    );
}

/// With an exact quotient that is an integer, nothing is left.
proof fn lemma_multiple(
    a: DecimalView,
    b: DecimalView,
    near: DecimalView,
    x: nat,
    u: int,
)
    requires
        a.representable(),
        b.representable(),
        rounding::in_format(a),
        rounding::in_format(b),
        near.representable(),
        rounding::in_format(near),
        0 < x < digits::pow10(33),
        in_units(a, x, u),
        number::MIN_SCALE <= u <= number::MAX_SCALE,
        match (b, near) {
            (
                DecimalView::Finite { negative: n, coefficient: d, scale: t },
                DecimalView::Finite { negative, coefficient: e, scale: g },
            ) => {
                &&& d > 0 && e > 0
                &&& negative == (a.negative() != n)
                &&& backend::integral(e, g)
                &&& backend::finite_order(d * e, t + g, x, u) == 0
            },
            _ => false,
        },
    ensures
        ({
            let back = rounding::normalized(
                arithmetic::product_value(b, arithmetic::floor_of(near)),
            );
            rounding::normalized(arithmetic::difference_value(a, back)).is_zero()
        }),
{
    if let DecimalView::Finite { negative: m, coefficient: c, scale: s } = a {
        if let DecimalView::Finite { negative: n, coefficient: d, scale: t } = b {
            if let DecimalView::Finite { coefficient: e, scale: g, .. } = near {
                laws::law_product_is_rounded_once(b, near);
                let p = d * e;
                let v = t + g;
                lemma_integer_bounds();
                digits::lemma_pow10_monotonic(33, 34);
                lemma_units(p, v, x, u);
                lemma_units(c, s, x, u);
                digits::lemma_digit_count_at_most(x, 33);
                digits::lemma_digit_count_bounds(x);
                scales::lemma_kept(m, p, v);
                if let DecimalView::Finite { coefficient: f, scale: w, .. } = rounding::normalized(
                    DecimalView::Finite { negative: m, coefficient: p, scale: v },
                ) {
                    scales::lemma_order_chain(f, w, p, v, x, u);
                    scales::lemma_order_chain(x, u, p, v, f, w);
                    scales::lemma_order_chain(p, v, x, u, f, w);
                    scales::lemma_order_chain(p, v, f, w, x, u);
                    scales::lemma_order_chain(c, s, x, u, f, w);
                    scales::lemma_order_chain(f, w, x, u, c, s);
                    scales::lemma_order_chain(x, u, c, s, f, w);
                    lemma_zero_difference(m, c, s, f, w);
                }
            }
        }
    }
}

/// What is left after a number of steps that is not zero.
proof fn lemma_after_steps(
    m: bool,
    c: nat,
    s: int,
    n: bool,
    d: nat,
    t: int,
    x: nat,
    y: nat,
    u: int,
    steps: nat,
)
    requires
        c > 0,
        d > 0,
        0 < steps,
        x < digits::pow10(33),
        0 < y < digits::pow10(33),
        steps * y < 2 * digits::pow10(33),
        steps * y != x,
        backend::finite_order(c, s, x, u) == 0,
        backend::finite_order(d, t, y, u) == 0,
        -20000 <= t <= 20000,
        number::MIN_SCALE <= u <= number::MAX_SCALE,
        rounding::in_format(DecimalView::Finite { negative: m, coefficient: c, scale: s }),
        (DecimalView::Finite { negative: m, coefficient: c, scale: s }).representable(),
        rounding::in_format(DecimalView::Finite { negative: n, coefficient: d, scale: t }),
        (DecimalView::Finite { negative: n, coefficient: d, scale: t }).representable(),
    ensures
        ({
            let a = DecimalView::Finite { negative: m, coefficient: c, scale: s };
            let b = DecimalView::Finite { negative: n, coefficient: d, scale: t };
            let whole = DecimalView::Finite { negative: m != n, coefficient: steps, scale: 0 };
            let back = rounding::normalized(arithmetic::product_value(b, whole));
            backend::same_number(
                rounding::normalized(arithmetic::difference_value(a, back)),
                DecimalView::Finite {
                    negative: m == (x > steps * y),
                    coefficient: vstd::math::abs(x - steps * y) as nat,
                    scale: u,
                },
            )
        }),
{
    let b = DecimalView::Finite { negative: n, coefficient: d, scale: t };
    let whole = DecimalView::Finite { negative: m != n, coefficient: steps, scale: 0 };
    let p = d * steps;
    let k = steps * y;
    let small = digits::pow10(33);
    lemma_integer_bounds();
    digits::lemma_pow10_monotonic(33, 34);
    assert(steps <= k && k > 0) by (nonlinear_arith)
        requires
            k == steps * y,
            y >= 1,
            steps > 0,
    ;
    let product = DecimalView::Finite { negative: m, coefficient: p, scale: t };
    rounding::lemma_precision_fits(steps);
    digits::lemma_digit_count_at_most(steps, 34);
    digits::lemma_digit_count_bounds(steps);
    laws::law_product_is_rounded_once(b, whole);
    assert(rounding::normalized(arithmetic::product_value(b, whole)) == rounding::normalized(
        product,
    ));
    lemma_steps(d, t, y, u, steps);
    lemma_units(p, t, k, u);
    digits::lemma_digit_count_at_most(k, 34);
    digits::lemma_digit_count_bounds(k);
    scales::lemma_kept(m, p, t);
    rounding::lemma_normalized_in_format(product);
    if let DecimalView::Finite { coefficient: f, scale: v, .. } = rounding::normalized(product) {
        rounding::lemma_precision_fits(f);
        digits::lemma_digit_count_bounds(f);
        scales::lemma_order_chain(f, v, p, t, k, u);
        scales::lemma_order_chain(k, u, p, t, f, v);
        scales::lemma_order_chain(p, t, k, u, f, v);
        scales::lemma_order_chain(p, t, f, v, k, u);
        scales::lemma_order_chain(f, v, k, u, p, t);
        lemma_difference_of_units(m, c, s, f, v, x, k, u);
    }
}

/// A multiple of a value is that multiple of its units.
pub proof fn lemma_steps(d: nat, t: int, y: nat, u: int, steps: nat)
    requires
        backend::finite_order(d, t, y, u) == 0,
    ensures
        backend::finite_order(d * steps, t, steps * y, u) == 0,
{
    let w = vstd::math::max(t, u);
    scales::lemma_order_at(d, t, y, u, w);
    scales::lemma_order_at(d * steps, t, steps * y, u, w);
    let p = digits::pow10((w - t) as nat);
    let q = digits::pow10((w - u) as nat);
    assert((d * steps) * p == (steps * y) * q) by (nonlinear_arith)
        requires
            d * p == y * q,
    ;
}

/// What is left of a value that is no multiple.
proof fn lemma_no_multiple(
    m: bool,
    c: nat,
    s: int,
    n: bool,
    d: nat,
    t: int,
    x: nat,
    y: nat,
    u: int,
    near: DecimalView,
)
    requires
        c > 0,
        d > 0,
        0 < x < digits::pow10(33),
        0 < y < digits::pow10(33),
        x % y != 0,
        backend::finite_order(c, s, x, u) == 0,
        backend::finite_order(d, t, y, u) == 0,
        -20000 <= t <= 20000,
        number::MIN_SCALE <= u <= number::MAX_SCALE,
        rounding::in_format(DecimalView::Finite { negative: m, coefficient: c, scale: s }),
        (DecimalView::Finite { negative: m, coefficient: c, scale: s }).representable(),
        rounding::in_format(DecimalView::Finite { negative: n, coefficient: d, scale: t }),
        (DecimalView::Finite { negative: n, coefficient: d, scale: t }).representable(),
        near matches DecimalView::Finite { negative, coefficient: e, scale: v } && negative == (m
            != n) && !backend::integral(e, v) && e / digits::pow10(v as nat) == x / y,
    ensures
        ({
            let a = DecimalView::Finite { negative: m, coefficient: c, scale: s };
            let b = DecimalView::Finite { negative: n, coefficient: d, scale: t };
            let back = rounding::normalized(
                arithmetic::product_value(b, arithmetic::floor_of(near)),
            );
            is_floored(
                a,
                b,
                rounding::normalized(arithmetic::difference_value(a, back)),
                x,
                y,
                u,
            )
        }),
{
    let a = DecimalView::Finite { negative: m, coefficient: c, scale: s };
    let b = DecimalView::Finite { negative: n, coefficient: d, scale: t };
    let q = x / y;
    let rest = x % y;
    vstd::arithmetic::div_mod::lemma_fundamental_div_mod(x as int, y as int);
    assert(q >= 0) by (nonlinear_arith)
        requires
            q == x / y,
            y > 0,
    ;
    let steps: nat = if m != n {
        q + 1
    } else {
        q
    };
    let whole = DecimalView::Finite { negative: m != n, coefficient: steps, scale: 0 };
    assert(arithmetic::floor_of(near) == whole);
    lemma_floored(m, x, n, y);
    assert(q * y == y * q && (q + 1) * y == y * q + y) by (nonlinear_arith);
    if steps > 0 {
        lemma_after_steps(m, c, s, n, d, t, x, y, u, steps);
    } else {
        assert(y * 0 == 0 && d * 0 == 0) by (nonlinear_arith);
        assert(rest == x);
        let zero = arithmetic::product_value(b, whole);
        assert(zero.is_zero());
        if let DecimalView::Finite { scale, .. } = zero {
            rounding::lemma_to_precision(0, scale);
        }
        let back = rounding::normalized(zero);
        assert(back.is_zero());
        laws::law_adding_zero(a, back.negated());
        let r = rounding::normalized(arithmetic::difference_value(a, back));
        assert(arithmetic::difference_value(a, back) == arithmetic::sum_value(a, back.negated()));
        let v = DecimalView::Finite { negative: m, coefficient: x, scale: u };
        laws::law_equality_is_equivalence(r, a, v);
    }
}

/// The remainder of two values of few units is floored.
pub proof fn lemma_small_remainder(
    a: DecimalView,
    b: DecimalView,
    q: DecimalView,
    x: nat,
    y: nat,
    u: int,
)
    requires
        small_multiples(a, b, x, y, u),
        rounding::in_format(a),
        rounding::in_format(b),
        a.representable(),
        b.representable(),
        rounding::normalized(q) == rounding::normalized(arithmetic::quotient_value(a, b)),
        !(a.is_zero() && b.is_zero()) ==> arithmetic::quotient_found(a, b, q),
    ensures
        is_floored(a, b, arithmetic::remainder_by(a, b, q), x, y, u),
{
    lemma_integer_bounds();
    digits::lemma_pow10_monotonic(33, 34);
    if let DecimalView::Finite { negative: m, coefficient: c, scale: s } = a {
        if let DecimalView::Finite { negative: n, coefficient: d, scale: t } = b {
            lemma_units(d, t, y, u);
            if x == 0 {
                lemma_nothing(a, b, q, x, y, u);
            } else {
                lemma_units(c, s, x, u);
                arithmetic::lemma_quotient_rounded(a, b, q);
                let (f, v) = rounding::to_precision(c, s);
                let (h, w) = rounding::to_precision(d, t);
                let (e, j) = choose|e: nat, j: nat| #[trigger]
                    arithmetic::nearest_quotient(f, h, e, j) && rounding::normalized(q)
                        == rounding::fitted(m != n, e, v - w + j);
                lemma_given_quotient(a, b, q, x, y, u, e, j);
            }
        }
    }
}

/// The remainder of a zero is zero.
proof fn lemma_nothing(a: DecimalView, b: DecimalView, q: DecimalView, x: nat, y: nat, u: int)
    requires
        small_multiples(a, b, x, y, u),
        x == 0,
        !b.is_zero(),
        rounding::in_format(b),
        rounding::normalized(q) == rounding::normalized(arithmetic::quotient_value(a, b)),
    ensures
        is_floored(a, b, arithmetic::remainder_by(a, b, q), x, y, u),
{
    if let DecimalView::Finite { negative: m, coefficient: c, scale: s } = a {
        if let DecimalView::Finite { negative: n, coefficient: d, scale: t } = b {
            let w = vstd::math::max(s, u);
            scales::lemma_order_at(c, s, 0, u, w);
            digits::lemma_pow10_monotonic((w - s) as nat, (w - s) as nat);
            let p = digits::pow10((w - s) as nat);
            let z = digits::pow10((w - u) as nat);
            assert(c == 0) by (nonlinear_arith)
                requires
                    c * p == 0 * z,
                    p >= 1,
            ;
            lemma_floored(m, 0, n, y);
            assert(0nat % y == 0) by (nonlinear_arith)
                requires
                    y > 0,
            ;
            rounding::lemma_to_precision(0, s);
            let near = rounding::normalized(q);
            assert(near.is_zero());
            if let DecimalView::Finite { scale: v, .. } = near {
                if v > 0 {
                    digits::lemma_pow10_monotonic(v as nat, v as nat);
                    let unit = digits::pow10(v as nat);
                    assert(0nat % unit == 0) by (nonlinear_arith)
                        requires
                            unit >= 1,
                    ;
                }
            }
            assert(arithmetic::floor_of(near) == near);
            assert(d * 0 == 0) by (nonlinear_arith);
            let product = arithmetic::product_value(b, near);
            assert(product.is_zero());
            if let DecimalView::Finite { scale: v, .. } = product {
                rounding::lemma_to_precision(0, v);
            }
            let rest = arithmetic::difference_value(a, rounding::normalized(product));
            assert(rest.is_zero());
            if let DecimalView::Finite { scale: v, .. } = rest {
                rounding::lemma_to_precision(0, v);
            }
        }
    }
}

/// With a nearest quotient, the remainder of two values of few units is floored.
proof fn lemma_given_quotient(
    a: DecimalView,
    b: DecimalView,
    q: DecimalView,
    x: nat,
    y: nat,
    u: int,
    e: nat,
    j: nat,
)
    requires
        small_multiples(a, b, x, y, u),
        x > 0,
        rounding::in_format(a),
        rounding::in_format(b),
        a.representable(),
        b.representable(),
        match (a, b) {
            (
                DecimalView::Finite { negative: m, coefficient: c, scale: s },
                DecimalView::Finite { negative: n, coefficient: d, scale: t },
            ) => {
                let (f, v) = rounding::to_precision(c, s);
                let (h, w) = rounding::to_precision(d, t);
                &&& c > 0 && d > 0
                &&& arithmetic::nearest_quotient(f, h, e, j)
                &&& rounding::normalized(q) == rounding::fitted(m != n, e, v - w + j)
            },
            _ => false,
        },
    ensures
        is_floored(a, b, arithmetic::remainder_by(a, b, q), x, y, u),
{
    if let DecimalView::Finite { negative: m, coefficient: c, scale: s } = a {
        if let DecimalView::Finite { negative: n, coefficient: d, scale: t } = b {
            let (f, v) = rounding::to_precision(c, s);
            let (h, w) = rounding::to_precision(d, t);
            let g = v - w + j;
            let near = DecimalView::Finite { negative: m != n, coefficient: e, scale: g };
            lemma_integer_bounds();
            rounding::lemma_coefficient_digits(d);
            digits::lemma_digit_count_bounds(d);
            scales::lemma_surplus_zeros(c, s);
            scales::lemma_surplus_zeros(d, t);
            scales::lemma_order_chain(f, v, c, s, x, u);
            scales::lemma_order_chain(h, w, d, t, y, u);
            rounding::lemma_to_precision(d, t);
            lemma_quotient_of_units(f, v, h, w, x, y, u, e, j);
            lemma_floored(m, x, n, y);
            if g >= 0 {
                let k = g as nat;
                lemma_quotient_places(x, y, e, k);
                lemma_floor_of_quotient(x, y, e, k);
                digits::lemma_digit_count_bounds(e);
                digits::lemma_digit_count_at_most(e, 34);
                rounding::lemma_precision_fits(e);
                assert(rounding::normalized(q) == near);
                if x % y == 0 {
                    let whole = x / y;
                    vstd::arithmetic::div_mod::lemma_fundamental_div_mod(x as int, y as int);
                    assert(whole >= 0 && whole * y == x) by (nonlinear_arith)
                        requires
                            whole == x / y,
                            x == y * whole,
                            y > 0,
                    ;
                    lemma_whole_steps(d, t, x, y, u, e, whole, k);
                    lemma_multiple(a, b, near, x, u);
                } else {
                    lemma_no_multiple(m, c, s, n, d, t, x, y, u, near);
                }
            } else {
                let k = (-g) as nat;
                let p = digits::pow10(k);
                let whole = e * p;
                digits::lemma_pow10_monotonic(k, k);
                vstd::arithmetic::div_mod::lemma_fundamental_div_mod_converse(
                    x as int,
                    y as int,
                    whole as int,
                    0,
                );
                assert(0 < e && p <= x) by (nonlinear_arith)
                    requires
                        x == (e * p) * y,
                        x > 0,
                        y > 0,
                        p >= 1,
                ;
                if k > 33 {
                    digits::lemma_pow10_monotonic(33, k);
                }
                digits::lemma_digit_count_bounds(e);
                digits::lemma_digit_count_at_most(e, 34);
                rounding::lemma_precision_fits(e);
                assert(rounding::normalized(q) == near);
                lemma_steps(d, t, y, u, whole);
                scales::lemma_padded_order(d * e, t + g, k);
                assert(d * (e * p) == (d * e) * p) by (nonlinear_arith);
                assert(t + g + k == t);
                scales::lemma_order_chain(d * e, t + g, d * whole, t, x, u);
                lemma_multiple(a, b, near, x, u);
            }
        }
    }
}

/// A whole number of steps, written with zeros after the point, is as far as the steps.
proof fn lemma_whole_steps(
    d: nat,
    t: int,
    x: nat,
    y: nat,
    u: int,
    e: nat,
    whole: nat,
    k: nat,
)
    requires
        backend::finite_order(d, t, y, u) == 0,
        whole * y == x,
        e == whole * digits::pow10(k),
    ensures
        backend::finite_order(d * e, t + k, x, u) == 0,
        backend::integral(e, k as int),
{
    let p = digits::pow10(k);
    digits::lemma_pow10_monotonic(k, k);
    lemma_steps(d, t, y, u, whole);
    scales::lemma_padded_order(d * whole, t, k);
    assert(d * (whole * p) == (d * whole) * p) by (nonlinear_arith);
    scales::lemma_order_chain(d * e, t + k, d * whole, t, x, u);
    rounding::lemma_quotient(whole, p, 0);
}

} // verus!
