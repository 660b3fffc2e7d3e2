//! Magnitudes written at different scales.

use crate::arithmetic;
use crate::backend;
use crate::decimal;
use crate::decimal::DecimalView;
use crate::digits;
use crate::rounding;
use vstd::prelude::*;

verus! {

/// The sign of an integer.
pub open spec fn sign_of(n: int) -> int {
    if n < 0 {
        -1
    } else if n == 0 {
        0
    } else {
        1
    }
}

/// Two finite magnitudes can be compared at any scale that both can be brought to.
pub proof fn lemma_order_at(a: nat, s: int, b: nat, t: int, u: int)
    requires
        s <= u,
        t <= u,
    ensures
        backend::finite_order(a, s, b, t) == sign_of(
            a * digits::pow10((u - s) as nat) - b * digits::pow10((u - t) as nat),
        ),
{
    let m = if s < t {
        t
    } else {
        s
    };
    let x = a * digits::pow10((m - s) as nat);
    let y = b * digits::pow10((m - t) as nat);
    let p = digits::pow10((u - m) as nat);
    assert(digits::pow10(0) == 1);
    assert(a * 1 == a && b * 1 == b) by (nonlinear_arith);
    digits::lemma_pow10_add((m - s) as nat, (u - m) as nat);
    digits::lemma_pow10_add((m - t) as nat, (u - m) as nat);
    digits::lemma_pow10_monotonic((u - m) as nat, (u - m) as nat);
    assert((m - s) as nat + (u - m) as nat == (u - s) as nat);
    assert((m - t) as nat + (u - m) as nat == (u - t) as nat);
    let ps = digits::pow10((m - s) as nat);
    let pt = digits::pow10((m - t) as nat);
    assert(a * (ps * p) == x * p && b * (pt * p) == y * p) by (nonlinear_arith)
        requires
            x == a * ps,
            y == b * pt,
    ;
    assert(sign_of(x * p - y * p) == sign_of(x - y)) by (nonlinear_arith)
        requires
            p >= 1,
    ;
}

/// Zeros appended to a coefficient, and the scale raised with them, are the same
/// magnitude.
pub proof fn lemma_padded_order(c: nat, s: int, k: nat)
    ensures
        backend::finite_order(c * digits::pow10(k), s + k, c, s) == 0,
        backend::finite_order(c, s, c * digits::pow10(k), s + k) == 0,
{
    assert(digits::pow10(0) == 1);
    assert((s + k - s) as nat == k);
    if k == 0 {
        assert(c * 1 == c) by (nonlinear_arith);
    }
}

/// Of two magnitudes the larger has no smaller leading exponent.
pub proof fn lemma_order_of_leading(a: nat, s: int, b: nat, t: int)
    requires
        a > 0,
        b > 0,
        backend::finite_order(a, s, b, t) >= 0,
    ensures
        decimal::adjusted_exponent(a, s) >= decimal::adjusted_exponent(b, t),
{
    if s < t {
        digits::lemma_digit_count_scale_up(a, (t - s) as nat);
        lemma_more_digits(a * digits::pow10((t - s) as nat), b);
    } else if t < s {
        digits::lemma_digit_count_scale_up(b, (s - t) as nat);
        lemma_more_digits(a, b * digits::pow10((s - t) as nat));
    } else {
        lemma_more_digits(a, b);
    }
}

/// A larger number has no fewer digits.
pub proof fn lemma_more_digits(a: nat, b: nat)
    requires
        a >= b,
    ensures
        digits::digit_count(a) >= digits::digit_count(b),
{
    digits::lemma_digit_count_bounds(a);
    digits::lemma_digit_count_at_most(b, digits::digit_count(a));
}

/// Magnitudes at their scales are ordered transitively, and equal ones replace each
/// other.
pub proof fn lemma_order_chain(a: nat, s: int, b: nat, t: int, c: nat, u: int)
    ensures
        backend::finite_order(a, s, b, t) <= 0 && backend::finite_order(b, t, c, u) <= 0
            ==> backend::finite_order(a, s, c, u) <= 0,
        backend::finite_order(a, s, b, t) >= 0 && backend::finite_order(b, t, c, u) >= 0
            ==> backend::finite_order(a, s, c, u) >= 0,
        backend::finite_order(a, s, b, t) == -backend::finite_order(b, t, a, s),
{
    let w = vstd::math::max(s, vstd::math::max(t, u));
    lemma_order_at(a, s, b, t, w);
    lemma_order_at(b, t, a, s, w);
    lemma_order_at(b, t, c, u, w);
    lemma_order_at(a, s, c, u, w);
}

/// Rounding to 34 digits and fitting into the format keep a magnitude of at most 34
/// significant digits whose leading exponent is in range.
pub proof fn lemma_kept(negative: bool, c: nat, s: int)
    requires
        c > 0,
        rounding::significant(c),
        rounding::MIN_ADJUSTED_EXPONENT <= decimal::adjusted_exponent(c, s)
            <= rounding::MAX_ADJUSTED_EXPONENT,
    ensures
        rounding::normalized(
            DecimalView::Finite { negative, coefficient: c, scale: s },
        ) matches DecimalView::Finite { negative: m, coefficient: d, scale: t } && m == negative
            && d > 0 && backend::finite_order(d, t, c, s) == 0,
{
    let (q, t) = rounding::to_precision(c, s);
    lemma_surplus_zeros(c, s);
    rounding::lemma_to_precision(c, s);
    if t < -rounding::MAX_STORED_EXPONENT {
        let k = (-rounding::MAX_STORED_EXPONENT - t) as nat;
        rounding::lemma_padding(q, t);
        lemma_padded_order(q, t, k);
        lemma_order_chain(q * digits::pow10(k), t + k, q, t, c, s);
    }
}

/// Rounding to 34 digits keeps a coefficient with at most 34 significant digits.
pub proof fn lemma_surplus_zeros(c: nat, s: int)
    requires
        c > 0,
        rounding::significant(c),
    ensures
        ({
            let (q, t) = rounding::to_precision(c, s);
            &&& backend::finite_order(q, t, c, s) == 0
            &&& decimal::adjusted_exponent(q, t) == decimal::adjusted_exponent(c, s)
            &&& t <= s
            &&& q * digits::pow10((s - t) as nat) == c
        }),
{
    let n = digits::digit_count(c);
    assert(digits::pow10(0) == 1);
    assert(c * 1 == c) by (nonlinear_arith);
    if n > rounding::PRECISION {
        let k = (n - rounding::PRECISION) as nat;
        let unit = digits::pow10(k);
        let q = c / unit;
        digits::lemma_pow10_monotonic(k, k);
        vstd::arithmetic::div_mod::lemma_fundamental_div_mod(c as int, unit as int);
        assert(unit * q == q * unit) by (nonlinear_arith);
        digits::lemma_digit_count_scale_down(c, k);
        assert(rounding::half_even_quotient(c, k) == q);
        assert(q >= 0) by (nonlinear_arith)
            requires
                q == c / unit,
                unit >= 1,
        ;
        digits::lemma_digit_count_at_most(q, 34);
        assert(rounding::to_precision(c, s) == (q, s - k));
        assert((s - (s - k)) as nat == k);
        lemma_padded_order(q, s - k, k);
    }
}

/// What is left of a product when it fits in a coefficient, and the last digit before
/// it did not.
pub proof fn lemma_spill(p: nat)
    ensures
        p / digits::pow10(backend::spill(p)) < decimal::coefficient_limit(),
        backend::spill(p) > 0 ==> 10 * (p / digits::pow10(backend::spill(p))) + 9
            >= decimal::coefficient_limit(),
        backend::spill(p) > 0 ==> p >= decimal::coefficient_limit() * digits::pow10(
            (backend::spill(p) - 1) as nat,
        ),
    decreases p,
{
    assert(digits::pow10(0) == 1);
    if p >= decimal::coefficient_limit() {
        let z = backend::spill(p / 10);
        let unit = digits::pow10(z);
        lemma_spill(p / 10);
        digits::lemma_pow10_monotonic(z, z);
        assert(digits::pow10(z + 1) == 10 * unit);
        vstd::arithmetic::div_mod::lemma_div_denominator(p as int, 10, unit as int);
        if z > 0 {
            let low = digits::pow10((z - 1) as nat);
            assert(unit == 10 * low);
            assert(p >= decimal::coefficient_limit() * unit) by (nonlinear_arith)
                requires
                    p >= 10 * (p / 10),
                    p / 10 >= decimal::coefficient_limit() * low,
                    unit == 10 * low,
            ;
        } else {
            assert(decimal::coefficient_limit() * 1 == decimal::coefficient_limit())
                by (nonlinear_arith);
            assert((p / 10) / 1 == p / 10) by (nonlinear_arith);
        }
    }
}

/// Zeros at the end of a coefficient that has enough digits without them do not change
/// what it is rounded to.
pub proof fn lemma_trailing_zeros(c: nat, s: int, z: nat)
    requires
        digits::digit_count(c) >= rounding::PRECISION,
    ensures
        rounding::to_precision(c * digits::pow10(z), s + z) == rounding::to_precision(c, s),
{
    let k = (digits::digit_count(c) - rounding::PRECISION) as nat;
    let unit = digits::pow10(k);
    let pad = digits::pow10(z);
    digits::lemma_digit_count_bounds(c);
    digits::lemma_digit_count_bounds(0);
    digits::lemma_digit_count_scale_up(c, z);
    digits::lemma_pow10_add(k, z);
    digits::lemma_pow10_monotonic(k, k);
    digits::lemma_pow10_monotonic(z, z);
    assert(digits::pow10(0) == 1);
    let q = c / unit;
    let r = c % unit;
    vstd::arithmetic::div_mod::lemma_fundamental_div_mod(c as int, unit as int);
    assert(q >= 0 && 0 <= r < unit) by (nonlinear_arith)
        requires
            q == c / unit,
            r == c % unit,
            unit >= 1,
    ;
    assert(c * pad == q * (unit * pad) + r * pad && 0 <= r * pad < unit * pad) by (nonlinear_arith)
        requires
            c == unit * q + r,
            0 <= r < unit,
            pad >= 1,
    ;
    vstd::arithmetic::div_mod::lemma_fundamental_div_mod_converse(
        (c * pad) as int,
        (unit * pad) as int,
        q as int,
        (r * pad) as int,
    );
    assert((2 * (r * pad) > unit * pad <==> 2 * r > unit) && (2 * (r * pad) == unit * pad <==> 2 * r
        == unit)) by (nonlinear_arith)
        requires
            pad >= 1,
    ;
    assert(rounding::half_even_quotient(c * pad, k + z) == rounding::half_even_quotient(c, k));
    let surplus = digits::digit_count(c * pad) - rounding::PRECISION;
    assert(surplus == k + z);
    if k == 0 {
        digits::lemma_digit_count_at_most(c, 34);
        assert(c / 1 == c && c % 1 == 0 && c * 1 == c) by (nonlinear_arith);
        assert(rounding::half_even_quotient(c, k) == c);
    }
}

/// Moving a value by a power of ten moves its magnitude and nothing else, as long as
/// its leading exponent stays in range.
pub proof fn lemma_moved(negative: bool, c: nat, s: int, n: int)
    requires
        c > 0,
        rounding::significant(c),
        i16::MIN <= s - n <= i16::MAX,
        rounding::MIN_ADJUSTED_EXPONENT <= decimal::adjusted_exponent(c, s) + n
            <= rounding::MAX_ADJUSTED_EXPONENT,
    ensures
        rounding::normalized(
            arithmetic::shifted(DecimalView::Finite { negative, coefficient: c, scale: s }, n),
        ) matches DecimalView::Finite { negative: m, coefficient: d, scale: t } && m == negative
            && d > 0 && backend::finite_order(d, t, c, s - n) == 0,
{
    lemma_kept(negative, c, s - n);
}

/// A coefficient within a twentieth of the last place of a number of 34 digits is
/// rounded to that number.
pub proof fn lemma_rounds_to(q: nat, m: nat, y: nat, s: int)
    requires
        digits::pow10(33) <= q < digits::pow10(34),
        m >= 2,
        -digits::pow10(m) < 20 * (y - q * digits::pow10(m)) < digits::pow10(m),
    ensures
        rounding::to_precision(y, s) == (q, s - m),
{
    let unit = digits::pow10(m);
    let low = digits::pow10(33);
    let high = digits::pow10(34);
    digits::lemma_pow10_monotonic(m, m);
    digits::lemma_pow10_add(33, m);
    digits::lemma_pow10_add(34, m);
    assert(digits::pow10(34) == 10 * digits::pow10(33));
    let gap = y - q * unit;
    assert(low * unit <= q * unit && (q + 1) * unit <= high * unit && (q + 1) * unit == q * unit
        + unit && (q - 1) * unit == q * unit - unit) by (nonlinear_arith)
        requires
            low <= q,
            q + 1 <= high,
            unit >= 1,
    ;
    if gap >= 0 {
        digits::lemma_digit_count_is(y, 34 + m);
        vstd::arithmetic::div_mod::lemma_fundamental_div_mod_converse(
            y as int,
            unit as int,
            q as int,
            gap,
        );
    } else if q > low {
        assert((q - 1) * unit >= low * unit) by (nonlinear_arith)
            requires
                q - 1 >= low,
                unit >= 1,
        ;
        digits::lemma_digit_count_is(y, 34 + m);
        vstd::arithmetic::div_mod::lemma_fundamental_div_mod_converse(
            y as int,
            unit as int,
            q - 1,
            gap + unit,
        );
    } else {
        let k = (m - 1) as nat;
        let tenth = digits::pow10(k);
        assert(unit == 10 * tenth);
        digits::lemma_pow10_monotonic(k, k);
        digits::lemma_pow10_add(33, k);
        digits::lemma_pow10_add(34, k);
        assert(q * unit == high * tenth && (high - 1) * tenth == high * tenth - tenth && high
            * tenth == 10 * (low * tenth)) by (nonlinear_arith)
            requires
                q == low,
                high == 10 * low,
                unit == 10 * tenth,
        ;
        assert(low * tenth >= tenth) by (nonlinear_arith)
            requires
                low >= 1,
                tenth >= 1,
        ;
        assert((33 + m) as nat == 34 + k);
        assert(33 + k == (33 + m - 1) as nat);
        digits::lemma_digit_count_is(y, 33 + m);
        vstd::arithmetic::div_mod::lemma_fundamental_div_mod_converse(
            y as int,
            tenth as int,
            high - 1,
            gap + tenth,
        );
    }
}

/// The powers of ten that the bounds on long sums use.
proof fn lemma_long_powers(w: nat)
    ensures
        digits::pow10(1) == 10,
        digits::pow10(8) == 100_000_000,
        digits::pow10(34) == 10_000_000_000_000_000_000_000_000_000_000_000nat,
        digits::pow10(42) == 100_000_000 * digits::pow10(34),
        10 * digits::pow10(76) <= decimal::coefficient_limit(),
        digits::pow10(34 + w) == digits::pow10(34) * digits::pow10(w),
        digits::pow10(w + 1) == 10 * digits::pow10(w),
        digits::pow10(w) >= 1,
        digits::pow10(34) < digits::pow10(75),
{
    assert(digits::pow10(17) == 100_000_000_000_000_000nat) by {
        reveal_with_fuel(digits::pow10, 18);
    }
    assert(digits::pow10(8) == 100_000_000nat) by {
        reveal_with_fuel(digits::pow10, 9);
    }
    assert(digits::pow10(1) == 10 * digits::pow10(0));
    digits::lemma_pow10_add(17, 17);
    assert(digits::pow10(34) == 10_000_000_000_000_000_000_000_000_000_000_000nat);
    digits::lemma_pow10_add(34, 34);
    digits::lemma_pow10_add(68, 8);
    digits::lemma_pow10_add(34, 8);
    digits::lemma_pow10_add(34, w);
    digits::lemma_pow10_monotonic(w, w);
    digits::lemma_pow10_monotonic(34, 75);
    digits::lemma_pow10_monotonic(34, 74);
    assert(digits::pow10(75) == 10 * digits::pow10(74));
}

/// A long sum, whose operand with the larger scale is far below the last place of the
/// other, and a value near it are rounded alike.
proof fn lemma_long_sum(x: nat, w: nat, d: nat, t: int, size: nat, e: nat, u: int)
    requires
        digits::pow10(76) <= x,
        rounding::significant(x),
        d < digits::pow10(34 + w),
        -d <= size - x * digits::pow10(w) <= d,
        u == t - w || u == t - w - 1,
        -20 * digits::pow10(w) <= e * digits::pow10((t - u) as nat) - size <= 20 * digits::pow10(w),
    ensures
        rounding::to_precision(e, u) == rounding::to_precision(size, t),
{
    let (q, v) = rounding::to_precision(x, 0);
    let n = digits::digit_count(x);
    digits::lemma_digit_count_at_most(x, 76);
    let m = (n - rounding::PRECISION) as nat;
    digits::lemma_pow10_monotonic(0, 76);
    lemma_surplus_zeros(x, 0);
    rounding::lemma_to_precision(x, 0);
    digits::lemma_digit_count_bounds(q);
    assert(v == -m);
    assert(q * digits::pow10(m) == x) by {
        assert((0 - v) as nat == m);
    }
    lemma_long_powers(w);
    digits::lemma_pow10_monotonic(42, (m - 1) as nat);
    let unit = digits::pow10(w);
    let p = digits::pow10(m);
    let small = digits::pow10((m - 1) as nat);
    assert(p == 10 * small);
    digits::lemma_pow10_add(m, w);
    assert(x * unit == q * (p * unit)) by (nonlinear_arith)
        requires
            x == q * p,
    ;
    let wide = digits::pow10(34);
    assert(20 * d < p * unit) by (nonlinear_arith)
        requires
            d < wide * unit,
            p >= 20 * wide,
            unit >= 1,
    ;
    lemma_rounds_to(q, m + w, size, t);
    if u == t - w {
        assert((t - u) as nat == w);
        assert(-p < 20 * (e - q * p) < p) by (nonlinear_arith)
            requires
                -20 * unit <= e * unit - size <= 20 * unit,
                -(wide * unit) < size - (q * p) * unit < wide * unit,
                p >= 400 + 20 * wide,
                unit >= 1,
        ;
        lemma_rounds_to(q, m, e, u);
    } else {
        assert((t - u) as nat == w + 1);
        assert(e * (10 * unit) == (10 * e) * unit && (q * p) * unit == (10 * (q * small)) * unit)
            by (nonlinear_arith)
            requires
                p == 10 * small,
        ;
        assert(-2 * small < 20 * (10 * e - 10 * (q * small)) < 2 * small) by (nonlinear_arith)
            requires
                -20 * unit <= (10 * e) * unit - size <= 20 * unit,
                -(wide * unit) < size - (10 * (q * small)) * unit < wide * unit,
                2 * small >= 400 + 20 * wide,
                unit >= 1,
        ;
        lemma_rounds_to(q, (m - 1) as nat, e, u);
    }
}

/// A coefficient with at most 34 significant digits that does not end in enough zeros
/// is short.
proof fn lemma_short(d: nat, w: nat)
    requires
        rounding::significant(d),
        d % digits::pow10(w + 1) != 0,
    ensures
        d < digits::pow10(34 + w),
{
    let n = digits::digit_count(d);
    if n > rounding::PRECISION + w {
        let j = (n - rounding::PRECISION - w - 1) as nat;
        assert(w + 1 + j == (n - rounding::PRECISION) as nat);
        arithmetic::lemma_divisible_split(d, w + 1, j);
    }
    digits::lemma_digit_count_at_most(d, 34 + w);
}

/// Where a sum is not exact, the operand with the smaller scale is long and the other
/// one short of its last place, or the other way round at equal scales.
proof fn lemma_inexact(m: bool, c: nat, s: int, n: bool, d: nat, t: int)
    requires
        s <= t,
        t <= 20000,
        s >= -20000,
        0 < c < decimal::coefficient_limit(),
        0 < d < decimal::coefficient_limit(),
        rounding::significant(c),
        rounding::significant(d),
        backend::finite_sum(
            DecimalView::Finite { negative: m, coefficient: c, scale: s },
            DecimalView::Finite { negative: n, coefficient: d, scale: t },
        ) is None || backend::finite_sum(
            DecimalView::Finite { negative: n, coefficient: d, scale: t },
            DecimalView::Finite { negative: m, coefficient: c, scale: s },
        ) is None,
    ensures
        ({
            let met = if t - s <= backend::room(c) {
                t
            } else {
                s + backend::room(c)
            };
            let w = (t - met) as nat;
            let x = c * digits::pow10((met - s) as nat);
            &&& w >= 0 && met >= s
            &&& c * digits::pow10((t - s) as nat) == x * digits::pow10(w)
            &&& rounding::significant(x)
            &&& (digits::pow10(76) <= x && d < digits::pow10(34 + w)) || (s == t && digits::pow10(
                76,
            ) <= d && c < digits::pow10(34) && x == c)
        }),
{
    let a = DecimalView::Finite { negative: m, coefficient: c, scale: s };
    let b = DecimalView::Finite { negative: n, coefficient: d, scale: t };
    let limit = decimal::coefficient_limit();
    let met = if t - s <= backend::room(c) {
        t
    } else {
        s + backend::room(c)
    };
    let w = (t - met) as nat;
    let k = (met - s) as nat;
    let pk = digits::pow10(k);
    let unit = digits::pow10(w);
    let x = c * pk;
    rounding::lemma_room_bound(c);
    rounding::lemma_room_bound(d);
    assert(digits::pow10(0) == 1);
    assert(d * 1 == d && c * 1 == c && x * 1 == x) by (nonlinear_arith);
    digits::lemma_pow10_add(k, w);
    assert(k + w == (t - s) as nat);
    assert(c * (pk * unit) == x * unit) by (nonlinear_arith)
        requires
            x == c * pk,
    ;
    lemma_padded_significant(c, k);
    lemma_long_powers(w);
    let total = decimal::signed(m, x * unit) + decimal::signed(n, d);
    let size = vstd::math::abs(total) as nat;
    assert(backend::exact_sum(a, b) == (DecimalView::Finite {
        negative: total < 0,
        coefficient: size,
        scale: t,
    }));
    if s == t {
        assert(backend::exact_sum(b, a) == backend::exact_sum(a, b));
    } else {
        assert(backend::exact_sum(b, a) == backend::exact_sum(a, b));
        assert(backend::aligned_scale(b, a) == met);
    }
    assert(backend::aligned_scale(a, b) == met);
    if w > 0 {
        assert(x * 10 >= limit) by {
            if c * digits::pow10(k + 1) < limit {
                rounding::lemma_room(c, k + 1);
            }
            assert(c * (10 * pk) == x * 10) by (nonlinear_arith)
                requires
                    x == c * pk,
            ;
        }
        lemma_ends_in_zero(x);
        if d % digits::pow10(w + 1) != 0 {
            lemma_short(d, w);
        } else {
            lemma_both_divide(m, x, n, d, w);
        }
    } else {
        assert(met == t);
        if d % digits::pow10(1) != 0 {
            lemma_short(d, 0);
            assert(size >= limit);
        } else if x % digits::pow10(1) != 0 {
            if k > 0 {
                lemma_ends_in(c, k);
            }
            lemma_short(c, 0);
            assert(size >= limit);
        } else {
            lemma_both_divide(m, x, n, d, 0);
        }
    }
}

/// Zeros at the end of a coefficient are not significant.
pub proof fn lemma_padded_significant(c: nat, k: nat)
    requires
        c > 0,
        rounding::significant(c),
    ensures
        rounding::significant(c * digits::pow10(k)),
{
    let n = digits::digit_count(c);
    digits::lemma_digit_count_scale_up(c, k);
    if n > rounding::PRECISION {
        arithmetic::lemma_divisible_scale(c, (n - rounding::PRECISION) as nat, k);
        assert((n - rounding::PRECISION) as nat + k == (n + k - rounding::PRECISION) as nat);
    } else if n + k > rounding::PRECISION {
        assert(c % digits::pow10(0) == 0) by {
            assert(digits::pow10(0) == 1);
        }
        arithmetic::lemma_divisible_scale(c, 0, k);
        assert((n + k - rounding::PRECISION) as nat + (rounding::PRECISION - n) as nat == 0 + k);
        arithmetic::lemma_divisible_split(
            c * digits::pow10(k),
            (n + k - rounding::PRECISION) as nat,
            (rounding::PRECISION - n) as nat,
        );
    }
}

/// A padded coefficient ends in a zero.
proof fn lemma_ends_in(c: nat, k: nat)
    requires
        k > 0,
    ensures
        (c * digits::pow10(k)) % digits::pow10(1) == 0,
{
    assert(digits::pow10(0) == 1);
    assert(c % digits::pow10(0) == 0);
    arithmetic::lemma_divisible_scale(c, 0, k);
    assert(0 + k == 1 + (k - 1) as nat);
    arithmetic::lemma_divisible_split(c * digits::pow10(k), 1, (k - 1) as nat);
}

/// A long coefficient with at most 34 significant digits ends in a zero.
proof fn lemma_ends_in_zero(x: nat)
    requires
        rounding::significant(x),
        digits::pow10(76) <= x,
    ensures
        x % digits::pow10(1) == 0,
{
    digits::lemma_digit_count_at_most(x, 76);
    let n = (digits::digit_count(x) - rounding::PRECISION) as nat;
    assert(n == 1 + (n - 1) as nat);
    arithmetic::lemma_divisible_split(x, 1, (n - 1) as nat);
}

/// Where both operands of a sum end in zeros as far as they are dropped, the sum does.
proof fn lemma_both_divide(m: bool, x: nat, n: bool, d: nat, w: nat)
    requires
        x % digits::pow10(1) == 0,
        d % digits::pow10(w + 1) == 0,
    ensures
        ({
            let total = decimal::signed(m, x * digits::pow10(w)) + decimal::signed(n, d);
            let size = vstd::math::abs(total) as nat;
            &&& size % digits::pow10(w + 1) == 0
            &&& size % digits::pow10(w) == 0
        }),
{
    let unit = digits::pow10(w + 1);
    let low = digits::pow10(w);
    digits::lemma_pow10_monotonic(w, w);
    assert(unit == 10 * low);
    assert(digits::pow10(1) == 10 * digits::pow10(0));
    arithmetic::lemma_divisible_scale(x, 1, w);
    assert(1 + w == w + 1);
    let y = x * low;
    let i = y as int / unit as int;
    let j = d as int / unit as int;
    vstd::arithmetic::div_mod::lemma_fundamental_div_mod(y as int, unit as int);
    vstd::arithmetic::div_mod::lemma_fundamental_div_mod(d as int, unit as int);
    let total = decimal::signed(m, y) + decimal::signed(n, d);
    let f = (if m {
        -i
    } else {
        i
    }) + (if n {
        -j
    } else {
        j
    });
    let g = if total < 0 {
        -f
    } else {
        f
    };
    assert(vstd::math::abs(total) == g * unit + 0) by (nonlinear_arith)
        requires
            y == unit * i,
            d == unit * j,
            total == (if m {
                -(y as int)
            } else {
                y as int
            }) + (if n {
                -(d as int)
            } else {
                d as int
            }),
            f == (if m {
                -i
            } else {
                i
            }) + (if n {
                -j
            } else {
                j
            }),
            g == (if total < 0 {
                -f
            } else {
                f
            }),
    ;
    vstd::arithmetic::div_mod::lemma_fundamental_div_mod_converse(
        vstd::math::abs(total) as int,
        unit as int,
        g,
        0,
    );
    arithmetic::lemma_divisible_split(vstd::math::abs(total) as nat, w, 1);
}

/// Where the sum of two numbers is not exact, it is known within a few units.
pub proof fn lemma_nearly_known(a: DecimalView, b: DecimalView)
    requires
        a is Finite,
        b is Finite,
        a.representable(),
        b.representable(),
        rounding::in_format(a),
        rounding::in_format(b),
        backend::finite_sum(a, b) is None,
    ensures
        backend::nearly_known(a, b),
{
    if let DecimalView::Finite { negative: m, coefficient: c, scale: s } = a {
        if let DecimalView::Finite { negative: n, coefficient: d, scale: t } = b {
            rounding::lemma_coefficient_digits(c);
            rounding::lemma_coefficient_digits(d);
            rounding::lemma_room_bound(c);
            rounding::lemma_room_bound(d);
            if s <= t {
                lemma_inexact(m, c, s, n, d, t);
            } else {
                lemma_inexact(n, d, t, m, c, s);
            }
            let past = (if s < t {
                t
            } else {
                s
            }) - backend::aligned_scale(a, b);
            assert(34 + past as nat == (past + 34) as nat);
        }
    }
}

/// Where the sum of two numbers is not exact, a value near it is rounded as it is.
pub proof fn lemma_near_sum(a: DecimalView, b: DecimalView, r: DecimalView)
    requires
        a is Finite,
        b is Finite,
        a.representable(),
        b.representable(),
        rounding::in_format(a),
        rounding::in_format(b),
        backend::finite_sum(a, b) is None,
        backend::near_sum(a, b, r),
    ensures
        rounding::normalized(r) == rounding::normalized(backend::exact_sum(a, b)),
{
    if let DecimalView::Finite { negative: m, coefficient: c, scale: s } = a {
        if let DecimalView::Finite { negative: n, coefficient: d, scale: t } = b {
            rounding::lemma_coefficient_digits(c);
            rounding::lemma_coefficient_digits(d);
            rounding::lemma_room_bound(c);
            rounding::lemma_room_bound(d);
            if s <= t {
                lemma_near_ordered(m, c, s, n, d, t, a, b, r);
            } else {
                lemma_near_ordered(n, d, t, m, c, s, a, b, r);
            }
        }
    }
}

/// A value near an inexact sum is rounded as the sum is, the operand with the smaller
/// scale first.
proof fn lemma_near_ordered(
    m: bool,
    c: nat,
    s: int,
    n: bool,
    d: nat,
    t: int,
    a: DecimalView,
    b: DecimalView,
    r: DecimalView,
)
    requires
        s <= t,
        t <= 20000,
        s >= -20000,
        0 < c < decimal::coefficient_limit(),
        0 < d < decimal::coefficient_limit(),
        rounding::significant(c),
        rounding::significant(d),
        ({
            let low = DecimalView::Finite { negative: m, coefficient: c, scale: s };
            let high = DecimalView::Finite { negative: n, coefficient: d, scale: t };
            (a == low && b == high) || (a == high && b == low && s < t)
        }),
        backend::finite_sum(a, b) is None,
        backend::near_sum(a, b, r),
    ensures
        rounding::normalized(r) == rounding::normalized(backend::exact_sum(a, b)),
{
    lemma_inexact(m, c, s, n, d, t);
    let met = backend::aligned_scale(a, b);
    rounding::lemma_room_bound(c);
    let w = (t - met) as nat;
    let x = c * digits::pow10((met - s) as nat);
    assert(digits::pow10(0) == 1);
    assert(d * 1 == d && x * 1 == x) by (nonlinear_arith);
    assert(34 + w == (w + 34) as nat);
    if digits::pow10(76) <= x && d < digits::pow10(34 + w) {
        if let DecimalView::Finite { coefficient: e, scale: u, .. } = r {
            if let DecimalView::Finite { coefficient: size, .. } = backend::exact_sum(a, b) {
                lemma_exceeds(x, w, d);
                lemma_long_sum(x, w, d, t, size, e, u);
            }
        }
    } else {
        if let DecimalView::Finite { coefficient: e, scale: u, .. } = r {
            if let DecimalView::Finite { coefficient: size, .. } = backend::exact_sum(a, b) {
                lemma_exceeds(d, 0, c);
                lemma_long_sum(d, 0, c, t, size, e, u);
            }
        }
    }
}

/// A long coefficient is above a short one.
proof fn lemma_exceeds(x: nat, w: nat, d: nat)
    requires
        digits::pow10(76) <= x,
        d < digits::pow10(34 + w),
    ensures
        d < x * digits::pow10(w),
{
    lemma_long_powers(w);
    digits::lemma_pow10_monotonic(34, 76);
    let wide = digits::pow10(34);
    let unit = digits::pow10(w);
    assert(wide * unit <= x * unit) by (nonlinear_arith)
        requires
            wide <= x,
            unit >= 1,
    ;
}

} // verus!
