//! How far a power lies from one.

use crate::arithmetic;
use crate::arithmetic::Magnitude;
use crate::backend;
use crate::decimal;
use crate::decimal::{Decimal, DecimalView};
use crate::digits;
use crate::laws;
use crate::remainders;
use crate::rounding;
use crate::scales;
use vstd::arithmetic::power::pow;
use vstd::prelude::*;

verus! {

/// Bernoulli's inequality, downwards: `(x / (x + 1))^m` is at least `1 - m / (x + 1)`.
proof fn lemma_shrinks_slowly(x: nat, m: nat)
    requires
        m <= x + 1,
    ensures
        (x + 1) * pow(x as int, m) >= (x + 1 - m) * pow((x + 1) as int, m),
    decreases m,
{
    reveal(pow);
    if m > 0 {
        let r = (m - 1) as nat;
        lemma_shrinks_slowly(x, r);
        let a = pow(x as int, r);
        let b = pow((x + 1) as int, r);
        vstd::arithmetic::power::lemma_pow_positive((x + 1) as int, r);
        assert((x + 1) * (x * a) >= (x + 1 - m) * ((x + 1) * b)) by (nonlinear_arith)
            requires
                (x + 1) * a >= (x + 1 - r) * b,
                m == r + 1,
                m <= x + 1,
                b > 0,
                x >= 0,
        ;
    }
}

/// Bernoulli's inequality: `((x + 1) / x)^m` is at least `1 + m / x`.
proof fn lemma_grows_steadily(x: nat, m: nat)
    requires
        x > 0,
    ensures
        x * pow((x + 1) as int, m) >= (x + m) * pow(x as int, m),
    decreases m,
{
    reveal(pow);
    if m > 0 {
        let r = (m - 1) as nat;
        lemma_grows_steadily(x, r);
        let a = pow(x as int, r);
        let b = pow((x + 1) as int, r);
        vstd::arithmetic::power::lemma_pow_positive(x as int, r);
        assert(x * ((x + 1) * b) >= (x + m) * (x * a)) by (nonlinear_arith)
            requires
                x * b >= (x + r) * a,
                m == r + 1,
                a > 0,
                x > 0,
        ;
    }
}

/// `((x + 1) / x)^m` lies between three halves and four while `m` lies between half of
/// `x` and `x`.
proof fn lemma_one_step(x: nat, m: nat)
    requires
        0 < m <= x,
    ensures
        pow((x + 1) as int, m) <= 4 * pow(x as int, m),
        x <= 2 * m ==> 3 * pow(x as int, m) <= 2 * pow((x + 1) as int, m),
{
    let y = x + 1;
    let i = m / 2;
    let j = (m - i) as nat;
    lemma_shrinks_slowly(x, i);
    lemma_shrinks_slowly(x, j);
    vstd::arithmetic::power::lemma_pow_adds(x as int, i, j);
    vstd::arithmetic::power::lemma_pow_adds(y as int, i, j);
    let a = pow(x as int, i);
    let b = pow(x as int, j);
    let e = pow(y as int, i);
    let f = pow(y as int, j);
    vstd::arithmetic::power::lemma_pow_positive(y as int, i);
    vstd::arithmetic::power::lemma_pow_positive(y as int, j);
    vstd::arithmetic::power::lemma_pow_positive(x as int, m);
    assert(2 * a >= e) by (nonlinear_arith)
        requires
            y * a >= (y - i) * e,
            2 * i <= y,
            y > 0,
            e > 0,
    ;
    assert(2 * b >= f) by (nonlinear_arith)
        requires
            y * b >= (y - j) * f,
            2 * j <= y,
            y > 0,
            f > 0,
    ;
    assert(e * f <= 4 * (a * b)) by (nonlinear_arith)
        requires
            0 < e <= 2 * a,
            0 < f <= 2 * b,
    ;
    assert(i + j == m);
    if x <= 2 * m {
        lemma_grows_steadily(x, m);
        let u = pow(x as int, m);
        let v = pow(y as int, m);
        assert(3 * u <= 2 * v) by (nonlinear_arith)
            requires
                x * v >= (x + m) * u,
                x <= 2 * m,
                x > 0,
                u > 0,
        ;
    }
}

/// `((m + d) / m)^m` lies between the powers of three halves and of four to `d`, for a
/// `d` up to `m`.
proof fn lemma_steps_up(m: nat, d: nat)
    requires
        0 < m,
        d <= m,
    ensures
        pow(3, d) * pow(m as int, m) <= pow(2, d) * pow((m + d) as int, m),
        pow((m + d) as int, m) <= pow(4, d) * pow(m as int, m),
    decreases d,
{
    reveal(pow);
    if d > 0 {
        let r = (d - 1) as nat;
        let x = m + r;
        lemma_steps_up(m, r);
        lemma_one_step(x, m);
        let base = pow(m as int, m);
        let a = pow(x as int, m);
        let b = pow((x + 1) as int, m);
        let three = pow(3, r);
        let two = pow(2, r);
        let four = pow(4, r);
        vstd::arithmetic::power::lemma_pow_positive(2, r);
        vstd::arithmetic::power::lemma_pow_positive(4, r);
        assert(x + 1 == m + d);
        assert((3 * three) * base <= (2 * two) * b) by (nonlinear_arith)
            requires
                three * base <= two * a,
                3 * a <= 2 * b,
                two > 0,
        ;
        assert(b <= (4 * four) * base) by (nonlinear_arith)
            requires
                a <= four * base,
                b <= 4 * a,
        ;
    } else {
        let base = pow(m as int, m);
        assert(1 * base == base) by (nonlinear_arith);
    }
}

/// Ten is a power of ten.
proof fn lemma_ten()
    ensures
        digits::pow10(0) == 1,
        digits::pow10(1) == 10,
{
    assert(digits::pow10(0) == 1);
    assert(digits::pow10(1) == 10 * digits::pow10(0));
}

/// Six powers of three halves are more than ten.
proof fn lemma_three_halves(x: nat, k: nat)
    requires
        x >= 6 * k,
    ensures
        pow(3, x) >= pow(2, x) * digits::pow10(k),
    decreases k,
{
    lemma_ten();
    if k == 0 {
        lemma_pow_at_least(2, 3, x);
        assert(pow(2, x) * 1 == pow(2, x)) by (nonlinear_arith);
    } else {
        let y = (x - 6) as nat;
        let r = (k - 1) as nat;
        lemma_three_halves(y, r);
        vstd::arithmetic::power::lemma_pow_adds(3, y, 6);
        vstd::arithmetic::power::lemma_pow_adds(2, y, 6);
        assert(pow(3, 6) == 729 && pow(2, 6) == 64) by {
            reveal_with_fuel(pow, 7);
        }
        assert(digits::pow10(k) == 10 * digits::pow10(r));
        vstd::arithmetic::power::lemma_pow_positive(2, y);
        let a = pow(3, y);
        let b = pow(2, y);
        let c = digits::pow10(r) as int;
        assert(a * 729 >= (b * 64) * (10 * c)) by (nonlinear_arith)
            requires
                a >= b * c,
                b > 0,
                c >= 0,
        ;
    }
}

/// Three powers of four are less than a hundred.
proof fn lemma_fours(x: nat, k: nat)
    requires
        x <= 3 * k,
    ensures
        pow(4, x) <= digits::pow10(2 * k),
    decreases k,
{
    lemma_ten();
    vstd::arithmetic::power::lemma_pow0(4);
    if x <= 3 {
        reveal_with_fuel(pow, 4);
        if k > 0 {
            digits::lemma_pow10_monotonic(2, 2 * k);
            assert(digits::pow10(2) == 10 * digits::pow10(1));
        }
    } else {
        let y = (x - 3) as nat;
        let r = (k - 1) as nat;
        lemma_fours(y, r);
        vstd::arithmetic::power::lemma_pow_adds(4, y, 3);
        assert(pow(4, 3) == 64) by {
            reveal_with_fuel(pow, 4);
        }
        digits::lemma_pow10_add(2 * r, 2);
        assert(digits::pow10(2) == 10 * digits::pow10(1));
        assert(2 * k == 2 * r + 2);
        vstd::arithmetic::power::lemma_pow_positive(4, y);
        let a = pow(4, y);
        let b = digits::pow10(2 * r) as int;
        assert(a * 64 <= b * 100) by (nonlinear_arith)
            requires
                0 <= a <= b,
        ;
    }
}

/// A power of a larger base is no smaller.
proof fn lemma_pow_at_least(x: nat, y: nat, k: nat)
    requires
        x <= y,
    ensures
        0 <= pow(x as int, k) <= pow(y as int, k),
    decreases k,
{
    reveal(pow);
    if k > 0 {
        let r = (k - 1) as nat;
        lemma_pow_at_least(x, y, r);
        let a = pow(x as int, r);
        let b = pow(y as int, r);
        assert(0 <= x * a <= y * b) by (nonlinear_arith)
            requires
                0 <= x <= y,
                0 <= a <= b,
        ;
    }
}

/// Two naturals are in the order of their powers.
proof fn lemma_root(x: nat, y: nat, k: nat)
    requires
        k > 0,
        pow(x as int, k) <= pow(y as int, k),
    ensures
        x <= y,
{
    if x > y {
        laws::lemma_pow_grows(y, x, k);
    }
}

/// Powers can be taken in either order.
proof fn lemma_pow_swap(x: nat, a: nat, b: nat)
    ensures
        pow(pow(x as int, a), b) == pow(pow(x as int, b), a),
{
    vstd::arithmetic::power::lemma_pow_multiplies(x as int, a, b);
    vstd::arithmetic::power::lemma_pow_multiplies(x as int, b, a);
    assert(a * b == b * a) by (nonlinear_arith);
}

/// How far apart the powers of two numbers are that are within twice of each other: at
/// least `10^k` where the exponent is large for their distance, and at most `10^(4 k)`
/// where it is not.
proof fn lemma_near_powers(m: nat, d: nat, p: nat, k: nat)
    requires
        0 < m,
        d <= m,
    ensures
        d * p >= 6 * (k * m) ==> pow((m + d) as int, p) >= digits::pow10(k) * pow(m as int, p),
        d * p <= 6 * (k * m) ==> pow((m + d) as int, p) <= digits::pow10(4 * k) * pow(
            m as int,
            p,
        ),
{
    let h = m + d;
    let x = d * p;
    let high = pow(h as int, p);
    let low = pow(m as int, p);
    vstd::arithmetic::power::lemma_pow_positive(h as int, p);
    vstd::arithmetic::power::lemma_pow_positive(m as int, p);
    let high_m = pow(h as int, m);
    let low_m = pow(m as int, m);
    vstd::arithmetic::power::lemma_pow_positive(h as int, m);
    vstd::arithmetic::power::lemma_pow_positive(m as int, m);
    lemma_steps_up(m, d);
    lemma_pow_swap(h, p, m);
    lemma_pow_swap(m, p, m);
    // Both bounds to the power of the exponent.
    let two = pow(2, d);
    let three = pow(3, d);
    let four = pow(4, d);
    vstd::arithmetic::power::lemma_pow_positive(2, d);
    vstd::arithmetic::power::lemma_pow_positive(3, d);
    vstd::arithmetic::power::lemma_pow_positive(4, d);
    vstd::arithmetic::power::lemma_pow_multiplies(2, d, p);
    vstd::arithmetic::power::lemma_pow_multiplies(3, d, p);
    vstd::arithmetic::power::lemma_pow_multiplies(4, d, p);
    vstd::arithmetic::power::lemma_pow_distributes(three, low_m, p);
    vstd::arithmetic::power::lemma_pow_distributes(two, high_m, p);
    vstd::arithmetic::power::lemma_pow_distributes(four, low_m, p);
    assert(three * low_m >= 0 && four * low_m >= 0 && two * high_m >= 0) by (nonlinear_arith)
        requires
            three > 0,
            four > 0,
            two > 0,
            low_m > 0,
            high_m > 0,
    ;
    lemma_pow_at_least((three * low_m) as nat, (two * high_m) as nat, p);
    lemma_pow_at_least(high_m as nat, (four * low_m) as nat, p);
    let a = pow(low_m, p);
    let b = pow(high_m, p);
    assert(pow(3, x) * a <= pow(2, x) * b);
    assert(b <= pow(4, x) * a);
    vstd::arithmetic::power::lemma_pow_positive(low_m, p);
    vstd::arithmetic::power::lemma_pow_positive(2, x);
    if x >= 6 * (k * m) {
        lemma_three_halves(x, k * m);
        let t = digits::pow10(k * m) as int;
        let w = pow(2, x);
        let v = pow(3, x);
        assert(t * a <= b) by (nonlinear_arith)
            requires
                v * a <= w * b,
                v >= w * t,
                w > 0,
                a > 0,
        ;
        arithmetic::lemma_pow_of_ten(k, m);
        vstd::arithmetic::power::lemma_pow_distributes(digits::pow10(k) as int, low, m);
        let least = digits::pow10(k) * low;
        digits::lemma_pow10_monotonic(k, k);
        assert(least >= 0) by (nonlinear_arith)
            requires
                least == digits::pow10(k) * low,
                low > 0,
                digits::pow10(k) >= 1,
        ;
        lemma_root(least as nat, high as nat, m);
    }
    if x <= 6 * (k * m) {
        assert(6 * (k * m) == 3 * (2 * (k * m)) && 2 * (2 * (k * m)) == (4 * k) * m)
            by (nonlinear_arith);
        lemma_fours(x, 2 * (k * m));
        let t = digits::pow10((4 * k) * m) as int;
        let v = pow(4, x);
        assert(b <= t * a) by (nonlinear_arith)
            requires
                b <= v * a,
                v <= t,
                a > 0,
        ;
        arithmetic::lemma_pow_of_ten(4 * k, m);
        vstd::arithmetic::power::lemma_pow_distributes(digits::pow10(4 * k) as int, low, m);
        let most = digits::pow10(4 * k) * low;
        digits::lemma_pow10_monotonic(4 * k, 4 * k);
        assert(most >= 0) by (nonlinear_arith)
            requires
                most == digits::pow10(4 * k) * low,
                low > 0,
                digits::pow10(4 * k) >= 1,
        ;
        lemma_root(high as nat, most as nat, m);
    }
}

/// Ten powers of two are more than a thousand.
proof fn lemma_twos(p: nat, k: nat)
    requires
        3 * p >= 10 * k,
    ensures
        pow(2, p) >= digits::pow10(k),
{
    lemma_pow_swap(2, p, 10);
    assert(pow(2, 10) == 1024) by {
        reveal_with_fuel(pow, 11);
    }
    lemma_pow_at_least(1000, 1024, p);
    assert(digits::pow10(3) == 1000) by {
        reveal_with_fuel(digits::pow10, 4);
    }
    arithmetic::lemma_pow_of_ten(3, p);
    arithmetic::lemma_pow_of_ten(k, 10);
    assert(k * 10 == 10 * k) by (nonlinear_arith);
    digits::lemma_pow10_monotonic(10 * k, 3 * p);
    vstd::arithmetic::power::lemma_pow_positive(2, p);
    lemma_root(digits::pow10(k), pow(2, p) as nat, 10);
}

/// A power of ten that is not larger has no larger exponent.
proof fn lemma_exponents(a: nat, b: nat)
    requires
        digits::pow10(a) <= digits::pow10(b),
    ensures
        a <= b,
{
    if a > b {
        digits::lemma_pow10_monotonic(b, (a - 1) as nat);
        digits::lemma_pow10_monotonic(b, b);
        assert(digits::pow10(a) == 10 * digits::pow10((a - 1) as nat));
    }
}

/// What is `10^k` below a power of ten.
proof fn lemma_below_ten(x: nat, k: nat, t: nat)
    requires
        x >= 1,
        digits::pow10(k) * x <= digits::pow10(t),
    ensures
        k <= t,
        x <= digits::pow10((t - k) as nat),
{
    let a = digits::pow10(k);
    digits::lemma_pow10_monotonic(k, k);
    assert(a <= a * x) by (nonlinear_arith)
        requires
            x >= 1,
            a >= 1,
    ;
    lemma_exponents(k, t);
    digits::lemma_pow10_add(k, (t - k) as nat);
    let b = digits::pow10((t - k) as nat);
    assert(x <= b) by (nonlinear_arith)
        requires
            a * x <= a * b,
            a >= 1,
    ;
}

/// Whether a power is far from one, on its side of one, or in reach.
spec fn placed(base: DecimalView, exponent: DecimalView, up: bool, far: bool) -> bool {
    if !far {
        backend::power_at_least(base, exponent, -25000) && backend::power_at_most(
            base,
            exponent,
            25000,
        )
    } else if up {
        backend::power_at_least(base, exponent, 6177)
    } else {
        backend::power_at_most(base, exponent, -6177)
    }
}

/// The power of a base within twice of one.
proof fn lemma_near_base(base: DecimalView, exponent: DecimalView, c: nat, s: nat, far: bool)
    requires
        base matches DecimalView::Finite { coefficient, scale, .. } && coefficient == c && scale
            == s,
        0 < c,
        c != digits::pow10(s),
        c <= 2 * digits::pow10(s),
        digits::pow10(s) <= 2 * c,
        ({
            let (p, q) = backend::exponent_size(exponent);
            let m = digits::pow10(s);
            let d = vstd::math::abs(c - m);
            let low = if c < m {
                c
            } else {
                m
            };
            q >= 1 && (far <==> d * p >= 37062 * (low * q))
        }),
    ensures
        placed(base, exponent, c > digits::pow10(s), far),
{
    let (p, q) = backend::exponent_size(exponent);
    let m = digits::pow10(s);
    let k = 6177 * q;
    let power = pow(c as int, p);
    vstd::arithmetic::power::lemma_pow_positive(c as int, p);
    digits::lemma_pow10_monotonic(s, s);
    arithmetic::lemma_pow_of_ten(s, p);
    let t = s * p;
    assert(6 * (k * m) == 37062 * (m * q) && 6 * (k * c) == 37062 * (c * q)) by (nonlinear_arith)
        requires
            k == 6177 * q,
    ;
    let ten = digits::pow10(t);
    digits::lemma_pow10_monotonic(t, t + 25000 * q);
    if t - 25000 * q >= 0 {
        digits::lemma_pow10_monotonic((t - 25000 * q) as nat, t);
    }
    if c >= m {
        let d = (c - m) as nat;
        lemma_near_powers(m, d, p, k);
        lemma_pow_at_least(m, c, p);
        if far {
            digits::lemma_pow10_add(k, t);
        } else {
            digits::lemma_pow10_add(4 * k, t);
            digits::lemma_pow10_monotonic(4 * k + t, t + 25000 * q);
        }
    } else {
        let d = (m - c) as nat;
        lemma_near_powers(c, d, p, k);
        lemma_pow_at_least(c, m, p);
        if far {
            lemma_below_ten(power as nat, k, t);
        } else if t - 25000 * q >= 0 {
            let r = (t - 25000 * q) as nat;
            digits::lemma_pow10_add(4 * k, (t - 4 * k) as nat);
            digits::lemma_pow10_monotonic(r, (t - 4 * k) as nat);
            let a = digits::pow10(4 * k);
            let b = digits::pow10((t - 4 * k) as nat);
            digits::lemma_pow10_monotonic(4 * k, 4 * k);
            assert(b <= power) by (nonlinear_arith)
                requires
                    a * b <= a * power,
                    a >= 1,
            ;
        }
    }
}

/// The power of a base at least twice of one, or at most half of it.
proof fn lemma_far_base(base: DecimalView, exponent: DecimalView, c: nat, s: int, far: bool)
    requires
        base matches DecimalView::Finite { coefficient, scale, .. } && coefficient == c && scale
            == s,
        0 < c,
        ({
            let (p, q) = backend::exponent_size(exponent);
            let order = decimal::adjusted_exponent(c, s);
            let width = if order >= 0 {
                order + 1
            } else {
                -order
            };
            &&& q >= 1
            &&& order == 0 ==> c >= 2 * digits::pow10(s as nat)
            &&& order == -1 ==> 2 * c <= digits::pow10(s as nat)
            &&& far <==> width * p >= 20590 * q
        }),
    ensures
        placed(base, exponent, decimal::adjusted_exponent(c, s) >= 0, far),
{
    let (p, q) = backend::exponent_size(exponent);
    let order = decimal::adjusted_exponent(c, s);
    let n = digits::digit_count(c);
    let power = pow(c as int, p);
    vstd::arithmetic::power::lemma_pow_positive(c as int, p);
    digits::lemma_digit_count_bounds(c);
    arithmetic::lemma_pow_bounds(c, p);
    assert((n - 1) * p == order * p + s * p && n * p == order * p + p + s * p && (n - 1) * p >= 0)
        by (nonlinear_arith)
        requires
            order == n - 1 - s,
            n >= 1,
            p >= 0,
    ;
    let low = ((n - 1) * p) as nat;
    let high = (n * p) as nat;
    if order > 0 {
        assert((order + 1) * p == order * p + p && order * p >= p) by (nonlinear_arith)
            requires
                order >= 1,
                p >= 0,
        ;
        if far {
            if s * p + 6177 * q >= 0 {
                digits::lemma_pow10_monotonic((s * p + 6177 * q) as nat, low);
            }
        } else {
            digits::lemma_pow10_monotonic(high, (s * p + 25000 * q) as nat);
            if s * p - 25000 * q >= 0 {
                digits::lemma_pow10_monotonic((s * p - 25000 * q) as nat, low);
            }
        }
    } else if order < -1 {
        assert((-order) * p == -(order * p) && -(order * p) >= 2 * p) by (nonlinear_arith)
            requires
                order <= -2,
                p >= 0,
        ;
        if far {
            digits::lemma_pow10_monotonic(high, (s * p - 6177 * q) as nat);
        } else {
            digits::lemma_pow10_monotonic(high, (s * p + 25000 * q) as nat);
            if s * p - 25000 * q >= 0 {
                digits::lemma_pow10_monotonic((s * p - 25000 * q) as nat, low);
            }
        }
    } else {
        assert(1 * p == p && 0 * p == 0 && -1 * p == -p && (-(-1)) * p == p) by (nonlinear_arith);
        assert(s >= 0);
        let z = s as nat;
        let t = z * p;
        let two = pow(2, p);
        let k = 6177 * q;
        arithmetic::lemma_pow_of_ten(z, p);
        vstd::arithmetic::power::lemma_pow_positive(2, p);
        if far {
            lemma_twos(p, k);
            if order == 0 {
                vstd::arithmetic::power::lemma_pow_distributes(2, digits::pow10(z) as int, p);
                lemma_pow_at_least(2 * digits::pow10(z), c, p);
                digits::lemma_pow10_add(k, t);
                let a = digits::pow10(k) as int;
                let b = digits::pow10(t) as int;
                assert(a * b <= two * b) by (nonlinear_arith)
                    requires
                        a <= two,
                        b >= 0,
                ;
            } else {
                vstd::arithmetic::power::lemma_pow_distributes(2, c as int, p);
                lemma_pow_at_least(2 * c, digits::pow10(z), p);
                let a = digits::pow10(k) as int;
                assert(a * power <= two * power) by (nonlinear_arith)
                    requires
                        a <= two,
                        power >= 0,
                ;
                lemma_below_ten(power as nat, k, t);
            }
        } else {
            digits::lemma_pow10_monotonic(high, (s * p + 25000 * q) as nat);
            if s * p - 25000 * q >= 0 {
                digits::lemma_pow10_monotonic((s * p - 25000 * q) as nat, low);
            }
        }
    }
}

/// From how many decimal orders on, by a coarse count, a power is out of the format's
/// range.
pub const FAR_ORDERS: u64 = 20590;

/// From how many multiples of its distance to one on a base within twice of one has a
/// power out of the format's range.
pub const FAR_STEPS: u64 = 37062;

/// A natural number at scale 0.
pub open spec fn natural(n: nat) -> DecimalView {
    DecimalView::Finite { negative: false, coefficient: n, scale: 0 }
}

/// One half.
pub open spec fn half() -> DecimalView {
    DecimalView::Finite { negative: false, coefficient: 5, scale: 1 }
}

/// Whether a base is at least two or at most one half.
pub open spec fn is_apart(base: DecimalView) -> bool {
    arithmetic::number_order(base, DecimalView::two()) >= 0 || arithmetic::number_order(
        base,
        half(),
    ) <= 0
}

/// The decimal orders between a base and one, rounded up.
pub open spec fn width(base: DecimalView) -> nat {
    let order = rounding::order_of(base);
    if order >= 0 {
        (order + 1) as nat
    } else {
        (-order) as nat
    }
}

/// The distance of a base from one.
pub open spec fn distance(base: DecimalView) -> DecimalView {
    rounding::normalized(arithmetic::difference_value(base, DecimalView::one())).magnitude()
}

/// The smaller of a base and one.
pub open spec fn at_most_one(base: DecimalView) -> DecimalView {
    if arithmetic::number_order(base, DecimalView::one()) < 0 {
        base
    } else {
        DecimalView::one()
    }
}

/// Whether a power is too far from one for the format.
pub open spec fn is_far(base: DecimalView, exponent: DecimalView) -> bool {
    let size = exponent.magnitude();
    if is_apart(base) {
        arithmetic::number_order(
            arithmetic::product_value(size, natural(width(base))),
            natural(FAR_ORDERS as nat),
        ) >= 0
    } else {
        arithmetic::number_order(
            arithmetic::product_value(size, distance(base)),
            arithmetic::product_value(at_most_one(base), natural(FAR_STEPS as nat)),
        ) >= 0
    }
}

/// Where the power of a positive base lies: above or below the format's range where it
/// is too far from one, and otherwise within reach.
pub open spec fn range_of(base: DecimalView, exponent: DecimalView) -> Magnitude {
    if !is_far(base, exponent) {
        Magnitude::Within
    } else if (arithmetic::number_order(base, DecimalView::one()) > 0) != exponent.negative() {
        Magnitude::Above
    } else {
        Magnitude::Below
    }
}

/// Where the power of a positive base lies.
pub fn power_range(base: Decimal, exponent: Decimal) -> (m: Magnitude)
    requires
        arithmetic::both_nonzero(base@, exponent@),
        !base@.negative(),
        !backend::same_number(base@, DecimalView::one()),
        rounding::in_format(base@),
        rounding::in_format(exponent@),
    ensures
        m == range_of(base@, exponent@),
{
    let one = Decimal::small(1);
    let size = exponent.magnitude();
    let half = Decimal {
        nan: false,
        infinite: false,
        negative: false,
        limbs: [5, 0, 0, 0],
        scale: 1,
    };
    proof {
        assert(half@ == self::half());
        decimal::lemma_limbs_bound(base.limbs@);
        decimal::lemma_limbs_bound(size.limbs@);
        lemma_small(1);
        lemma_small(FAR_ORDERS as nat);
        lemma_small(FAR_STEPS as nat);
    }
    let apart = arithmetic::num_ge(base, Decimal::small(2)) || arithmetic::num_le(base, half);
    let far = if apart {
        let order: i32 = rounding::ilogb(base);
        let width: u64 = if order >= 0 {
            order as u64 + 1
        } else {
            (-(order as i64)) as u64
        };
        proof {
            lemma_small(width as nat);
            laws::law_product_is_rounded_once(size@, natural(width as nat));
        }
        arithmetic::num_ge(
            backend::product(size, Decimal::small(width)),
            Decimal::small(FAR_ORDERS),
        )
    } else {
        let gap = arithmetic::minus(base, one).magnitude();
        let low = if arithmetic::num_lt(base, one) {
            base
        } else {
            one
        };
        proof {
            decimal::lemma_limbs_bound(gap.limbs@);
            lemma_distance(base@);
            laws::law_product_is_rounded_once(size@, gap@);
            laws::law_product_is_rounded_once(low@, natural(FAR_STEPS as nat));
        }
        arithmetic::num_ge(
            backend::product(size, gap),
            backend::product(low, Decimal::small(FAR_STEPS)),
        )
    };
    if !far {
        Magnitude::Within
    } else if arithmetic::num_gt(base, one) != exponent.negative {
        Magnitude::Above
    } else {
        Magnitude::Below
    }
}

/// A small natural number is one of the format.
proof fn lemma_small(n: nat)
    requires
        0 < n <= 0xffff_ffff_ffff_ffff,
    ensures
        rounding::in_format(natural(n)),
        natural(n).representable(),
{
    crate::number::lemma_small_in_format(n);
}

/// The product of two numbers has the product of their sizes.
proof fn lemma_product_number(a: DecimalView, b: DecimalView)
    requires
        arithmetic::both_nonzero(a, b),
        rounding::in_format(a),
        rounding::in_format(b),
        a.representable(),
        b.representable(),
    ensures
        match (a, b) {
            (
                DecimalView::Finite { negative: m, coefficient: c, scale: s },
                DecimalView::Finite { negative: n, coefficient: d, scale: t },
            ) => arithmetic::product_value(a, b) matches DecimalView::Finite {
                negative,
                coefficient: x,
                scale: u,
            } && negative == (m != n) && x > 0 && backend::finite_order(x, u, c * d, s + t) == 0,
            _ => false,
        },
{
    if let DecimalView::Finite { negative: m, coefficient: c, scale: s } = a {
        if let DecimalView::Finite { negative: n, coefficient: d, scale: t } = b {
            rounding::lemma_coefficient_digits(c);
            rounding::lemma_coefficient_digits(d);
            digits::lemma_digit_count_bounds(c);
            digits::lemma_digit_count_bounds(d);
            laws::lemma_exact_product(c, s, d, t);
            let p = c * d;
            let z = backend::spill(p);
            let unit = digits::pow10(z);
            let rest = p / unit;
            digits::lemma_pow10_monotonic(z, z);
            vstd::arithmetic::div_mod::lemma_fundamental_div_mod(p as int, unit as int);
            assert(p > 0) by (nonlinear_arith)
                requires
                    p == c * d,
                    c > 0,
                    d > 0,
            ;
            assert(rest * unit == p && rest > 0) by (nonlinear_arith)
                requires
                    p == unit * rest,
                    p > 0,
                    unit >= 1,
            ;
            assert(digits::pow10(0) == 1);
            assert(p / 1 == p) by (nonlinear_arith);
            scales::lemma_padded_order(rest, s + t - z, z);
            scales::lemma_padded_order(p, s + t, 0);
            assert(p * 1 == p) by (nonlinear_arith);
            assert(s + t - z + z == s + t);
        }
    }
}

/// A multiple of an exponent compared with a number, as fractions.
proof fn lemma_multiple_of_exponent(exponent: DecimalView, m: nat, t: int, x: nat, y: nat, s: int)
    requires
        exponent matches DecimalView::Finite { coefficient, scale, .. } && coefficient == m
            && scale == t,
    ensures
        ({
            let (p, q) = backend::exponent_size(exponent);
            &&& q >= 1
            &&& backend::finite_order(m * x, t + s, y, s) >= 0 <==> x * p >= y * q
        }),
{
    let (p, q) = backend::exponent_size(exponent);
    assert(digits::pow10(0) == 1);
    if t < 0 {
        let e = digits::pow10((-t) as nat);
        assert((s - (t + s)) as nat == (-t) as nat);
        assert((m * x) * e == x * (m * e) && y * 1 == y) by (nonlinear_arith);
    } else {
        digits::lemma_pow10_monotonic(t as nat, t as nat);
        assert((t + s - s) as nat == t as nat);
        assert(m * x == x * m && y * 1 == y) by (nonlinear_arith);
    }
}

/// The bounds of a base within twice of one, as a fraction of a power of ten.
proof fn lemma_near_bounds(base: DecimalView)
    requires
        base is Finite,
        !base.negative(),
        !base.is_zero(),
        !is_apart(base),
        !backend::same_number(base, DecimalView::one()),
    ensures
        base matches DecimalView::Finite { coefficient: c, scale: s, .. } && ({
            let m = digits::pow10(s as nat);
            &&& s >= 0
            &&& c < 2 * m && m < 2 * c && c != m
            &&& arithmetic::number_order(base, DecimalView::one()) < 0 <==> c < m
            &&& arithmetic::number_order(base, DecimalView::one()) > 0 <==> c > m
        }),
{
    if let DecimalView::Finite { coefficient: c, scale: s, .. } = base {
        lemma_ten();
        if s < 0 {
            let p = digits::pow10((0 - s) as nat);
            digits::lemma_pow10_monotonic(1, (0 - s) as nat);
            assert(c * p >= 2) by (nonlinear_arith)
                requires
                    c > 0,
                    p >= 10,
            ;
        } else if s > 0 {
            let p = digits::pow10(s as nat);
            let low = digits::pow10((s - 1) as nat);
            assert((s - 0) as nat == s as nat);
            assert(p == 10 * low);
            assert(1 * p == p) by (nonlinear_arith);
            assert(5 * digits::pow10(0) == 5) by (nonlinear_arith)
                requires
                    digits::pow10(0) == 1,
            ;
        }
    }
}

/// The distance of a coefficient from a power of ten near it has no more significant
/// digits, and is not small beside it.
proof fn lemma_gap(c: nat, s: nat)
    requires
        c > 0,
        rounding::significant(c),
        c != digits::pow10(s),
        c < 2 * digits::pow10(s),
        digits::pow10(s) < 2 * c,
    ensures
        ({
            let d = vstd::math::abs(c - digits::pow10(s)) as nat;
            &&& d > 0
            &&& rounding::significant(d)
            &&& c <= digits::pow10(34) * d
        }),
{
    let (f, v) = rounding::to_precision(c, s as int);
    scales::lemma_surplus_zeros(c, s as int);
    rounding::lemma_to_precision(c, s as int);
    let i = (s - v) as nat;
    let unit = digits::pow10(i);
    let m = digits::pow10(s);
    digits::lemma_pow10_monotonic(i, i);
    digits::lemma_pow10_monotonic(s, s);
    if i > s {
        digits::lemma_pow10_monotonic(s, (i - 1) as nat);
        assert(unit == 10 * digits::pow10((i - 1) as nat));
        assert(f * unit >= unit) by (nonlinear_arith)
            requires
                f >= 1,
                unit >= 1,
        ;
    }
    let h = digits::pow10((s - i) as nat);
    digits::lemma_pow10_add((s - i) as nat, i);
    let g = vstd::math::abs(f - h) as nat;
    let d = vstd::math::abs(c - m) as nat;
    assert(d == g * unit) by (nonlinear_arith)
        requires
            c == f * unit,
            m == h * unit,
            unit >= 1,
            d == (if c - m < 0 {
                m - c
            } else {
                c - m
            }),
            g == (if f - h < 0 {
                h - f
            } else {
                f - h
            }),
    ;
    assert(h < 2 * f) by (nonlinear_arith)
        requires
            h * unit < 2 * (f * unit),
            unit >= 1,
    ;
    digits::lemma_pow10_monotonic((s - i) as nat, (s - i) as nat);
    assert(g >= 1) by (nonlinear_arith)
        requires
            d == g * unit,
            d >= 1,
            g >= 0,
    ;
    digits::lemma_digit_count_at_most(g, 34);
    scales::lemma_padded_significant(g, i);
    let wide = digits::pow10(34);
    assert(f * unit <= wide * (g * unit)) by (nonlinear_arith)
        requires
            f <= wide,
            g >= 1,
            unit >= 1,
            wide >= 0,
    ;
}

/// The distance of a base within twice of one from one is exact.
proof fn lemma_distance(base: DecimalView)
    requires
        base is Finite,
        !base.is_zero(),
        !base.negative(),
        rounding::in_format(base),
        base.representable(),
        !is_apart(base),
        !backend::same_number(base, DecimalView::one()),
    ensures
        rounding::in_format(distance(base)),
        base matches DecimalView::Finite { coefficient: c, scale: s, .. } && (distance(base)
            matches DecimalView::Finite { negative, coefficient: x, scale: u } && !negative && x > 0
            && backend::finite_order(
            x,
            u,
            vstd::math::abs(c - digits::pow10(s as nat)) as nat,
            s,
        ) == 0),
        distance(base).representable(),
{
    if let DecimalView::Finite { coefficient: c, scale: s, .. } = base {
        let z = s as nat;
        let m = digits::pow10(z);
        let d = vstd::math::abs(c - m) as nat;
        let minus_one = DecimalView::one().negated();
        lemma_near_bounds(base);
        lemma_gap(c, z);
        crate::number::lemma_small_in_format(1);
        laws::law_sum_is_rounded_once(base, minus_one);
        laws::law_difference_is_sum(base, DecimalView::one());
        assert(digits::pow10(0) == 1);
        assert(c * 1 == c && 1 * m == m) by (nonlinear_arith);
        let exact = backend::exact_sum(base, minus_one);
        assert(exact == (DecimalView::Finite { negative: c < m, coefficient: d, scale: s }));
        // The scale is small, and so is the leading exponent.
        rounding::lemma_coefficient_digits(c);
        digits::lemma_digit_count_at_most(c, 78);
        digits::lemma_digit_count_bounds(d);
        digits::lemma_digit_count_bounds(c);
        assert(s <= 79) by {
            if s > 79 {
                digits::lemma_pow10_monotonic(80, z);
                assert(digits::pow10(79) == 10 * digits::pow10(78));
                assert(digits::pow10(80) == 10 * digits::pow10(79));
            }
        }
        assert(digits::digit_count(d) <= 81) by {
            digits::lemma_pow10_monotonic(z, 80);
            digits::lemma_pow10_monotonic(78, 80);
            assert(digits::pow10(81) == 10 * digits::pow10(80));
            digits::lemma_digit_count_at_most(d, 81);
        }
        scales::lemma_kept(c < m, d, s);
        let r = rounding::normalized(arithmetic::difference_value(base, DecimalView::one()));
        rounding::lemma_normalized_in_format(
            arithmetic::difference_value(base, DecimalView::one()),
        );
        let near = rounding::normalized(exact);
        if let DecimalView::Finite { coefficient: y, scale: w, .. } = near {
            if let DecimalView::Finite { coefficient: x, scale: u, .. } = r {
                scales::lemma_order_chain(x, u, y, w, d, s);
                rounding::lemma_precision_fits(x);
                digits::lemma_digit_count_bounds(x);
            }
        }
    }
}

/// Where the range says that a power lies, it lies.
pub proof fn lemma_range_holds(base: DecimalView, exponent: DecimalView)
    requires
        arithmetic::both_nonzero(base, exponent),
        !base.negative(),
        !backend::same_number(base, DecimalView::one()),
        rounding::in_format(base),
        rounding::in_format(exponent),
        base.representable(),
        exponent.representable(),
    ensures
        arithmetic::range_holds(base, exponent, range_of(base, exponent)),
{
    let far = is_far(base, exponent);
    let up = arithmetic::number_order(base, DecimalView::one()) > 0;
    let (p, q) = backend::exponent_size(exponent);
    if is_apart(base) {
        lemma_apart_holds(base, exponent);
    } else {
        lemma_near_holds(base, exponent);
    }
    lemma_weaker(base, exponent, 6177, 6145);
    lemma_weaker(base, exponent, -6145, -6177);
}

/// A power above a bound is above a lower one, and one below a bound below a higher one.
pub proof fn lemma_weaker(base: DecimalView, exponent: DecimalView, high: int, low: int)
    requires
        low <= high,
    ensures
        backend::power_at_least(base, exponent, high) ==> backend::power_at_least(
            base,
            exponent,
            low,
        ),
        backend::power_at_most(base, exponent, low) ==> backend::power_at_most(
            base,
            exponent,
            high,
        ),
{
    if let DecimalView::Finite { coefficient: c, scale: s, .. } = base {
        let (p, q) = backend::exponent_size(exponent);
        assert(s * p + low * q <= s * p + high * q) by (nonlinear_arith)
            requires
                low <= high,
                q >= 0,
        ;
        if s * p + low * q >= 0 {
            digits::lemma_pow10_monotonic((s * p + low * q) as nat, (s * p + high * q) as nat);
        }
    }
}

/// The range of a base at least two or at most one half.
proof fn lemma_apart_holds(base: DecimalView, exponent: DecimalView)
    requires
        arithmetic::both_nonzero(base, exponent),
        !base.negative(),
        rounding::in_format(base),
        rounding::in_format(exponent),
        base.representable(),
        exponent.representable(),
        is_apart(base),
    ensures
        ({
            let far = is_far(base, exponent);
            let (p, q) = backend::exponent_size(exponent);
            &&& placed(
                base,
                exponent,
                arithmetic::number_order(base, DecimalView::one()) > 0,
                far,
            )
            &&& !far ==> p <= digits::pow10(40) * q
        }),
{
    let size = exponent.magnitude();
    let far = is_far(base, exponent);
    let (p, q) = backend::exponent_size(exponent);
    if let DecimalView::Finite { coefficient: c, scale: s, .. } = base {
        if let DecimalView::Finite { coefficient: m, scale: t, .. } = size {
            let w = width(base);
            let order = rounding::order_of(base);
            digits::lemma_digit_count_bounds(c);
            lemma_small(w);
            lemma_product_number(size, natural(w));
            if let DecimalView::Finite { coefficient: x, scale: u, .. } = arithmetic::product_value(
                size,
                natural(w),
            ) {
                scales::lemma_order_chain(x, u, m * w, t, FAR_ORDERS as nat, 0);
                scales::lemma_order_chain(m * w, t, x, u, FAR_ORDERS as nat, 0);
            }
            lemma_multiple_of_exponent(exponent, m, t, w, FAR_ORDERS as nat, 0);
            lemma_apart_bounds(base);
            lemma_far_base(base, exponent, c, s, far);
            if !far {
                lemma_exponent_bound(w as int, p, q, 20590);
            }
        }
    }
}

/// An exponent that stays below a bound is far below its own.
proof fn lemma_exponent_bound(w: int, p: nat, q: nat, k: nat)
    requires
        w >= 1,
        w * p < k * q,
        k <= 1_000_000,
    ensures
        p <= digits::pow10(40) * q,
{
    assert(digits::pow10(6) == 1_000_000) by {
        reveal_with_fuel(digits::pow10, 7);
    }
    digits::lemma_pow10_monotonic(6, 40);
    let bound = digits::pow10(40);
    assert(p <= bound * q) by (nonlinear_arith)
        requires
            w >= 1,
            w * p < k * q,
            k <= bound,
            p >= 0,
            q >= 0,
    ;
}

/// The bounds of a base at least two or at most one half, by its leading exponent.
proof fn lemma_apart_bounds(base: DecimalView)
    requires
        base is Finite,
        !base.negative(),
        !base.is_zero(),
        is_apart(base),
    ensures
        base matches DecimalView::Finite { coefficient: c, scale: s, .. } && ({
            let order = decimal::adjusted_exponent(c, s);
            &&& order == 0 ==> c >= 2 * digits::pow10(s as nat)
            &&& order == -1 ==> 2 * c <= digits::pow10(s as nat)
            &&& arithmetic::number_order(base, DecimalView::one()) > 0 <==> order >= 0
        }),
{
    if let DecimalView::Finite { coefficient: c, scale: s, .. } = base {
        let n = digits::digit_count(c);
        let order = decimal::adjusted_exponent(c, s);
        lemma_ten();
        digits::lemma_digit_count_bounds(c);
        if s <= 0 {
            let p = digits::pow10((0 - s) as nat);
            digits::lemma_pow10_monotonic((0 - s) as nat, (0 - s) as nat);
            digits::lemma_pow10_monotonic(1, (1 - s) as nat);
            assert((1 - s) as nat == (0 - s) as nat + 1);
            assert(digits::pow10((1 - s) as nat) == 10 * p);
            assert(c * p >= 1 && c * (10 * p) >= 10 && c * 1 == c) by (nonlinear_arith)
                requires
                    c >= 1,
                    p >= 1,
            ;
        } else {
            let z = s as nat;
            let p = digits::pow10(z);
            let low = digits::pow10((z - 1) as nat);
            digits::lemma_pow10_monotonic((z - 1) as nat, (z - 1) as nat);
            assert(p == 10 * low);
            assert((s - 0) as nat == z && (s - 1) as nat == (z - 1) as nat);
            assert(1 * p == p) by (nonlinear_arith);
            if n > z {
                digits::lemma_pow10_monotonic(z, (n - 1) as nat);
            } else {
                digits::lemma_pow10_monotonic(n, z);
                if n < z {
                    digits::lemma_pow10_monotonic(n, (z - 1) as nat);
                }
            }
        }
    }
}

/// The range of a base within twice of one.
proof fn lemma_near_holds(base: DecimalView, exponent: DecimalView)
    requires
        arithmetic::both_nonzero(base, exponent),
        !base.negative(),
        rounding::in_format(base),
        rounding::in_format(exponent),
        base.representable(),
        exponent.representable(),
        !is_apart(base),
        !backend::same_number(base, DecimalView::one()),
    ensures
        ({
            let far = is_far(base, exponent);
            let (p, q) = backend::exponent_size(exponent);
            &&& placed(
                base,
                exponent,
                arithmetic::number_order(base, DecimalView::one()) > 0,
                far,
            )
            &&& !far ==> p <= digits::pow10(40) * q
        }),
{
    let size = exponent.magnitude();
    let far = is_far(base, exponent);
    let (p, q) = backend::exponent_size(exponent);
    if let DecimalView::Finite { coefficient: c, scale: s, .. } = base {
        if let DecimalView::Finite { coefficient: m, scale: t, .. } = size {
            let z = s as nat;
            let ten = digits::pow10(z);
            let d = vstd::math::abs(c - ten) as nat;
            let low = if c < ten {
                c
            } else {
                ten
            };
            lemma_near_bounds(base);
            lemma_distance(base);
            lemma_gap(c, z);
            lemma_small(1);
            lemma_small(FAR_STEPS as nat);
            lemma_product_number(size, distance(base));
            lemma_product_number(at_most_one(base), natural(FAR_STEPS as nat));
            let steps = FAR_STEPS as nat;
            assert(1 * ten == ten) by (nonlinear_arith);
            scales::lemma_padded_order(1, 0, z);
            scales::lemma_padded_order(c, s, 0);
            assert(digits::pow10(0) == 1);
            assert(c * 1 == c) by (nonlinear_arith);
            if let DecimalView::Finite { coefficient: g, scale: v, .. } = distance(base) {
                if let DecimalView::Finite { coefficient: l, scale: w, .. } = at_most_one(base) {
                    // Both products at the scale of the base.
                    remainders::lemma_steps(g, v, d, s, m);
                    remainders::lemma_steps(l, w, low, s, steps);
                    assert(g * m == m * g && l * steps == steps * l) by (nonlinear_arith);
                    lemma_shifted(m * g, v, m * d, s, t);
                    lemma_compare(
                        arithmetic::product_value(size, distance(base)),
                        arithmetic::product_value(at_most_one(base), natural(steps)),
                        m * g,
                        t + v,
                        l * steps,
                        w,
                        m * d,
                        t + s,
                        steps * low,
                        s,
                    );
                }
            }
            lemma_multiple_of_exponent(exponent, m, t, d, steps * low, s);
            assert((steps * low) * q == 37062 * (low * q)) by (nonlinear_arith)
                requires
                    steps == 37062,
            ;
            lemma_near_base(base, exponent, c, z, far);
            if !far {
                lemma_near_exponent(p, q, d, low, c);
            }
        }
    }
}

/// Two magnitudes stand to each other as before when both scales are raised alike.
proof fn lemma_shifted(a: nat, s: int, b: nat, t: int, k: int)
    ensures
        backend::finite_order(a, k + s, b, k + t) == backend::finite_order(a, s, b, t),
{
}

/// Two products stand to each other as magnitudes that they equal.
proof fn lemma_compare(
    a: DecimalView,
    b: DecimalView,
    x: nat,
    u: int,
    y: nat,
    v: int,
    e: nat,
    g: int,
    f: nat,
    h: int,
)
    requires
        a matches DecimalView::Finite { negative, coefficient, scale } && !negative && coefficient
            > 0 && backend::finite_order(coefficient, scale, x, u) == 0,
        b matches DecimalView::Finite { negative, coefficient, scale } && !negative && coefficient
            > 0 && backend::finite_order(coefficient, scale, y, v) == 0,
        backend::finite_order(x, u, e, g) == 0,
        backend::finite_order(y, v, f, h) == 0,
    ensures
        arithmetic::number_order(a, b) >= 0 <==> backend::finite_order(e, g, f, h) >= 0,
{
    if let DecimalView::Finite { coefficient: i, scale: j, .. } = a {
        if let DecimalView::Finite { coefficient: k, scale: l, .. } = b {
            scales::lemma_order_chain(i, j, x, u, e, g);
            scales::lemma_order_chain(k, l, y, v, f, h);
            scales::lemma_order_chain(x, u, e, g, i, j);
            scales::lemma_order_chain(y, v, f, h, k, l);
            scales::lemma_order_chain(e, g, x, u, i, j);
            scales::lemma_order_chain(f, h, y, v, k, l);
            // Replace one side, then the other.
            scales::lemma_order_chain(e, g, i, j, k, l);
            scales::lemma_order_chain(i, j, e, g, k, l);
            scales::lemma_order_chain(e, g, k, l, f, h);
            scales::lemma_order_chain(e, g, f, h, k, l);
            scales::lemma_order_chain(k, l, e, g, f, h);
            scales::lemma_order_chain(f, h, e, g, k, l);
            scales::lemma_order_chain(k, l, f, h, e, g);
            scales::lemma_order_chain(f, h, k, l, e, g);
            scales::lemma_order_chain(i, j, k, l, i, j);
        }
    }
}

/// An exponent that keeps a base near one in reach is far below its own bound.
proof fn lemma_near_exponent(p: nat, q: nat, d: nat, low: nat, c: nat)
    requires
        d > 0,
        low <= c,
        c <= digits::pow10(34) * d,
        d * p < 37062 * (low * q),
    ensures
        p <= digits::pow10(40) * q,
{
    assert(digits::pow10(6) == 1_000_000) by {
        reveal_with_fuel(digits::pow10, 7);
    }
    digits::lemma_pow10_add(34, 6);
    let wide = digits::pow10(34);
    assert(low * q <= (wide * d) * q) by (nonlinear_arith)
        requires
            low <= wide * d,
            q >= 0,
    ;
    assert(d * p < d * (37062 * (wide * q))) by (nonlinear_arith)
        requires
            d * p < 37062 * (low * q),
            low * q <= (wide * d) * q,
    ;
    assert(p < 37062 * (wide * q)) by (nonlinear_arith)
        requires
            d * p < d * (37062 * (wide * q)),
            d > 0,
    ;
    assert(37062 * (wide * q) <= (wide * 1_000_000) * q) by (nonlinear_arith)
        requires
            wide >= 0,
            q >= 0,
    ;
}

} // verus!
