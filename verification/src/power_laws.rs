//! What powers, exponentials and logarithms are, in terms of their operands.

use crate::arithmetic;
use crate::backend;
use crate::decimal;
use crate::decimal::DecimalView;
use crate::digits;
use crate::laws;
use crate::number;
use crate::powers;
use crate::results;
use crate::rounding;
use vstd::prelude::*;

verus! {

/// Whether neither a power nor its reciprocal reaches `10^6145`.
pub open spec fn power_in_range(base: DecimalView, exponent: DecimalView) -> bool {
    !backend::power_at_least(base, exponent, 6145) && !backend::power_at_most(
        base,
        exponent,
        -6145,
    )
}

/// A power in range, to whatever exponent, is the wide type's power of that very base and
/// that very exponent, brought to the format.
pub proof fn law_power_is_of_its_operands(base: DecimalView, exponent: DecimalView)
    requires
        arithmetic::both_nonzero(base, exponent),
        !base.negative(),
        !backend::same_number(base, DecimalView::one()),
        rounding::in_format(base),
        rounding::in_format(exponent),
        base.representable(),
        exponent.representable(),
        power_in_range(base, exponent),
    ensures
        arithmetic::power_value(base, exponent) == rounding::normalized(
            match backend::known_power(base, exponent) {
                Some(v) => v,
                None => backend::power_of(base, exponent),
            },
        ),
{
    powers::lemma_range_holds(base, exponent);
    powers::lemma_weaker(base, exponent, 6177, 6145);
    powers::lemma_weaker(base, exponent, -6145, -6177);
}

/// A power that is out of reach is infinite where it is large and zero where it is small.
pub proof fn law_power_out_of_reach(base: DecimalView, exponent: DecimalView)
    requires
        arithmetic::both_nonzero(base, exponent),
        !base.negative(),
        !backend::same_number(base, DecimalView::one()),
        rounding::in_format(base),
        rounding::in_format(exponent),
        base.representable(),
        exponent.representable(),
    ensures
        backend::power_at_least(base, exponent, 25001) ==> arithmetic::power_value(base, exponent)
            == (if exponent.negative() {
            DecimalView::zero()
        } else {
            DecimalView::Infinite { negative: false }
        }),
        backend::power_at_most(base, exponent, -25001) ==> arithmetic::power_value(base, exponent)
            == (if exponent.negative() {
            DecimalView::Infinite { negative: false }
        } else {
            DecimalView::zero()
        }),
{
    powers::lemma_range_holds(base, exponent);
    lemma_apart_bounds(base, exponent, 25000, 25001);
    lemma_apart_bounds(base, exponent, -25001, -25000);
    lemma_apart_bounds(base, exponent, -25001, 6145);
    lemma_apart_bounds(base, exponent, -6177, 25001);
    lemma_apart_bounds(base, exponent, -25001, 6177);
    lemma_apart_bounds(base, exponent, -6145, 25001);
    results::lemma_zero_beside_one();
    laws::law_format_is_fixed(DecimalView::Infinite { negative: false });
    digits::lemma_pow10_monotonic(0, 34);
    laws::law_format_is_fixed(DecimalView::zero());
}

/// A power is not both at most one bound and at least a higher one.
proof fn lemma_apart_bounds(base: DecimalView, exponent: DecimalView, low: int, high: int)
    requires
        low < high,
        exponent is Finite,
    ensures
        !(backend::power_at_most(base, exponent, low) && backend::power_at_least(
            base,
            exponent,
            high,
        )),
{
    if let DecimalView::Finite { coefficient: c, scale: s, .. } = base {
        let (p, q) = backend::exponent_size(exponent);
        if let DecimalView::Finite { scale: t, .. } = exponent {
            if t >= 0 {
                digits::lemma_pow10_monotonic(t as nat, t as nat);
            }
        }
        assert(s * p + low * q < s * p + high * q) by (nonlinear_arith)
            requires
                low < high,
                q >= 1,
        ;
        if s * p + low * q >= 0 {
            let a = (s * p + low * q) as nat;
            let b = (s * p + high * q) as nat;
            digits::lemma_pow10_monotonic(a, (b - 1) as nat);
            digits::lemma_pow10_monotonic(a, a);
            assert(digits::pow10(b) == 10 * digits::pow10((b - 1) as nat));
        }
    }
}

/// The power of a negative base is that of its size, with the sign that the parity of the
/// exponent gives; without an integer exponent there is none.
pub proof fn law_power_of_negative_base(base: DecimalView, exponent: DecimalView)
    requires
        !(base is NotANumber),
        !base.negative(),
        !base.is_zero(),
        !exponent.is_zero(),
    ensures
        match arithmetic::parity(exponent) {
            None => arithmetic::power_value(base.negated(), exponent) is NotANumber,
            Some(true) => arithmetic::power_value(base.negated(), exponent)
                == arithmetic::power_value(base, exponent),
            Some(false) => arithmetic::power_value(base.negated(), exponent)
                == arithmetic::power_value(base, exponent).negated(),
        },
{
    assert(base.negated().magnitude() == base.magnitude());
}

/// The power to a natural number of 31 bits is the product of as many factors, brought to
/// the format, as long as the product of the coefficients fits in a coefficient.
pub proof fn law_natural_power_is_product(base: DecimalView, exponent: DecimalView, n: nat)
    requires
        arithmetic::both_nonzero(base, exponent),
        !base.negative(),
        !exponent.negative(),
        rounding::in_format(base),
        rounding::in_format(exponent),
        base.representable(),
        exponent.representable(),
        backend::same_number(exponent, results::units(n as int, 0)),
        0 < n <= i32::MAX,
        base matches DecimalView::Finite { coefficient: c, .. } && vstd::arithmetic::power::pow(
            c as int,
            n,
        ) < decimal::coefficient_limit(),
    ensures
        base matches DecimalView::Finite { coefficient: c, scale: s, .. } && backend::same_number(
            rounding::normalized(arithmetic::power_value(base, exponent)),
            rounding::normalized(
                DecimalView::Finite {
                    negative: false,
                    coefficient: vstd::arithmetic::power::pow(c as int, n) as nat,
                    scale: s * n,
                },
            ),
        ),
{
    if let DecimalView::Finite { coefficient: c, scale: s, .. } = base {
        let power = vstd::arithmetic::power::pow(c as int, n) as nat;
        let exact = DecimalView::Finite { negative: false, coefficient: power, scale: s * n };
        let r = rounding::normalized(exact);
        vstd::arithmetic::power::lemma_pow_positive(c as int, n);
        laws::law_equality_is_equivalence(r, r, r);
        lemma_natural(exponent, n);
        laws::law_normalizing_is_idempotent(exact);
        if backend::same_number(base, DecimalView::one()) {
            lemma_natural_power_of_one(base, exponent, n);
        } else {
            lemma_natural_power(base, exponent, n);
        }
    }
}

/// A number that is a natural number is one as an exponent.
proof fn lemma_natural(exponent: DecimalView, n: nat)
    requires
        exponent is Finite,
        !exponent.negative(),
        n > 0,
        backend::same_number(exponent, results::units(n as int, 0)),
    ensures
        backend::natural_exponent(exponent) == Some(n),
{
    if let DecimalView::Finite { coefficient: m, scale: t, .. } = exponent {
        assert(digits::pow10(0) == 1);
        assert(m * 1 == m) by (nonlinear_arith);
        if t > 0 {
            let unit = digits::pow10(t as nat);
            assert((t - 0) as nat == t as nat);
            digits::lemma_pow10_monotonic(t as nat, t as nat);
            assert(m == n * unit);
            rounding::lemma_quotient(n, unit, 0);
        }
    }
}

/// The power of one to a natural number.
proof fn lemma_natural_power_of_one(base: DecimalView, exponent: DecimalView, n: nat)
    requires
        base matches DecimalView::Finite { negative, coefficient: c, .. } && !negative
            && vstd::arithmetic::power::pow(c as int, n) < decimal::coefficient_limit(),
        backend::same_number(base, DecimalView::one()),
        backend::natural_exponent(exponent) == Some(n),
        !exponent.is_zero(),
        0 < n <= i32::MAX,
    ensures
        base matches DecimalView::Finite { coefficient: c, scale: s, .. }
            && arithmetic::power_value(base, exponent) == rounding::normalized(
            DecimalView::Finite {
                negative: false,
                coefficient: vstd::arithmetic::power::pow(c as int, n) as nat,
                scale: s * n,
            },
        ),
{
    if let DecimalView::Finite { coefficient: c, scale: s, .. } = base {
        arithmetic::lemma_one_is_padded(c, s);
        arithmetic::lemma_pow_of_ten(s as nat, n);
        laws::lemma_one_is_not_zero(base);
        assert(s * n >= 0) by (nonlinear_arith)
            requires
                s >= 0,
                n >= 0,
        ;
        let k = (s * n) as nat;
        assert(s as nat * n == k);
        laws::lemma_spill_of_ten(k);
        if k > 77 {
            assert(digits::pow10(k) >= decimal::coefficient_limit());
        }
    }
}

/// The power of a base other than one to a natural number.
proof fn lemma_natural_power(base: DecimalView, exponent: DecimalView, n: nat)
    requires
        arithmetic::both_nonzero(base, exponent),
        !base.negative(),
        !exponent.negative(),
        !backend::same_number(base, DecimalView::one()),
        rounding::in_format(base),
        rounding::in_format(exponent),
        base.representable(),
        exponent.representable(),
        backend::natural_exponent(exponent) == Some(n),
        0 < n <= i32::MAX,
        base matches DecimalView::Finite { coefficient: c, .. } && vstd::arithmetic::power::pow(
            c as int,
            n,
        ) < decimal::coefficient_limit(),
    ensures
        base matches DecimalView::Finite { coefficient: c, scale: s, .. }
            && arithmetic::power_value(base, exponent) == rounding::normalized(
            DecimalView::Finite {
                negative: false,
                coefficient: vstd::arithmetic::power::pow(c as int, n) as nat,
                scale: s * n,
            },
        ),
{
    if let DecimalView::Finite { coefficient: c, scale: s, .. } = base {
        let power = vstd::arithmetic::power::pow(c as int, n) as nat;
        let range = powers::range_of(base, exponent);
        let (p, q) = backend::exponent_size(exponent);
        vstd::arithmetic::power::lemma_pow_positive(c as int, n);
        powers::lemma_range_holds(base, exponent);
        arithmetic::lemma_natural_size(exponent);
        digits::lemma_pow10_monotonic(0, 34);
        laws::law_format_is_fixed(DecimalView::zero());
        if range is Above {
            lemma_places(s, n, p, q, 6145);
            laws::lemma_whole_power(c, n, q, s * n + 6145);
            laws::law_above_range_is_infinite(false, power, s * n);
        } else if range is Below {
            lemma_places(s, n, p, q, -6177);
            laws::lemma_whole_power(c, n, q, s * n - 6177);
            laws::law_below_range_is_zero(false, power, s * n);
        } else {
            lemma_places(s, n, p, q, 25000);
            lemma_places(s, n, p, q, -25000);
            laws::lemma_whole_power(c, n, q, s * n + 25000);
            laws::lemma_whole_power(c, n, q, s * n - 25000);
            rounding::lemma_coefficient_digits(power);
            if s * n - 25000 >= 0 {
                digits::lemma_digit_count_at_most(power, (s * n - 25000) as nat);
            }
            if n == 2 {
                laws::law_product_is_rounded_once(base, base);
                vstd::arithmetic::power::lemma_square_is_pow2(c as int);
                assert(s + s == s * n) by (nonlinear_arith)
                    requires
                        n == 2,
                ;
            }
        }
    }
}

/// The places that a power to a natural number is compared at.
proof fn lemma_places(s: int, n: nat, p: nat, q: nat, k: int)
    requires
        p == n * q,
        q >= 1,
    ensures
        (s * n + k) * q == s * p + k * q,
        s * n + k < 0 ==> s * p + k * q < 0,
        s * n + k >= 0 ==> s * p + k * q >= 0,
{
    let a = s * n + k;
    assert(a * q == s * p + k * q) by (nonlinear_arith)
        requires
            a == s * n + k,
            p == n * q,
    ;
    assert((a < 0 ==> a * q < 0) && (a >= 0 ==> a * q >= 0)) by (nonlinear_arith)
        requires
            q >= 1,
    ;
}

/// An exponential in range is the wide type's exponential of that very argument; from
/// 14150 on it is infinite, from -14224 down zero, and that of zero is one.
pub proof fn law_exponential_is_of_its_argument(v: DecimalView)
    requires
        v is Finite,
    ensures
        v.is_zero() ==> arithmetic::raw_exponential(v) == DecimalView::one(),
        arithmetic::number_order(v, results::units(14150, 0)) >= 0 ==> arithmetic::raw_exponential(
            v,
        ) == (DecimalView::Infinite { negative: false }),
        arithmetic::number_order(v, results::units(-14224, 0)) <= 0 ==> arithmetic::raw_exponential(
            v,
        ) == DecimalView::zero(),
        !v.is_zero() && arithmetic::number_order(v, results::units(14150, 0)) < 0
            && arithmetic::number_order(v, results::units(-14224, 0)) > 0
            ==> arithmetic::raw_exponential(v) == backend::exponential_of(v),
{
    number::lemma_order_to_zero(v);
    if let DecimalView::Finite { coefficient: c, scale: s, .. } = v {
        if c == 0 {
            results::lemma_zero_below(14150, 0, s);
            results::lemma_zero_below(14224, 0, s);
        }
    }
}

/// The logarithm of a positive number is the wide type's logarithm of that very number;
/// that of one is zero, that of zero the negative infinity, and a negative number has
/// none.
pub proof fn law_logarithm_is_of_its_argument(v: DecimalView)
    requires
        v is Finite,
    ensures
        v == DecimalView::one() ==> arithmetic::logarithm_value(v) == DecimalView::zero(),
        v.is_zero() ==> arithmetic::logarithm_value(v) == (DecimalView::Infinite {
            negative: true,
        }),
        !v.is_zero() && v.negative() ==> arithmetic::logarithm_value(v) is NotANumber,
        !v.is_zero() && !v.negative() && v != DecimalView::one() ==> arithmetic::logarithm_value(v)
            == backend::logarithm_of(v),
{
}

/// With an infinite exponent a base beyond one grows without bound and one within one
/// vanishes, and the other way round with the negative infinity.
pub proof fn law_infinite_exponent(base: DecimalView, exponent: DecimalView)
    requires
        base is Finite,
        !base.is_zero(),
        !base.negative(),
        exponent is Infinite,
    ensures
        backend::magnitude_order(base, DecimalView::one()) > 0 ==> arithmetic::power_value(
            base,
            exponent,
        ) == (if exponent.negative() {
            DecimalView::zero()
        } else {
            DecimalView::Infinite { negative: false }
        }),
        backend::magnitude_order(base, DecimalView::one()) < 0 ==> arithmetic::power_value(
            base,
            exponent,
        ) == (if exponent.negative() {
            DecimalView::Infinite { negative: false }
        } else {
            DecimalView::zero()
        }),
{
    digits::lemma_pow10_monotonic(0, 34);
    laws::law_format_is_fixed(DecimalView::zero());
}

/// An infinite base to a positive exponent is infinite, and to a negative one zero.
pub proof fn law_infinite_base(base: DecimalView, exponent: DecimalView)
    requires
        base is Infinite,
        !base.negative(),
        exponent is Finite,
        !exponent.is_zero(),
    ensures
        arithmetic::power_value(base, exponent) == (if exponent.negative() {
            DecimalView::zero()
        } else {
            base
        }),
{
    digits::lemma_pow10_monotonic(0, 34);
    laws::law_format_is_fixed(DecimalView::zero());
}

/// A power is the wide type's power of its operands, brought to the format, or it is
/// infinite or zero where it truly lies above or below the format's range.
pub proof fn law_power_is_computed_or_out_of_range(base: DecimalView, exponent: DecimalView)
    requires
        arithmetic::both_nonzero(base, exponent),
        !base.negative(),
        !backend::same_number(base, DecimalView::one()),
        rounding::in_format(base),
        rounding::in_format(exponent),
        base.representable(),
        exponent.representable(),
    ensures
        ({
            let r = arithmetic::power_value(base, exponent);
            ||| r == rounding::normalized(backend::wide_power(base, exponent))
            ||| r == (DecimalView::Infinite { negative: false }) && (if exponent.negative() {
                backend::power_at_most(base, exponent, -6145)
            } else {
                backend::power_at_least(base, exponent, 6145)
            })
            ||| r == DecimalView::zero() && (if exponent.negative() {
                backend::power_at_least(base, exponent, 6177)
            } else {
                backend::power_at_most(base, exponent, -6177)
            })
        }),
{
    powers::lemma_range_holds(base, exponent);
    digits::lemma_pow10_monotonic(0, 34);
    laws::law_format_is_fixed(DecimalView::zero());
}

} // verus!
