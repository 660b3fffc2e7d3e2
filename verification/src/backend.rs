//! The calls into `fastnum`, whose 256-bit decimal does the wide arithmetic.
//!
//! Each function here hands plain [`Decimal`] parts to one operation of
//! `fastnum::D256` and takes plain parts back. Every operand carries the same
//! context: half-even, and no traps, so that a signalled operation answers an
//! infinity or a NaN instead of a panic.

use crate::decimal;
use crate::decimal::{Decimal, DecimalView};
use crate::digits;
use crate::grammar;
use crate::grammar::Literal;
use fastnum::decimal::{Context, RoundingMode, Sign};
use fastnum::{D256, U256};
use std::cmp::Ordering;
use std::ops::Neg;
use vstd::prelude::*;

verus! {

/// How many zeros can be appended to a positive coefficient before it leaves 256 bits.
pub open spec fn room(c: nat) -> nat
    decreases decimal::coefficient_limit() - c,
{
    if 0 < c && c * 10 < decimal::coefficient_limit() {
        1 + room(c * 10)
    } else {
        0
    }
}

/// `c * 10^-s` with zeros appended until its scale is `target`, or until the
/// coefficient is full. A zero always reaches the target.
pub open spec fn widened(negative: bool, c: nat, s: int, target: int) -> DecimalView {
    if target <= s {
        DecimalView::Finite { negative, coefficient: c, scale: s }
    } else if c == 0 {
        DecimalView::Finite { negative, coefficient: 0, scale: target }
    } else {
        let k = if target - s <= room(c) {
            (target - s) as nat
        } else {
            room(c)
        };
        DecimalView::Finite { negative, coefficient: c * digits::pow10(k), scale: s + k }
    }
}

/// What the type makes of a coefficient and an exponent of any size: the exponent
/// saturates on a zero, a value too small becomes zero, one too large takes zeros
/// into its coefficient as far as they fit and is infinite beyond that.
pub open spec fn constructed(negative: bool, c: nat, exponent: int) -> DecimalView {
    if c == 0 {
        let scale = if exponent > 32768 {
            -32768int
        } else if exponent <= -32768 {
            32767
        } else {
            -exponent
        };
        DecimalView::Finite { negative, coefficient: 0, scale }
    } else if exponent < -32767 {
        DecimalView::Finite { negative, coefficient: 0, scale: 0 }
    } else if exponent <= 32768 {
        DecimalView::Finite { negative, coefficient: c, scale: -exponent }
    } else if exponent - 32768 <= room(c) {
        DecimalView::Finite {
            negative,
            coefficient: c * digits::pow10((exponent - 32768) as nat),
            scale: -32768,
        }
    } else {
        DecimalView::Infinite { negative }
    }
}

/// How `a * 10^-s` stands to `b * 10^-t`.
pub open spec fn finite_order(a: nat, s: int, b: nat, t: int) -> int {
    let x = if s < t {
        a * digits::pow10((t - s) as nat)
    } else {
        a
    };
    let y = if t < s {
        b * digits::pow10((s - t) as nat)
    } else {
        b
    };
    if x < y {
        -1
    } else if x == y {
        0
    } else {
        1
    }
}

/// How two magnitudes stand to each other: a NaN is above an infinity, an infinity
/// above every finite value.
pub open spec fn magnitude_order(a: DecimalView, b: DecimalView) -> int {
    match (a, b) {
        (DecimalView::NotANumber { .. }, DecimalView::NotANumber { .. }) => 0,
        (DecimalView::NotANumber { .. }, _) => 1,
        (_, DecimalView::NotANumber { .. }) => -1,
        (DecimalView::Infinite { .. }, DecimalView::Infinite { .. }) => 0,
        (DecimalView::Infinite { .. }, _) => 1,
        (_, DecimalView::Infinite { .. }) => -1,
        (
            DecimalView::Finite { coefficient: c, scale: s, .. },
            DecimalView::Finite { coefficient: d, scale: t, .. },
        ) => finite_order(c, s, d, t),
    }
}

/// The order of the type: the sign decides first, so that `-0` is below `0`.
pub open spec fn sign_first_order(a: DecimalView, b: DecimalView) -> int {
    if a.negative() && !b.negative() {
        -1
    } else if !a.negative() && b.negative() {
        1
    } else if a.negative() {
        -magnitude_order(a, b)
    } else {
        magnitude_order(a, b)
    }
}

/// The equality of the type: a NaN equals nothing, zeros are equal whatever their
/// sign, other values are equal where sign and magnitude are.
pub open spec fn same_number(a: DecimalView, b: DecimalView) -> bool {
    if a is NotANumber || b is NotANumber {
        false
    } else if a.is_zero() && b.is_zero() {
        true
    } else {
        a.negative() == b.negative() && magnitude_order(a, b) == 0
    }
}

/// Whether a sum has no value: an operand is not a number, or the operands are
/// infinities of different sign.
pub open spec fn sum_undefined(a: DecimalView, b: DecimalView) -> bool {
    ||| a is NotANumber
    ||| b is NotANumber
    ||| a is Infinite && b is Infinite && a.negative() != b.negative()
}

/// The sum of two finite values at the larger of their scales, however long it is.
pub open spec fn exact_sum(a: DecimalView, b: DecimalView) -> DecimalView {
    match (a, b) {
        (
            DecimalView::Finite { negative: m, coefficient: c, scale: s },
            DecimalView::Finite { negative: n, coefficient: d, scale: t },
        ) => {
            let scale = if s < t {
                t
            } else {
                s
            };
            let total = decimal::signed(m, c * digits::pow10((scale - s) as nat))
                + decimal::signed(n, d * digits::pow10((scale - t) as nat));
            DecimalView::Finite {
                negative: total < 0,
                coefficient: vstd::math::abs(total) as nat,
                scale,
            }
        },
        _ => DecimalView::NotANumber { negative: false },
    }
}

/// The scale at which two finite values meet: the larger of theirs, or as near to it
/// as the coefficient of the smaller scale has room for zeros.
pub open spec fn aligned_scale(a: DecimalView, b: DecimalView) -> int {
    match (a, b) {
        (
            DecimalView::Finite { coefficient: c, scale: s, .. },
            DecimalView::Finite { coefficient: d, scale: t, .. },
        ) => if s <= t {
            if t - s <= room(c) {
                t
            } else {
                s + room(c)
            }
        } else if s - t <= room(d) {
            s
        } else {
            t + room(d)
        },
        _ => 0,
    }
}

/// The sum of two finite values without the digits past the scale at which they meet,
/// and without one more where it does not fit in a coefficient; known as far as those
/// digits are zeros.
pub open spec fn shortened_sum(a: DecimalView, b: DecimalView) -> Option<DecimalView> {
    match exact_sum(a, b) {
        DecimalView::Finite { negative, coefficient, scale } => {
            let past = (scale - aligned_scale(a, b)) as nat;
            let dropped = if coefficient / digits::pow10(past) < decimal::coefficient_limit() {
                past
            } else {
                past + 1
            };
            if coefficient % digits::pow10(dropped) == 0 && scale - dropped >= i16::MIN {
                Some(
                    DecimalView::Finite {
                        negative,
                        coefficient: coefficient / digits::pow10(dropped),
                        scale: scale - dropped,
                    },
                )
            } else {
                None
            }
        },
        _ => None,
    }
}

/// Whether a sum that is not exact is known within a few units: of the operand with
/// the larger scale at most 34 digits stand above the scale at which the two meet.
pub open spec fn nearly_known(a: DecimalView, b: DecimalView) -> bool {
    match (a, b) {
        (
            DecimalView::Finite { coefficient: c, scale: s, .. },
            DecimalView::Finite { coefficient: d, scale: t, .. },
        ) => {
            let past = (if s < t {
                t
            } else {
                s
            }) - aligned_scale(a, b);
            let later = if s <= t {
                d
            } else {
                c
            };
            &&& c > 0 && d > 0
            &&& aligned_scale(a, b) > i16::MIN
            &&& past == 0 || later < digits::pow10((past + 34) as nat)
        },
        _ => false,
    }
}

/// Whether a value is the sum of two finite values within 20 units at the scale at
/// which they meet, and has that scale or the one before.
pub open spec fn near_sum(a: DecimalView, b: DecimalView, r: DecimalView) -> bool {
    match (exact_sum(a, b), r) {
        (
            DecimalView::Finite { negative: m, coefficient: c, scale },
            DecimalView::Finite { negative: n, coefficient: e, scale: u },
        ) => {
            let met = aligned_scale(a, b);
            let unit = digits::pow10((scale - met) as nat);
            &&& m == n
            &&& met - 1 <= u <= met
            &&& -20 * unit <= e * digits::pow10((scale - u) as nat) - c <= 20 * unit
        },
        _ => false,
    }
}

/// The sum of two finite values, as far as it is exact. The scale is the larger of
/// the two, or the one at which the values meet; a zero operand widens the other one
/// as far as its coefficient has room.
pub open spec fn finite_sum(a: DecimalView, b: DecimalView) -> Option<DecimalView> {
    match (a, b) {
        (
            DecimalView::Finite { negative: m, coefficient: c, scale: s },
            DecimalView::Finite { negative: n, coefficient: d, scale: t },
        ) => {
            let scale = if s < t {
                t
            } else {
                s
            };
            if c == 0 && d == 0 {
                Some(DecimalView::Finite { negative: m && n, coefficient: 0, scale })
            } else if c == 0 {
                Some(widened(n, d, t, s))
            } else if d == 0 {
                Some(widened(m, c, s, t))
            } else {
                let x = c * digits::pow10((scale - s) as nat);
                let y = d * digits::pow10((scale - t) as nat);
                let total = decimal::signed(m, x) + decimal::signed(n, y);
                let coefficient = if total < 0 {
                    (-total) as nat
                } else {
                    total as nat
                };
                let limit = decimal::coefficient_limit();
                if x < limit && y < limit && coefficient < limit {
                    Some(DecimalView::Finite { negative: total < 0, coefficient, scale })
                } else {
                    shortened_sum(a, b)
                }
            }
        },
        _ => None,
    }
}

/// The sum, where it is known without rounding.
pub open spec fn known_sum(a: DecimalView, b: DecimalView) -> Option<DecimalView> {
    if sum_undefined(a, b) {
        None
    } else if a is Infinite {
        Some(a)
    } else if b is Infinite {
        Some(b)
    } else {
        finite_sum(a, b)
    }
}

/// Whether the scales of two operands are close enough to be aligned.
pub open spec fn alignable(a: DecimalView, b: DecimalView) -> bool {
    match (a, b) {
        (
            DecimalView::Finite { coefficient: c, scale: s, .. },
            DecimalView::Finite { coefficient: d, scale: t, .. },
        ) => c > 0 && d > 0 ==> -32767 <= s - t <= 32767,
        _ => true,
    }
}

/// Whether two operands can be aligned, and their sum is known: it has no value, is
/// exact, or is known within a few units.
pub open spec fn summable(a: DecimalView, b: DecimalView) -> bool {
    alignable(a, b) && (sum_undefined(a, b) || known_sum(a, b) is Some || nearly_known(a, b))
}

/// Whether a product has no value: an operand is not a number, or an infinity
/// meets a zero.
pub open spec fn product_undefined(a: DecimalView, b: DecimalView) -> bool {
    ||| a is NotANumber
    ||| b is NotANumber
    ||| a is Infinite && b.is_zero()
    ||| a.is_zero() && b is Infinite
}

/// How many digits of a product have to go before the rest fits in a coefficient.
pub open spec fn spill(p: nat) -> nat
    decreases p,
{
    if p < decimal::coefficient_limit() {
        0
    } else {
        1 + spill(p / 10)
    }
}

/// The product, where it is known without rounding: the product of the coefficients
/// fits in a coefficient, or only zeros have to go before it does.
pub open spec fn known_product(a: DecimalView, b: DecimalView) -> Option<DecimalView> {
    let negative = a.negative() != b.negative();
    if product_undefined(a, b) {
        None
    } else if a is Infinite || b is Infinite {
        Some(DecimalView::Infinite { negative })
    } else {
        match (a, b) {
            (
                DecimalView::Finite { coefficient: c, scale: s, .. },
                DecimalView::Finite { coefficient: d, scale: t, .. },
            ) => {
                let unit = digits::pow10(spill(c * d));
                if c * d < decimal::coefficient_limit() {
                    Some(constructed(negative, c * d, -(s + t)))
                } else if (c * d) % unit == 0 {
                    Some(constructed(negative, (c * d) / unit, spill(c * d) - (s + t)))
                } else {
                    None
                }
            },
            _ => None,
        }
    }
}

/// Whether a quotient has no value: an operand is not a number, or both are infinite.
pub open spec fn quotient_undefined(a: DecimalView, b: DecimalView) -> bool {
    ||| a is NotANumber
    ||| b is NotANumber
    ||| a is Infinite && b is Infinite
}

/// The quotient, where it is known without rounding: a zero divisor gives an
/// infinity, a zero dividend or a divisor of exactly one gives the dividend, an
/// infinite dividend an infinity and an infinite divisor a zero. Where one
/// coefficient divides the other, the quotient has the scales' difference for its
/// scale.
pub open spec fn known_quotient(a: DecimalView, b: DecimalView) -> Option<DecimalView> {
    let negative = a.negative() != b.negative();
    if quotient_undefined(a, b) {
        None
    } else if b.is_zero() {
        Some(DecimalView::Infinite { negative })
    } else if a.is_zero() || b == DecimalView::one() {
        Some(a.with_sign(negative))
    } else if a is Infinite {
        Some(DecimalView::Infinite { negative })
    } else if b is Infinite {
        Some(DecimalView::Finite { negative, coefficient: 0, scale: 0 })
    } else {
        match (a, b) {
            (
                DecimalView::Finite { coefficient: c, scale: s, .. },
                DecimalView::Finite { coefficient: d, scale: t, .. },
            ) => if c % d == 0 {
                Some(constructed(negative, c / d, t - s))
            } else {
                None
            },
            _ => None,
        }
    }
}

/// Whether `c * 10^j / d` is a whole number of at most 75 digits.
pub open spec fn divides_at(c: nat, d: nat, j: nat) -> bool {
    (c * digits::pow10(j)) % d == 0 && c * digits::pow10(j) / d < digits::pow10(75)
}

/// Whether `e * 10^-k` is what long division leaves of `c / d`: the exact quotient, or
/// at least 76 digits of one that does not end within 75, good to a hundred units of
/// the last.
pub open spec fn long_quotient(c: nat, d: nat, e: nat, k: nat) -> bool {
    let gap = e * d - c * digits::pow10(k);
    ||| gap == 0
    ||| {
        &&& e >= digits::pow10(75)
        &&& -100 * d <= gap <= 100 * d
        &&& forall|j: nat| !#[trigger] divides_at(c, d, j)
    }
}

/// Whether two values are finite and not zero, with scales that keep a quotient within
/// the range of the type.
pub open spec fn ordinary(a: DecimalView, b: DecimalView) -> bool {
    match (a, b) {
        (
            DecimalView::Finite { coefficient: c, scale: s, .. },
            DecimalView::Finite { coefficient: d, scale: t, .. },
        ) => {
            &&& c > 0
            &&& d > 0
            &&& -32000 <= s - t <= 32000
        },
        _ => false,
    }
}

/// Whether a value is the quotient of two ordinary ones by long division.
pub open spec fn divided(a: DecimalView, b: DecimalView, q: DecimalView) -> bool {
    match (a, b, q) {
        (
            DecimalView::Finite { negative: m, coefficient: c, scale: s },
            DecimalView::Finite { negative: n, coefficient: d, scale: t },
            DecimalView::Finite { negative, coefficient: e, scale: u },
        ) => negative == (m != n) && u >= s - t && long_quotient(c, d, e, (u - (s - t)) as nat),
        _ => false,
    }
}

/// The product that `fastnum` gives.
pub uninterp spec fn product_of(a: DecimalView, b: DecimalView) -> DecimalView;

/// The quotient that `fastnum` gives.
pub uninterp spec fn quotient_of(a: DecimalView, b: DecimalView) -> DecimalView;

/// The square root that `fastnum` gives.
pub uninterp spec fn root_of(d: DecimalView) -> DecimalView;

/// The natural logarithm that `fastnum` gives.
pub uninterp spec fn logarithm_of(d: DecimalView) -> DecimalView;

/// The natural exponential that `fastnum` gives.
pub uninterp spec fn exponential_of(d: DecimalView) -> DecimalView;

/// The power that `fastnum` gives.
pub uninterp spec fn power_of(base: DecimalView, exponent: DecimalView) -> DecimalView;

/// What `fastnum` reads in a text, or `None` where it refuses the text.
pub uninterp spec fn parsed(text: Seq<char>) -> Option<DecimalView>;

/// `fastnum`'s `+` on `D256`.
///
/// A sum without a value is not a number. An infinite operand gives an infinity. A
/// finite sum is exact, at the larger scale, as long as aligning the operands and
/// adding them stays within 256 bits. Beyond that the operand with the smaller scale
/// takes as many zeros as it has room for, and the digits that the other one has past
/// that are rounded away, with one more where the sum still does not fit: the result is
/// exact where those are zeros, and otherwise within a few units.
#[verifier::external_body]
pub(crate) fn sum(a: Decimal, b: Decimal) -> (s: Decimal)
    requires
        summable(a@, b@),
    ensures
        sum_undefined(a@, b@) ==> s@ is NotANumber,
        known_sum(a@, b@) matches Some(v) ==> s@ == v,
        !sum_undefined(a@, b@) && known_sum(a@, b@) is None ==> near_sum(a@, b@, s@),
{
    let ctx = Context::default().with_rounding_mode(RoundingMode::HalfEven).without_traps();
    let [x, y] = [a, b].map(|d| {
        let m = match (d.nan, d.infinite) {
            (true, _) => D256::NAN,
            (_, true) => D256::INFINITY,
            _ => D256::from_parts(U256::from_digits(d.limbs), -i32::from(d.scale), Sign::Plus, ctx),
        };
        if d.negative { m.neg().with_ctx(ctx) } else { m.with_ctx(ctx) }
    });
    let r = x + y;
    Decimal { nan: r.is_nan(), infinite: r.is_infinite(), negative: r.is_sign_negative(),
        limbs: *r.digits().digits(), scale: r.fractional_digits_count() }
}

/// `fastnum`'s `-` on `D256`: the sum with the sign of the second operand flipped,
/// exact where that sum is and within a few units where that sum is.
#[verifier::external_body]
pub(crate) fn difference(a: Decimal, b: Decimal) -> (s: Decimal)
    requires
        summable(a@, b@.negated()),
    ensures
        sum_undefined(a@, b@.negated()) ==> s@ is NotANumber,
        known_sum(a@, b@.negated()) matches Some(v) ==> s@ == v,
        !sum_undefined(a@, b@.negated()) && known_sum(a@, b@.negated()) is None ==> near_sum(
            a@,
            b@.negated(),
            s@,
        ),
{
    let ctx = Context::default().with_rounding_mode(RoundingMode::HalfEven).without_traps();
    let [x, y] = [a, b].map(|d| {
        let m = match (d.nan, d.infinite) {
            (true, _) => D256::NAN,
            (_, true) => D256::INFINITY,
            _ => D256::from_parts(U256::from_digits(d.limbs), -i32::from(d.scale), Sign::Plus, ctx),
        };
        if d.negative { m.neg().with_ctx(ctx) } else { m.with_ctx(ctx) }
    });
    let r = x - y;
    Decimal { nan: r.is_nan(), infinite: r.is_infinite(), negative: r.is_sign_negative(),
        limbs: *r.digits().digits(), scale: r.fractional_digits_count() }
}

/// `fastnum`'s `*` on `D256`.
///
/// A product without a value is not a number. An infinite operand gives an infinity.
/// A finite product is exact, its scale the sum of the scales, as long as the product
/// of the coefficients fits in 256 bits. A longer one loses its last digits until it
/// fits, and is exact as long as those are zeros; beyond that the result has its name
/// only.
#[verifier::external_body]
pub(crate) fn product(a: Decimal, b: Decimal) -> (p: Decimal)
    ensures
        p@ == product_of(a@, b@),
        product_undefined(a@, b@) ==> p@ is NotANumber,
        known_product(a@, b@) matches Some(v) ==> p@ == v,
{
    let ctx = Context::default().with_rounding_mode(RoundingMode::HalfEven).without_traps();
    let [x, y] = [a, b].map(|d| {
        let m = match (d.nan, d.infinite) {
            (true, _) => D256::NAN,
            (_, true) => D256::INFINITY,
            _ => D256::from_parts(U256::from_digits(d.limbs), -i32::from(d.scale), Sign::Plus, ctx),
        };
        if d.negative { m.neg().with_ctx(ctx) } else { m.with_ctx(ctx) }
    });
    let r = x * y;
    Decimal { nan: r.is_nan(), infinite: r.is_infinite(), negative: r.is_sign_negative(),
        limbs: *r.digits().digits(), scale: r.fractional_digits_count() }
}

/// `fastnum`'s `/` on `D256`.
///
/// Zeros, infinities, NaNs and a divisor of one settle the result, and a coefficient
/// that the other one divides gives an exact quotient. Of other values it is by long
/// division, which goes on until nothing is left or the coefficient is full; for
/// ordinary values the contract says how near that comes. A zero divided by a zero is
/// an infinity here.
#[verifier::external_body]
pub(crate) fn quotient(a: Decimal, b: Decimal) -> (q: Decimal)
    ensures
        q@ == quotient_of(a@, b@),
        quotient_undefined(a@, b@) ==> q@ is NotANumber,
        known_quotient(a@, b@) matches Some(v) ==> q@ == v,
        ordinary(a@, b@) ==> divided(a@, b@, q@),
{
    let ctx = Context::default().with_rounding_mode(RoundingMode::HalfEven).without_traps();
    let [x, y] = [a, b].map(|d| {
        let m = match (d.nan, d.infinite) {
            (true, _) => D256::NAN,
            (_, true) => D256::INFINITY,
            _ => D256::from_parts(U256::from_digits(d.limbs), -i32::from(d.scale), Sign::Plus, ctx),
        };
        if d.negative { m.neg().with_ctx(ctx) } else { m.with_ctx(ctx) }
    });
    let r = x / y;
    Decimal { nan: r.is_nan(), infinite: r.is_infinite(), negative: r.is_sign_negative(),
        limbs: *r.digits().digits(), scale: r.fractional_digits_count() }
}

/// Whether a magnitude is within `times / 10^places` of another, as a part of the other.
pub open spec fn close(a: nat, s: int, b: nat, t: int, places: nat, times: nat) -> bool {
    let w = if s < t {
        t
    } else {
        s
    };
    let x = a * digits::pow10((w - s) as nat);
    let y = b * digits::pow10((w - t) as nat);
    -times * y <= (x - y) * digits::pow10(places) <= times * y
}

/// Whether a positive value squares to another within `times / 10^places` of it.
pub open spec fn squares_to(r: DecimalView, v: DecimalView, places: nat, times: nat) -> bool {
    match (r, v) {
        (
            DecimalView::Finite { negative, coefficient: x, scale: u },
            DecimalView::Finite { coefficient: c, scale: s, .. },
        ) => !negative && x > 0 && close(x * x, 2 * u, c, s, places, times),
        _ => false,
    }
}

/// Whether a value is finite and at least two.
pub open spec fn at_least_two(d: DecimalView) -> bool {
    d matches DecimalView::Finite { negative, coefficient, scale } && !negative && coefficient > 0
        && finite_order(coefficient, scale, 2, 0) >= 0
}

/// Whether a value is positive and at most one half.
pub open spec fn at_most_half(d: DecimalView) -> bool {
    d matches DecimalView::Finite { negative, coefficient, scale } && !negative && coefficient > 0
        && finite_order(coefficient, scale, 5, 1) <= 0
}

/// Whether a value is not negative and stands to one as said: at or above it where `up`
/// is set, and otherwise at or below it.
pub open spec fn beside_one(q: DecimalView, up: bool) -> bool {
    &&& !(q is NotANumber) && !q.negative()
    &&& up ==> magnitude_order(q, DecimalView::one()) >= 0
    &&& !up ==> magnitude_order(q, DecimalView::one()) <= 0
}

/// Whether a positive value lies from one to below a hundred.
pub open spec fn from_one_to_hundred(d: DecimalView) -> bool {
    d matches DecimalView::Finite { negative, coefficient, scale } && !negative && finite_order(
        coefficient,
        scale,
        1,
        0,
    ) >= 0 && finite_order(coefficient, scale, 100, 0) < 0
}

/// `fastnum`'s `D256::sqrt`.
///
/// A zero, an infinity and exactly one are their own roots, a negative value has none.
/// From one to below a hundred the root is found by Heron's method, and its square is
/// the value to 50 digits; beyond that a root has its name only.
#[verifier::external_body]
pub(crate) fn root(d: Decimal) -> (q: Decimal)
    ensures
        q@ == root_of(d@),
        d@.is_zero() || d@ is Infinite || d@ == DecimalView::one() ==> q@ == d@,
        d@ is NotANumber ==> q@ is NotANumber,
        d@ is Finite && !d@.is_zero() && d@.negative() ==> q@ is NotANumber,
        from_one_to_hundred(d@) ==> squares_to(q@, d@, 50, 1),
{
    let ctx = Context::default().with_rounding_mode(RoundingMode::HalfEven).without_traps();
    let m = match (d.nan, d.infinite) {
        (true, _) => D256::NAN,
        (_, true) => D256::INFINITY,
        _ => D256::from_parts(U256::from_digits(d.limbs), -i32::from(d.scale), Sign::Plus, ctx),
    };
    let x = if d.negative { m.neg().with_ctx(ctx) } else { m.with_ctx(ctx) };
    let r = x.sqrt();
    Decimal { nan: r.is_nan(), infinite: r.is_infinite(), negative: r.is_sign_negative(),
        limbs: *r.digits().digits(), scale: r.fractional_digits_count() }
}

/// `fastnum`'s `D256::ln`.
///
/// A zero gives the negative infinity, exactly one gives zero, a negative value has
/// no logarithm. The logarithm of a value from two on is positive, that of one up to a
/// half negative; beyond that a logarithm has its name only.
#[verifier::external_body]
pub(crate) fn logarithm(d: Decimal) -> (q: Decimal)
    ensures
        q@ == logarithm_of(d@),
        d@.is_zero() ==> q@ == (DecimalView::Infinite { negative: true }),
        d@ == DecimalView::one() ==> q@ == DecimalView::zero(),
        d@ is NotANumber ==> q@ is NotANumber,
        d@ is Finite && !d@.is_zero() && d@.negative() ==> q@ is NotANumber,
        at_least_two(d@) ==> q@ is Finite && !q@.negative() && !q@.is_zero(),
        at_most_half(d@) ==> q@ is Finite && q@.negative() && !q@.is_zero(),
{
    let ctx = Context::default().with_rounding_mode(RoundingMode::HalfEven).without_traps();
    let m = match (d.nan, d.infinite) {
        (true, _) => D256::NAN,
        (_, true) => D256::INFINITY,
        _ => D256::from_parts(U256::from_digits(d.limbs), -i32::from(d.scale), Sign::Plus, ctx),
    };
    let x = if d.negative { m.neg().with_ctx(ctx) } else { m.with_ctx(ctx) };
    let r = x.ln();
    Decimal { nan: r.is_nan(), infinite: r.is_infinite(), negative: r.is_sign_negative(),
        limbs: *r.digits().digits(), scale: r.fractional_digits_count() }
}

/// Where one of two characters first stands in a text, or the text's length.
pub open spec fn first_of(s: Seq<char>, a: char, b: char) -> nat
    decreases s.len(),
{
    if s.len() == 0 || s[0] == a || s[0] == b {
        0
    } else {
        1 + first_of(s.skip(1), a, b)
    }
}

/// How many digits a text holds.
pub open spec fn digits_in(s: Seq<char>) -> nat
    decreases s.len(),
{
    if s.len() == 0 {
        0
    } else {
        digits_in(s.drop_last()) + (if digits::is_digit(s.last()) {
            1nat
        } else {
            0
        })
    }
}

/// How many fraction digits stand before the exponent of a literal.
pub open spec fn fraction_digits(text: Seq<char>) -> nat {
    let point = first_of(text, '.', '.') as int;
    let mark = first_of(text, 'e', 'E') as int;
    if point < mark {
        digits_in(text.subrange(point + 1, mark))
    } else {
        0
    }
}

/// Whether the exponent of a literal leaves 32 bits once its fraction digits are
/// counted: `0.5E-2147483648` does.
pub open spec fn exponent_underflows(text: Seq<char>) -> bool {
    let mark = first_of(text, 'e', 'E') as int;
    let tail = text.skip(mark + 2);
    &&& mark + 2 < text.len()
    &&& text[mark + 1] == '-'
    &&& digits::all_digits(tail)
    &&& digits::value(tail) <= 0x8000_0000 < digits::value(tail) + fraction_digits(text)
}

/// What a literal may look like for it to be read at all.
pub open spec fn readable(text: Seq<char>) -> bool {
    text.len() <= 0x7fff_ffff && !exponent_underflows(text)
}

/// `fastnum`'s `D256::from_str`.
///
/// A literal is worth its digits at its exponent, and is refused only where the digits
/// or the exponent do not fit or the value lies above the range of the type. No other
/// text is read as a finite value: an infinity and a NaN have texts of their own, which
/// the name covers.
#[verifier::external_body]
pub(crate) fn parse(text: &str) -> (r: Option<Decimal>)
    requires
        readable(text@),
    ensures
        match r {
            Some(d) => parsed(text@) == Some(d@),
            None => parsed(text@) is None,
        },
        forall|l: Literal|
            l.well_formed() && text@ == #[trigger] l.text() ==> match r {
                Some(d) => l.value() == Some(d@),
                None => l.value() is None,
            },
        !grammar::is_literal(text@) ==> (r matches Some(d) ==> !(d@ is Finite)),
{
    let ctx = Context::default().with_rounding_mode(RoundingMode::HalfEven).without_traps();
    match D256::from_str(text, ctx) {
        Ok(r) => Some(Decimal { nan: r.is_nan(), infinite: r.is_infinite(), negative: r.is_sign_negative(),
            limbs: *r.digits().digits(), scale: r.fractional_digits_count() }),
        Err(_) => None,
    }
}

/// Whether an argument is within 70000 of zero, where the exponential stays well
/// inside the range of the type.
pub open spec fn exponential_in_reach(d: DecimalView) -> bool {
    d matches DecimalView::Finite { coefficient, scale, .. } ==> finite_order(
        coefficient,
        scale,
        70000,
        0,
    ) <= 0
}

/// The size of a finite exponent as a fraction: its numerator and denominator.
pub open spec fn exponent_size(exponent: DecimalView) -> (nat, nat) {
    match exponent {
        DecimalView::Finite { coefficient, scale, .. } => if scale < 0 {
            (coefficient * digits::pow10((-scale) as nat), 1)
        } else {
            (coefficient, digits::pow10(scale as nat))
        },
        _ => (0, 1),
    }
}

/// Whether a finite base that is not zero, raised to the size of an exponent, is at
/// least `10^k`: for a base `c * 10^-s` and an exponent `p / q` in size, `c^p` is at
/// least `10^(s p + k q)`.
pub open spec fn power_at_least(base: DecimalView, exponent: DecimalView, k: int) -> bool {
    base matches DecimalView::Finite { coefficient: c, scale: s, .. } && {
        let (p, q) = exponent_size(exponent);
        let places = s * p + k * q;
        places < 0 || vstd::arithmetic::power::pow(c as int, p) >= digits::pow10(places as nat)
    }
}

/// Whether a finite base that is not zero, raised to the size of an exponent, is at
/// most `10^k`.
pub open spec fn power_at_most(base: DecimalView, exponent: DecimalView, k: int) -> bool {
    base matches DecimalView::Finite { coefficient: c, scale: s, .. } && {
        let (p, q) = exponent_size(exponent);
        let places = s * p + k * q;
        places >= 0 && vstd::arithmetic::power::pow(c as int, p) <= digits::pow10(places as nat)
    }
}

/// Whether the decimal order of a power of finite operands is within 25000 of zero, and
/// the exponent within `10^40`.
pub open spec fn power_in_reach(base: DecimalView, exponent: DecimalView) -> bool {
    let (p, q) = exponent_size(exponent);
    &&& base is Finite && exponent is Finite
    &&& p <= digits::pow10(40) * q
    &&& power_at_least(base, exponent, -25000)
    &&& power_at_most(base, exponent, 25000)
}

/// `fastnum`'s `D256::exp`.
///
/// Zero gives one. The exponential of a positive value is a sum that starts from one, and
/// its squares, so that it is at least one; that of a negative value is one over the
/// exponential of its size, so that it is at most one, and the two multiply to one to 50
/// digits. Beyond that an exponential has its name only. Arguments far beyond the range of the result overflow, and are left out.
#[verifier::external_body]
pub(crate) fn exponential(d: Decimal) -> (q: Decimal)
    requires
        exponential_in_reach(d@),
    ensures
        q@ == exponential_of(d@),
        d@.is_zero() ==> q@ == DecimalView::one(),
        d@ is NotANumber ==> q@ is NotANumber,
        d@ is Finite && !d@.is_zero() ==> beside_one(q@, !d@.negative()),
        d@ is Finite && !d@.is_zero() ==> reciprocal(q@, exponential_of(d@.negated()), 50, 1),
{
    let ctx = Context::default().with_rounding_mode(RoundingMode::HalfEven).without_traps();
    let m = match (d.nan, d.infinite) {
        (true, _) => D256::NAN,
        (_, true) => D256::INFINITY,
        _ => D256::from_parts(U256::from_digits(d.limbs), -i32::from(d.scale), Sign::Plus, ctx),
    };
    let x = if d.negative { m.neg().with_ctx(ctx) } else { m.with_ctx(ctx) };
    let r = x.exp();
    Decimal { nan: r.is_nan(), infinite: r.is_infinite(), negative: r.is_sign_negative(),
        limbs: *r.digits().digits(), scale: r.fractional_digits_count() }
}

/// The natural number that an exponent is, if it is one.
pub open spec fn natural_exponent(exponent: DecimalView) -> Option<nat> {
    match exponent {
        DecimalView::Finite { negative: false, coefficient: m, scale: t } => if t <= 0 {
            Some(m * digits::pow10((-t) as nat))
        } else if m % digits::pow10(t as nat) == 0 {
            Some(m / digits::pow10(t as nat))
        } else {
            None
        },
        _ => None,
    }
}

/// The power to a positive natural number of 31 bits, where it is known without
/// rounding. One keeps as many zeros as its coefficient has room for; of other positive
/// bases a square is known where the product is, and a power as long as the power of the
/// coefficient fits in 256 bits and the multiple of the scale in 16.
pub open spec fn known_power(base: DecimalView, exponent: DecimalView) -> Option<DecimalView> {
    match (base, natural_exponent(exponent)) {
        (DecimalView::Finite { negative: false, coefficient: c, scale: s }, Some(n)) => {
            let power = vstd::arithmetic::power::pow(c as int, n);
            let zeros = if s * n < 77 {
                (s * n) as nat
            } else {
                77
            };
            if same_number(base, DecimalView::one()) && 0 < n <= i32::MAX {
                Some(
                    DecimalView::Finite {
                        negative: false,
                        coefficient: digits::pow10(zeros),
                        scale: zeros as int,
                    },
                )
            } else if c > 0 && n == 2 {
                known_product(base, base)
            } else if c > 0 && 0 < n <= i32::MAX && power < decimal::coefficient_limit() && -32767 <= s * n
                <= 32767 {
                Some(
                    DecimalView::Finite {
                        negative: false,
                        coefficient: power as nat,
                        scale: s * n,
                    },
                )
            } else {
                None
            }
        },
        _ => None,
    }
}

/// The power that the type gives, exact where it is known.
pub open spec fn wide_power(base: DecimalView, exponent: DecimalView) -> DecimalView {
    match known_power(base, exponent) {
        Some(v) => v,
        None => power_of(base, exponent),
    }
}

/// Whether the product of two positive values is one within `times / 10^places`.
pub open spec fn reciprocal(p: DecimalView, q: DecimalView, places: nat, times: nat) -> bool {
    match (p, q) {
        (
            DecimalView::Finite { negative: m, coefficient: a, scale: s },
            DecimalView::Finite { negative: n, coefficient: b, scale: t },
        ) => !m && !n && a > 0 && b > 0 && close(a * b, s + t, 1, 0, places, times),
        _ => false,
    }
}

/// `fastnum`'s `D256::pow`.
///
/// A natural exponent of 31 bits multiplies a positive base with itself, which is
/// exact as long as it stays within 256 bits; a square is the product of the base with
/// itself, and of a one with trailing zeros only such zeros are lost. Every other power
/// has its name; of a base from two on, or up to a half, it lies on the side of one that
/// the base and the sign of the exponent say. A power to a negative exponent is one over
/// the power to the opposite one, so that the two multiply to one to 50 digits.
/// Powers far beyond the range of the type make it panic, and so may an operand that
/// is not finite. An exponent so large that the rounding of a logarithm near zero comes
/// out of it large makes it recurse without bound. All three are left out.
#[verifier::external_body]
pub(crate) fn power(a: Decimal, b: Decimal) -> (p: Decimal)
    requires
        power_in_reach(a@, b@),
    ensures
        p@ == power_of(a@, b@),
        known_power(a@, b@) matches Some(v) ==> p@ == v,
        at_least_two(a@) && !b@.is_zero() ==> beside_one(p@, !b@.negative()),
        at_most_half(a@) && !b@.is_zero() ==> beside_one(p@, b@.negative()),
        !a@.negative() && !a@.is_zero() && !b@.is_zero() ==> reciprocal(
            p@,
            wide_power(a@, b@.negated()),
            50,
            1,
        ),
{
    let ctx = Context::default().with_rounding_mode(RoundingMode::HalfEven).without_traps();
    let [x, y] = [a, b].map(|d| {
        let m = match (d.nan, d.infinite) {
            (true, _) => D256::NAN,
            (_, true) => D256::INFINITY,
            _ => D256::from_parts(U256::from_digits(d.limbs), -i32::from(d.scale), Sign::Plus, ctx),
        };
        if d.negative { m.neg().with_ctx(ctx) } else { m.with_ctx(ctx) }
    });
    let r = x.pow(y);
    Decimal { nan: r.is_nan(), infinite: r.is_infinite(), negative: r.is_sign_negative(),
        limbs: *r.digits().digits(), scale: r.fractional_digits_count() }
}

/// `fastnum`'s `D256::cmp`, an order in which the sign decides first and then the
/// magnitude.
#[verifier::external_body]
pub(crate) fn total_order(a: Decimal, b: Decimal) -> (o: Ordering)
    ensures
        match o {
            Ordering::Less => sign_first_order(a@, b@) == -1,
            Ordering::Equal => sign_first_order(a@, b@) == 0,
            Ordering::Greater => sign_first_order(a@, b@) == 1,
        },
{
    let ctx = Context::default().with_rounding_mode(RoundingMode::HalfEven).without_traps();
    let [x, y] = [a, b].map(|d| {
        let m = match (d.nan, d.infinite) {
            (true, _) => D256::NAN,
            (_, true) => D256::INFINITY,
            _ => D256::from_parts(U256::from_digits(d.limbs), -i32::from(d.scale), Sign::Plus, ctx),
        };
        if d.negative { m.neg().with_ctx(ctx) } else { m.with_ctx(ctx) }
    });
    x.cmp(&y)
}

/// `fastnum`'s `==` on `D256`, which compares numbers and not representations.
#[verifier::external_body]
pub(crate) fn equal(a: Decimal, b: Decimal) -> (r: bool)
    ensures
        r == same_number(a@, b@),
{
    let ctx = Context::default().with_rounding_mode(RoundingMode::HalfEven).without_traps();
    let [x, y] = [a, b].map(|d| {
        let m = match (d.nan, d.infinite) {
            (true, _) => D256::NAN,
            (_, true) => D256::INFINITY,
            _ => D256::from_parts(U256::from_digits(d.limbs), -i32::from(d.scale), Sign::Plus, ctx),
        };
        if d.negative { m.neg().with_ctx(ctx) } else { m.with_ctx(ctx) }
    });
    x == y
}

/// Whether `c * 10^-s` is an integer.
pub open spec fn integral(c: nat, s: int) -> bool {
    s <= 0 || c % digits::pow10(s as nat) == 0
}

/// A finite value with its fraction cut off, at scale 0. A value with a negative
/// scale is widened towards scale 0 instead.
pub open spec fn truncated(negative: bool, c: nat, s: int) -> DecimalView {
    if s <= 0 {
        widened(negative, c, s, 0)
    } else {
        DecimalView::Finite { negative, coefficient: c / digits::pow10(s as nat), scale: 0 }
    }
}

/// A finite value rounded to the nearest integer, a tie away from zero, at scale 0.
pub open spec fn rounded_half_up(negative: bool, c: nat, s: int) -> DecimalView {
    if s <= 0 {
        widened(negative, c, s, 0)
    } else {
        let unit = digits::pow10(s as nat);
        let coefficient = if 2 * (c % unit) >= unit {
            c / unit + 1
        } else {
            c / unit
        };
        DecimalView::Finite { negative, coefficient, scale: 0 }
    }
}

/// A finite value moved to an integer: unchanged where it is one, otherwise with
/// its fraction cut off and, where `outward` is set, moved one away from zero.
pub open spec fn integer_near(negative: bool, c: nat, s: int, outward: bool) -> DecimalView {
    if integral(c, s) {
        DecimalView::Finite { negative, coefficient: c, scale: s }
    } else {
        let whole = c / digits::pow10(s as nat);
        let coefficient = if outward {
            whole + 1
        } else {
            whole
        };
        DecimalView::Finite { negative, coefficient, scale: 0 }
    }
}

/// `fastnum`'s `D256::floor` on a finite value: an integer is returned as it is,
/// anything else is replaced by the next integer below.
#[verifier::external_body]
pub(crate) fn floor(d: Decimal) -> (f: Decimal)
    requires
        d@ is Finite,
    ensures
        d@ matches DecimalView::Finite { negative, coefficient, scale } ==> f@ == integer_near(
            negative,
            coefficient,
            scale,
            negative,
        ),
{
    let ctx = Context::default().with_rounding_mode(RoundingMode::HalfEven).without_traps();
    let m = match (d.nan, d.infinite) {
        (true, _) => D256::NAN,
        (_, true) => D256::INFINITY,
        _ => D256::from_parts(U256::from_digits(d.limbs), -i32::from(d.scale), Sign::Plus, ctx),
    };
    let x = if d.negative { m.neg().with_ctx(ctx) } else { m.with_ctx(ctx) };
    let r = x.floor();
    Decimal { nan: r.is_nan(), infinite: r.is_infinite(), negative: r.is_sign_negative(),
        limbs: *r.digits().digits(), scale: r.fractional_digits_count() }
}

/// `fastnum`'s `D256::ceil` on a finite value: an integer is returned as it is,
/// anything else is replaced by the next integer above.
#[verifier::external_body]
pub(crate) fn ceil(d: Decimal) -> (f: Decimal)
    requires
        d@ is Finite,
    ensures
        d@ matches DecimalView::Finite { negative, coefficient, scale } ==> f@ == integer_near(
            negative,
            coefficient,
            scale,
            !negative,
        ),
{
    let ctx = Context::default().with_rounding_mode(RoundingMode::HalfEven).without_traps();
    let m = match (d.nan, d.infinite) {
        (true, _) => D256::NAN,
        (_, true) => D256::INFINITY,
        _ => D256::from_parts(U256::from_digits(d.limbs), -i32::from(d.scale), Sign::Plus, ctx),
    };
    let x = if d.negative { m.neg().with_ctx(ctx) } else { m.with_ctx(ctx) };
    let r = x.ceil();
    Decimal { nan: r.is_nan(), infinite: r.is_infinite(), negative: r.is_sign_negative(),
        limbs: *r.digits().digits(), scale: r.fractional_digits_count() }
}

/// `fastnum`'s `D256::trunc`: the fraction is cut off; a value that is not finite
/// gives a NaN of the same sign.
#[verifier::external_body]
pub(crate) fn trunc(d: Decimal) -> (f: Decimal)
    ensures
        f@ == match d@ {
            DecimalView::Finite { negative, coefficient, scale } => truncated(
                negative,
                coefficient,
                scale,
            ),
            _ => DecimalView::NotANumber { negative: d@.negative() },
        },
{
    let ctx = Context::default().with_rounding_mode(RoundingMode::HalfEven).without_traps();
    let m = match (d.nan, d.infinite) {
        (true, _) => D256::NAN,
        (_, true) => D256::INFINITY,
        _ => D256::from_parts(U256::from_digits(d.limbs), -i32::from(d.scale), Sign::Plus, ctx),
    };
    let x = if d.negative { m.neg().with_ctx(ctx) } else { m.with_ctx(ctx) };
    let r = x.trunc();
    Decimal { nan: r.is_nan(), infinite: r.is_infinite(), negative: r.is_sign_negative(),
        limbs: *r.digits().digits(), scale: r.fractional_digits_count() }
}

/// `fastnum`'s `D256::round` to 0 digits under its half-up mode, on a finite value:
/// the nearest integer, a tie away from zero.
#[verifier::external_body]
pub(crate) fn round_half_up(d: Decimal) -> (f: Decimal)
    requires
        d@ is Finite,
    ensures
        d@ matches DecimalView::Finite { negative, coefficient, scale } ==> f@ == rounded_half_up(
            negative,
            coefficient,
            scale,
        ),
{
    let ctx = Context::default().with_rounding_mode(RoundingMode::HalfEven).without_traps();
    let m = match (d.nan, d.infinite) {
        (true, _) => D256::NAN,
        (_, true) => D256::INFINITY,
        _ => D256::from_parts(U256::from_digits(d.limbs), -i32::from(d.scale), Sign::Plus, ctx),
    };
    let x = if d.negative { m.neg().with_ctx(ctx) } else { m.with_ctx(ctx) };
    let r = x.with_rounding_mode(RoundingMode::HalfUp).round(0);
    Decimal { nan: r.is_nan(), infinite: r.is_infinite(), negative: r.is_sign_negative(),
        limbs: *r.digits().digits(), scale: r.fractional_digits_count() }
}

/// `fastnum`'s `D256::rescale` on a finite value, in the two cases that need no
/// rounding: to a larger scale, where zeros are appended as far as the coefficient
/// has room, and to a smaller one where only zeros are dropped.
#[verifier::external_body]
pub(crate) fn rescale(d: Decimal, scale: i16) -> (f: Decimal)
    requires
        d@ matches DecimalView::Finite { coefficient: c, scale: s, .. } && (s <= scale || (s - scale
            <= 32767 && c > 0 && c % digits::pow10((s - scale) as nat) == 0)),
    ensures
        d@ matches DecimalView::Finite { negative, coefficient: c, scale: s } ==> f@ == (
        if s <= scale {
            widened(negative, c, s, scale as int)
        } else {
            DecimalView::Finite {
                negative,
                coefficient: c / digits::pow10((s - scale) as nat),
                scale: scale as int,
            }
        }),
{
    let ctx = Context::default().with_rounding_mode(RoundingMode::HalfEven).without_traps();
    let m = match (d.nan, d.infinite) {
        (true, _) => D256::NAN,
        (_, true) => D256::INFINITY,
        _ => D256::from_parts(U256::from_digits(d.limbs), -i32::from(d.scale), Sign::Plus, ctx),
    };
    let x = if d.negative { m.neg().with_ctx(ctx) } else { m.with_ctx(ctx) };
    let r = x.rescale(scale);
    Decimal { nan: r.is_nan(), infinite: r.is_infinite(), negative: r.is_sign_negative(),
        limbs: *r.digits().digits(), scale: r.fractional_digits_count() }
}

/// `fastnum`'s `U256` written in decimal.
#[verifier::external_body]
pub(crate) fn coefficient_text(limbs: [u64; 4]) -> (text: String)
    ensures
        text@ == digits::decimal_text(decimal::limbs_value(limbs@)),
{
    U256::from_digits(limbs).to_string()
}

/// `fastnum`'s `D256::digits_count`: how many decimal digits a coefficient has, none
/// for zero.
#[verifier::external_body]
pub(crate) fn digits_count(limbs: [u64; 4]) -> (n: usize)
    ensures
        n == digits::digit_count(decimal::limbs_value(limbs@)),
{
    let ctx = Context::default();
    D256::from_parts(U256::from_digits(limbs), 0, Sign::Plus, ctx).digits_count()
}

/// The integer that `c * 10^-s` is, for a scale that is not positive.
pub open spec fn integer_value(negative: bool, c: nat, s: int) -> int {
    decimal::signed(negative, c * digits::pow10((-s) as nat))
}

/// The conversion of a `D256` to `i128`, on integers written without a fraction: a
/// value that fits is converted, one that does not, or that is not finite, is
/// refused.
#[verifier::external_body]
pub(crate) fn to_i128(d: Decimal) -> (r: Option<i128>)
    requires
        d@ matches DecimalView::Finite { scale, .. } ==> scale <= 0,
    ensures
        match (d@, r) {
            (DecimalView::Finite { negative, coefficient, scale }, Some(n)) => n == integer_value(
                negative,
                coefficient,
                scale,
            ),
            (DecimalView::Finite { negative, coefficient, scale }, None) => {
                let n = integer_value(negative, coefficient, scale);
                n < i128::MIN || n > i128::MAX
            },
            (_, Some(_)) => false,
            (_, None) => true,
        },
{
    let ctx = Context::default().with_rounding_mode(RoundingMode::HalfEven).without_traps();
    let m = match (d.nan, d.infinite) {
        (true, _) => D256::NAN,
        (_, true) => D256::INFINITY,
        _ => D256::from_parts(U256::from_digits(d.limbs), -i32::from(d.scale), Sign::Plus, ctx),
    };
    let x = if d.negative { m.neg().with_ctx(ctx) } else { m.with_ctx(ctx) };
    i128::try_from(x).ok()
}

/// The conversion of a `D256` to `i32`, on integers written without a fraction: a
/// value that fits is converted, one that does not, or that is not finite, is
/// refused.
#[verifier::external_body]
pub(crate) fn to_i32(d: Decimal) -> (r: Option<i32>)
    requires
        d@ matches DecimalView::Finite { scale, .. } ==> scale <= 0,
    ensures
        match (d@, r) {
            (DecimalView::Finite { negative, coefficient, scale }, Some(n)) => n == integer_value(
                negative,
                coefficient,
                scale,
            ),
            (DecimalView::Finite { negative, coefficient, scale }, None) => {
                let n = integer_value(negative, coefficient, scale);
                n < i32::MIN || n > i32::MAX
            },
            (_, Some(_)) => false,
            (_, None) => true,
        },
{
    let ctx = Context::default().with_rounding_mode(RoundingMode::HalfEven).without_traps();
    let m = match (d.nan, d.infinite) {
        (true, _) => D256::NAN,
        (_, true) => D256::INFINITY,
        _ => D256::from_parts(U256::from_digits(d.limbs), -i32::from(d.scale), Sign::Plus, ctx),
    };
    let x = if d.negative { m.neg().with_ctx(ctx) } else { m.with_ctx(ctx) };
    i32::try_from(x).ok()
}

} // verus!
