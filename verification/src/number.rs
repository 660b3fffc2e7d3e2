//! The FEEL number and its functions.

use crate::arithmetic;
use crate::backend;
use crate::decimal;
use crate::decimal::{Decimal, DecimalView};
use crate::digits;
use crate::errors::NumberError;
use crate::laws;
use crate::powers;
use crate::results;
use crate::rounding;
use vstd::prelude::*;

verus! {

/// The smallest effective scale of a rounding.
pub const MIN_SCALE: i32 = -6111;

/// The largest effective scale of a rounding.
pub const MAX_SCALE: i32 = 6144;

/// A FEEL number: a decimal128 value, with the rule by which its trailing zeros are
/// written.
#[derive(Clone, Copy)]
pub struct FeelNumber {
    value: Decimal,
    /// Unset on a number that came from a literal or a conversion, so that `50.50`
    /// is written as typed; set on a computed result, which is written trimmed.
    computed: bool,
}

impl View for FeelNumber {
    type V = DecimalView;

    closed spec fn view(&self) -> DecimalView {
        self.value@
    }
}

/// A number read from an integer and a scale: not a number where the wide type has
/// no such value.
pub open spec fn stored(n: int, s: int) -> DecimalView {
    let v = backend::constructed(n < 0, vstd::math::abs(n) as nat, -s);
    if v is Infinite {
        DecimalView::NotANumber { negative: false }
    } else {
        v
    }
}

/// The effective scale of a rounding: the scale on top of the adjusted exponent,
/// saturating.
pub open spec fn effective_scale(v: DecimalView, scale: int) -> int {
    let sum = rounding::order_of(v) + scale;
    if sum < i32::MIN {
        i32::MIN as int
    } else if sum > i32::MAX {
        i32::MAX as int
    } else {
        sum
    }
}

/// Whether a rounding to the given scale is allowed.
pub open spec fn scale_allowed(v: DecimalView, scale: int) -> bool {
    scale == 0 || MIN_SCALE <= effective_scale(v, scale) <= MAX_SCALE
}

/// The error for a scale that is not allowed.
pub open spec fn scale_error(v: DecimalView, scale: int) -> NumberError {
    NumberError::InvalidScale {
        min: MIN_SCALE,
        max: MAX_SCALE,
        actual: effective_scale(v, scale) as i32,
    }
}

/// Whether a value is plus or minus one.
pub open spec fn is_unit(n: DecimalView) -> bool {
    backend::same_number(n.magnitude(), DecimalView::one())
}

/// An integer moved back by a scale: a zero loses its sign and scale, and where
/// `keep_unit` is set plus and minus one are not moved.
pub open spec fn unscaled(n: DecimalView, scale: int, keep_unit: bool) -> DecimalView {
    if n.is_zero() {
        DecimalView::zero()
    } else if keep_unit && is_unit(n) {
        DecimalView::one().with_sign(n.negative())
    } else {
        rounding::normalized(arithmetic::shifted(n, -scale))
    }
}

/// A value moved by a scale, so that rounding it to an integer rounds it at the scale.
pub open spec fn moved(v: DecimalView, scale: int) -> DecimalView {
    rounding::normalized(arithmetic::shifted(v, scale))
}

/// A value rounded at a scale by a rounding to integers.
pub open spec fn rounded_at(
    v: DecimalView,
    scale: int,
    keep_unit: bool,
    round: spec_fn(DecimalView) -> DecimalView,
) -> DecimalView {
    if scale == 0 {
        round(v)
    } else {
        unscaled(round(moved(v, scale)), scale, keep_unit)
    }
}

/// The next value at a scale, at or above; at scale 0 a zero loses its sign and scale.
pub open spec fn ceiling_value(v: DecimalView, scale: int) -> DecimalView {
    let r = rounded_at(v, scale, false, |n: DecimalView| arithmetic::ceil_of(n));
    if scale == 0 && r.is_zero() {
        DecimalView::zero()
    } else {
        r
    }
}

/// The next value at a scale, at or below.
pub open spec fn floor_value(v: DecimalView, scale: int) -> DecimalView {
    rounded_at(v, scale, false, |n: DecimalView| arithmetic::floor_of(n))
}

/// The value without the digits past a scale; one unit at the scale becomes one.
pub open spec fn round_down_value(v: DecimalView, scale: int) -> DecimalView {
    rounded_at(v, scale, true, |n: DecimalView| arithmetic::trunc_of(n))
}

/// The nearest value at a scale, a tie away from zero; one unit at the scale becomes
/// one.
pub open spec fn round_half_up_value(v: DecimalView, scale: int) -> DecimalView {
    rounded_at(v, scale, true, |n: DecimalView| arithmetic::nearest_of(n))
}

/// The next value at a scale, away from zero; one unit at the scale becomes one.
pub open spec fn round_up_value(v: DecimalView, scale: int) -> DecimalView {
    rounded_at(
        v,
        scale,
        true,
        |n: DecimalView|
            if v.negative() {
                arithmetic::floor_of(n)
            } else {
                arithmetic::ceil_of(n)
            },
    )
}

/// One tenth.
pub open spec fn tenth() -> DecimalView {
    DecimalView::Finite { negative: false, coefficient: 1, scale: 1 }
}

/// The nearest integer to a value moved a tenth towards zero, a tie away from zero.
pub open spec fn nudged(n: DecimalView, negative: bool) -> DecimalView {
    if negative {
        arithmetic::nearest_of(rounding::normalized(arithmetic::sum_value(n, tenth())))
    } else {
        arithmetic::nearest_of(rounding::normalized(arithmetic::difference_value(n, tenth())))
    }
}

/// A value at a scale, rounded half away from zero after a step of a tenth towards
/// zero, by which a tie goes towards zero; one unit at the scale becomes one.
pub open spec fn round_half_down_value(v: DecimalView, scale: int) -> DecimalView {
    rounded_at(v, scale, true, |n: DecimalView| nudged(n, v.negative()))
}

/// The scale that a number stands for: its whole part within 32 bits, 0 where it
/// has none, brought into 16 bits.
pub open spec fn scale_argument(v: DecimalView) -> int {
    let n = match arithmetic::trunc_of(v) {
        DecimalView::Finite { negative, coefficient, scale } => backend::integer_value(
            negative,
            coefficient,
            scale,
        ),
        _ => 0,
    };
    if n < i32::MIN || n > i32::MAX {
        0
    } else if n < i16::MIN {
        i16::MIN as int
    } else if n > i16::MAX {
        i16::MAX as int
    } else {
        n
    }
}

/// A finite value, or nothing.
pub open spec fn finite_or_none(v: DecimalView) -> Option<DecimalView> {
    if v is Finite {
        Some(v)
    } else {
        None
    }
}

/// What an optional number holds.
pub open spec fn optional(r: Option<FeelNumber>) -> Option<DecimalView> {
    match r {
        Some(n) => Some(n@),
        None => None,
    }
}

/// A computed result as a number where it is finite, as nothing where it is not.
pub fn finite_only(n: Decimal) -> (r: Option<FeelNumber>)
    requires
        rounding::in_format(n@),
    ensures
        optional(r) == finite_or_none(n@),
        r matches Some(x) ==> x.computed() && rounding::in_format(x@),
{
    if n.is_finite() {
        Some(FeelNumber { value: n, computed: true })
    } else {
        None
    }
}

/// Move an integer back by a scale: a zero loses its sign and scale, and where
/// `keep_unit` is set plus and minus one are not moved.
fn unscale(n: Decimal, scale: i32, keep_unit: bool) -> (r: Decimal)
    requires
        scale > i32::MIN,
    ensures
        r@ == unscaled(n@, scale as int, keep_unit),
        rounding::in_format(r@),
{
    let one = Decimal::small(1);
    proof {
        lemma_small_in_format(1);
    }
    if n.is_zero() {
        Decimal::small(0)
    } else if keep_unit && arithmetic::num_eq(n.magnitude(), one) {
        if n.negative {
            one.negated()
        } else {
            one
        }
    } else {
        arithmetic::scalbn(n, -scale)
    }
}

/// The truncating conversion to `i32`; zero for what does not fit or is not finite.
fn to_i32_trunc(d: Decimal) -> (n: i32)
    ensures
        n == (match arithmetic::trunc_of(d@) {
            DecimalView::Finite { negative, coefficient, scale } => {
                let i = backend::integer_value(negative, coefficient, scale);
                if i < i32::MIN || i > i32::MAX {
                    0
                } else {
                    i
                }
            },
            _ => 0,
        }),
{
    match backend::to_i32(backend::trunc(d)) {
        Some(n) => n,
        None => 0,
    }
}

impl FeelNumber {
    /// Whether the number is a computed result, written without trailing zeros.
    pub closed spec fn computed(&self) -> bool {
        self.computed
    }

    /// Every number is one that decimal128 has.
    #[verifier::type_invariant]
    spec fn well_formed(self) -> bool {
        rounding::in_format(self.value@)
    }

    /// The number as a decimal in plain parts.
    pub fn parts(&self) -> (d: Decimal)
        ensures
            d@ == self@,
            rounding::in_format(self@),
    {
        proof {
            use_type_invariant(self);
        }
        self.value
    }

    /// Whether the number is a computed result.
    pub fn is_computed(&self) -> (r: bool)
        ensures
            r == self.computed(),
    {
        self.computed
    }

    /// A number of the given parts.
    pub(crate) fn from_parts(value: Decimal, computed: bool) -> (r: FeelNumber)
        requires
            rounding::in_format(value@),
        ensures
            r@ == value@,
            r.computed() == computed,
    {
        FeelNumber { value, computed }
    }

    /// Positive infinity.
    pub fn infinite() -> (r: FeelNumber)
        ensures
            r@ == (DecimalView::Infinite { negative: false }),
            !r.computed(),
    {
        FeelNumber { value: Decimal::infinity(false), computed: false }
    }

    /// The number 0 (zero).
    pub fn zero() -> (r: FeelNumber)
        ensures
            r@ == DecimalView::zero(),
            !r.computed(),
    {
        FeelNumber { value: Decimal::small(0), computed: false }
    }

    /// The number 1 (one).
    pub fn one() -> (r: FeelNumber)
        ensures
            r@ == DecimalView::one(),
            !r.computed(),
    {
        proof {
            lemma_small_in_format(1);
        }
        FeelNumber { value: Decimal::small(1), computed: false }
    }

    /// The number 2 (two).
    pub fn two() -> (r: FeelNumber)
        ensures
            r@ == DecimalView::two(),
            !r.computed(),
    {
        proof {
            lemma_small_in_format(2);
        }
        FeelNumber { value: Decimal::small(2), computed: false }
    }

    /// The number 1_000_000_000 (billion).
    pub fn billion() -> (r: FeelNumber)
        ensures
            r@ == (DecimalView::Finite { negative: false, coefficient: 1_000_000_000, scale: 0 }),
            !r.computed(),
    {
        proof {
            lemma_small_in_format(1_000_000_000);
        }
        FeelNumber { value: Decimal::small(1_000_000_000), computed: false }
    }

    /// A number from an integer and a scale.
    ///
    /// The scale is the stored exponent, not a rounding instruction: `new(490, 1)` is
    /// `49.0` and is written with its trailing zero.
    pub fn new(n: i64, s: i32) -> (r: FeelNumber)
        requires
            s > i32::MIN,
        ensures
            r@ == rounding::normalized(stored(n as int, s as int)),
            !r.computed(),
            rounding::in_format(r@),
    {
        let magnitude: i128 = if n < 0 {
            -(n as i128)
        } else {
            n as i128
        };
        let text = digits::integer_string(magnitude);
        proof {
            let m = vstd::math::abs(n as int) as nat;
            digits::lemma_decimal_text(m);
            digits::lemma_digit_count_at_most(m, 19);
            assert(digits::pow10(19) == 10_000_000_000_000_000_000) by {
                reveal_with_fuel(digits::pow10, 20);
            }
        }
        let raw = match rounding::read_literal(n < 0, text.as_str(), -s) {
            Some(d) => d,
            None => Decimal::not_a_number(),
        };
        FeelNumber { value: rounding::norm(raw), computed: false }
    }

    /// Test the effective scale after changing the scale to the required one.
    fn validate_scale(&self, scale: i32) -> (r: Result<(), NumberError>)
        ensures
            match r {
                Ok(_) => MIN_SCALE <= effective_scale(self@, scale as int) <= MAX_SCALE,
                Err(e) => !(MIN_SCALE <= effective_scale(self@, scale as int) <= MAX_SCALE) && e
                    == scale_error(self@, scale as int),
            },
    {
        let sum: i64 = rounding::ilogb(self.value) as i64 + scale as i64;
        let actual: i32 = if sum < i32::MIN as i64 {
            i32::MIN
        } else if sum > i32::MAX as i64 {
            i32::MAX
        } else {
            sum as i32
        };
        if MIN_SCALE <= actual && actual <= MAX_SCALE {
            Ok(())
        } else {
            Err(NumberError::InvalidScale { min: MIN_SCALE, max: MAX_SCALE, actual })
        }
    }

    /// The absolute value of this number.
    pub fn abs(&self) -> (r: FeelNumber)
        ensures
            r@ == self@.magnitude(),
            !r.computed(),
            rounding::in_format(r@),
    {
        proof {
            use_type_invariant(self);
        }
        FeelNumber { value: self.value.magnitude(), computed: false }
    }

    /// The least number at a scale that is greater than or equal to this one.
    pub fn ceiling(&self, scale: i32) -> (r: Result<FeelNumber, NumberError>)
        ensures
            match r {
                Ok(n) => scale_allowed(self@, scale as int) && n@ == ceiling_value(
                    self@,
                    scale as int,
                ) && n.computed() && rounding::in_format(n@),
                Err(e) => !scale_allowed(self@, scale as int) && e == scale_error(
                    self@,
                    scale as int,
                ),
            },
            r matches Ok(n) ==> (self@ is Finite && !self@.is_zero() ==> forall|q: nat| #[trigger]
                results::holds_units(self@, scale as int, q) ==> backend::same_number(
                    n@,
                    results::least_above(self@, scale as int, q),
                )),
    {
        proof {
            use_type_invariant(self);
            decimal::lemma_limbs_bound(self.value.limbs@);
            if self@ is Finite && !self@.is_zero() && scale_allowed(self@, scale as int) {
                assert forall|q: nat| #[trigger]
                    results::holds_units(self@, scale as int, q) implies backend::same_number(
                    ceiling_value(self@, scale as int),
                    results::least_above(self@, scale as int, q),
                ) by {
                    results::law_ceiling_is_least_above(self@, scale as int, q);
                }
            }
            arithmetic::lemma_integers_in_format(self@);
        }
        if scale == 0 {
            let rounded = arithmetic::ceil_i(self.value);
            let value = if rounded.is_zero() {
                Decimal::small(0)
            } else {
                rounded
            };
            return Ok(FeelNumber { value, computed: true });
        }
        if let Err(e) = self.validate_scale(scale) {
            return Err(e);
        }
        let scaled = arithmetic::scalbn(self.value, scale);
        let value = unscale(arithmetic::ceil_i(scaled), scale, false);
        Ok(FeelNumber { value, computed: true })
    }

    /// The greatest number at a scale that is less than or equal to this one.
    pub fn floor(&self, scale: i32) -> (r: Result<FeelNumber, NumberError>)
        ensures
            match r {
                Ok(n) => scale_allowed(self@, scale as int) && n@ == floor_value(
                    self@,
                    scale as int,
                ) && n.computed() && rounding::in_format(n@),
                Err(e) => !scale_allowed(self@, scale as int) && e == scale_error(
                    self@,
                    scale as int,
                ),
            },
            r matches Ok(n) ==> (self@ is Finite && !self@.is_zero() ==> forall|q: nat| #[trigger]
                results::holds_units(self@, scale as int, q) ==> backend::same_number(
                    n@,
                    results::greatest_below(self@, scale as int, q),
                )),
    {
        proof {
            use_type_invariant(self);
            decimal::lemma_limbs_bound(self.value.limbs@);
            if self@ is Finite && !self@.is_zero() && scale_allowed(self@, scale as int) {
                assert forall|q: nat| #[trigger]
                    results::holds_units(self@, scale as int, q) implies backend::same_number(
                    floor_value(self@, scale as int),
                    results::greatest_below(self@, scale as int, q),
                ) by {
                    results::law_floor_is_greatest_below(self@, scale as int, q);
                }
            }
            arithmetic::lemma_integers_in_format(self@);
        }
        if scale == 0 {
            return Ok(FeelNumber { value: arithmetic::floor_i(self.value), computed: true });
        }
        if let Err(e) = self.validate_scale(scale) {
            return Err(e);
        }
        let scaled = arithmetic::scalbn(self.value, scale);
        let value = unscale(arithmetic::floor_i(scaled), scale, false);
        Ok(FeelNumber { value, computed: true })
    }

    /// This number without the digits past a scale. Where plus or minus one unit at the
    /// scale is left, the result is plus or minus one.
    pub fn round_down(&self, scale: i32) -> (r: Result<FeelNumber, NumberError>)
        ensures
            match r {
                Ok(n) => scale_allowed(self@, scale as int) && n@ == round_down_value(
                    self@,
                    scale as int,
                ) && n.computed() && rounding::in_format(n@),
                Err(e) => !scale_allowed(self@, scale as int) && e == scale_error(
                    self@,
                    scale as int,
                ),
            },
            r matches Ok(n) ==> (self@ is Finite && !self@.is_zero() ==> forall|q: nat| #[trigger]
                results::holds_units(self@, scale as int, q) ==> backend::same_number(
                    n@,
                    results::settled_units(self@, q, scale as int),
                )),
    {
        proof {
            use_type_invariant(self);
            decimal::lemma_limbs_bound(self.value.limbs@);
            if self@ is Finite && !self@.is_zero() && scale_allowed(self@, scale as int) {
                assert forall|q: nat| #[trigger]
                    results::holds_units(self@, scale as int, q) implies backend::same_number(
                    round_down_value(self@, scale as int),
                    results::settled_units(self@, q, scale as int),
                ) by {
                    results::law_round_down_cuts(self@, scale as int, q);
                }
            }
            arithmetic::lemma_integers_in_format(self@);
        }
        if scale == 0 {
            return Ok(FeelNumber { value: arithmetic::trunc_i(self.value), computed: true });
        }
        if let Err(e) = self.validate_scale(scale) {
            return Err(e);
        }
        let scaled = arithmetic::scalbn(self.value, scale);
        let value = unscale(arithmetic::trunc_i(scaled), scale, true);
        Ok(FeelNumber { value, computed: true })
    }

    /// The nearest number at a scale, a tie away from zero. Where that is plus or minus
    /// one unit at the scale, the result is plus or minus one.
    pub fn round_half_up(&self, scale: i32) -> (r: Result<FeelNumber, NumberError>)
        ensures
            match r {
                Ok(n) => scale_allowed(self@, scale as int) && n@ == round_half_up_value(
                    self@,
                    scale as int,
                ) && n.computed() && rounding::in_format(n@),
                Err(e) => !scale_allowed(self@, scale as int) && e == scale_error(
                    self@,
                    scale as int,
                ),
            },
            r matches Ok(n) ==> (self@ is Finite && !self@.is_zero() ==> forall|q: nat| #[trigger]
                results::holds_units(self@, scale as int, q) ==> backend::same_number(
                    n@,
                    results::units_from(self@, scale as int, q, 5),
                )),
    {
        proof {
            use_type_invariant(self);
            decimal::lemma_limbs_bound(self.value.limbs@);
            if self@ is Finite && !self@.is_zero() && scale_allowed(self@, scale as int) {
                assert forall|q: nat| #[trigger]
                    results::holds_units(self@, scale as int, q) implies backend::same_number(
                    round_half_up_value(self@, scale as int),
                    results::units_from(self@, scale as int, q, 5),
                ) by {
                    results::law_half_up_from_half(self@, scale as int, q);
                }
            }
            arithmetic::lemma_integers_in_format(self@);
        }
        if scale == 0 {
            return Ok(FeelNumber { value: arithmetic::nearest_away(self.value), computed: true });
        }
        if let Err(e) = self.validate_scale(scale) {
            return Err(e);
        }
        let scaled = arithmetic::scalbn(self.value, scale);
        let value = unscale(arithmetic::nearest_away(scaled), scale, true);
        Ok(FeelNumber { value, computed: true })
    }

    /// This number rounded half down at a scale: half away from zero on a value moved a
    /// tenth towards zero. Where that is plus or minus one unit at the scale, the result
    /// is plus or minus one.
    pub fn round_half_down(&self, scale: i32) -> (r: Result<FeelNumber, NumberError>)
        ensures
            match r {
                Ok(n) => scale_allowed(self@, scale as int) && n@ == round_half_down_value(
                    self@,
                    scale as int,
                ) && n.computed() && rounding::in_format(n@),
                Err(e) => !scale_allowed(self@, scale as int) && e == scale_error(
                    self@,
                    scale as int,
                ),
            },
            r matches Ok(n) ==> (self@ is Finite && !self@.is_zero() ==> forall|q: nat| #[trigger]
                results::holds_units(self@, scale as int, q) ==> backend::same_number(
                    n@,
                    results::units_from(self@, scale as int, q, 6),
                )),
    {
        proof {
            use_type_invariant(self);
            decimal::lemma_limbs_bound(self.value.limbs@);
            if self@ is Finite && !self@.is_zero() && scale_allowed(self@, scale as int) {
                assert forall|q: nat| #[trigger]
                    results::holds_units(self@, scale as int, q) implies backend::same_number(
                    round_half_down_value(self@, scale as int),
                    results::units_from(self@, scale as int, q, 6),
                ) by {
                    results::law_half_down_from_six_tenths(self@, scale as int, q);
                }
            }
            arithmetic::lemma_integers_in_format(self@);
        }
        if scale == 0 {
            return Ok(FeelNumber { value: nudge(self.value, self.value.negative), computed: true });
        }
        if let Err(e) = self.validate_scale(scale) {
            return Err(e);
        }
        let scaled = arithmetic::scalbn(self.value, scale);
        let value = unscale(nudge(scaled, self.value.negative), scale, true);
        Ok(FeelNumber { value, computed: true })
    }

    /// The next number at a scale, away from zero. Where that is plus or minus one unit at
    /// the scale, the result is plus or minus one.
    pub fn round_up(&self, scale: i32) -> (r: Result<FeelNumber, NumberError>)
        ensures
            match r {
                Ok(n) => scale_allowed(self@, scale as int) && n@ == round_up_value(
                    self@,
                    scale as int,
                ) && n.computed() && rounding::in_format(n@),
                Err(e) => !scale_allowed(self@, scale as int) && e == scale_error(
                    self@,
                    scale as int,
                ),
            },
            r matches Ok(n) ==> (self@ is Finite && !self@.is_zero() ==> forall|q: nat| #[trigger]
                results::holds_units(self@, scale as int, q) ==> backend::same_number(
                    n@,
                    results::completed_units(self@, scale as int, q),
                )),
    {
        proof {
            use_type_invariant(self);
            decimal::lemma_limbs_bound(self.value.limbs@);
            if self@ is Finite && !self@.is_zero() && scale_allowed(self@, scale as int) {
                assert forall|q: nat| #[trigger]
                    results::holds_units(self@, scale as int, q) implies backend::same_number(
                    round_up_value(self@, scale as int),
                    results::completed_units(self@, scale as int, q),
                ) by {
                    results::law_round_up_completes(self@, scale as int, q);
                }
            }
            arithmetic::lemma_integers_in_format(self@);
        }
        if scale == 0 {
            return Ok(FeelNumber { value: away(self.value, self.value.negative), computed: true });
        }
        if let Err(e) = self.validate_scale(scale) {
            return Err(e);
        }
        let scaled = arithmetic::scalbn(self.value, scale);
        let value = unscale(away(scaled, self.value.negative), scale, true);
        Ok(FeelNumber { value, computed: true })
    }

    /// Round to the scale that a number stands for, half to even.
    pub fn round(&self, rhs: &FeelNumber) -> (r: FeelNumber)
        ensures
            r@ == rounding::normalized(rounding::rescaled(self@, scale_argument(rhs@))),
            self@ is Finite ==> forall|n: int|
                i16::MIN <= n <= i16::MAX && #[trigger] results::has_whole_part(rhs@, n)
                    ==> exists|k: nat| #[trigger]
                    results::nearest_units(self@, k, n) && backend::same_number(
                        r@,
                        rounding::normalized(results::units_like(self@, k, n)),
                    ),
            !r.computed(),
            rounding::in_format(r@),
    {
        proof {
            use_type_invariant(self);
            use_type_invariant(rhs);
            decimal::lemma_limbs_bound(self.value.limbs@);
            decimal::lemma_limbs_bound(rhs.value.limbs@);
            if self@ is Finite {
                assert forall|n: int|
                    i16::MIN <= n <= i16::MAX && #[trigger] results::has_whole_part(
                        rhs@,
                        n,
                    ) implies exists|k: nat| #[trigger]
                    results::nearest_units(self@, k, n) && backend::same_number(
                        rounding::normalized(rounding::rescaled(self@, scale_argument(rhs@))),
                        rounding::normalized(results::units_like(self@, k, n)),
                    ) by {
                    let k = results::law_round_is_nearest(self@, rhs@, n);
                    assert(results::nearest_units(self@, k, n));
                }
            }
        }
        let n: i32 = to_i32_trunc(rhs.value);
        let scale: i16 = if n < i16::MIN as i32 {
            i16::MIN
        } else if n > i16::MAX as i32 {
            i16::MAX
        } else {
            n as i16
        };
        proof {
            decimal::lemma_limbs_bound(self.value.limbs@);
            lemma_settles(self@, scale as int);
        }
        let rescaled = rounding::rescale_half_even(self.value, scale);
        FeelNumber { value: rounding::norm(rescaled), computed: false }
    }

    /// Whether the number is even. A number that is no integer is even where nothing
    /// is left of it after whole multiples of two.
    pub fn even(&self) -> (r: bool)
        ensures
            r == even_value(self@),
    {
        proof {
            use_type_invariant(self);
            lemma_small_in_format(2);
        }
        match arithmetic::exact_parity(self.value) {
            Some(even) => even,
            None => arithmetic::remainder(self.value, Decimal::small(2)).is_zero(),
        }
    }

    /// Whether the number is odd; only an integer is.
    pub fn odd(&self) -> (r: bool)
        ensures
            r == odd_value(self@),
    {
        proof {
            use_type_invariant(self);
            lemma_small_in_format(2);
        }
        if self.is_integer() {
            match arithmetic::exact_parity(self.value) {
                Some(even) => !even,
                None => !arithmetic::remainder(self.value, Decimal::small(2)).is_zero(),
            }
        } else {
            false
        }
    }

    /// `e` to the power of this number, or nothing where the result is not finite.
    pub fn exp(&self) -> (r: Option<FeelNumber>)
        ensures
            optional(r) == finite_or_none(
                rounding::normalized(arithmetic::raw_exponential(self@)),
            ),
            r matches Some(n) ==> n.computed() && rounding::in_format(n@),
            r matches Some(n) ==> (self@ is Finite && !self@.is_zero() ==> backend::beside_one(
                n@,
                !self@.negative(),
            )),
            r matches Some(n) ==> (self@ is Finite && !self@.is_zero() ==> results::inverse_powers(
                n@,
                rounding::normalized(arithmetic::raw_exponential(self@.negated())),
            )),
    {
        finite_only(arithmetic::exp(self.value))
    }

    /// The natural logarithm, or nothing where it is not finite.
    pub fn ln(&self) -> (r: Option<FeelNumber>)
        ensures
            optional(r) == finite_or_none(
                rounding::normalized(arithmetic::logarithm_value(self@)),
            ),
            r matches Some(n) ==> n.computed() && rounding::in_format(n@),
            r matches Some(n) ==> (backend::at_least_two(self@) ==> !n@.negative()),
            r matches Some(n) ==> (backend::at_most_half(self@) ==> n@.negative() || n@.is_zero()),
    {
        finite_only(arithmetic::ln(self.value))
    }

    /// This number to the power of another, or nothing where the result is not finite.
    pub fn pow(&self, rhs: &FeelNumber) -> (r: Option<FeelNumber>)
        ensures
            optional(r) == finite_or_none(
                rounding::normalized(arithmetic::power_value(self@, rhs@)),
            ),
            r matches Some(n) ==> n.computed() && rounding::in_format(n@),
            r matches Some(n) ==> (backend::at_least_two(self@) && rhs@ is Finite
                && !rhs@.is_zero() ==> backend::beside_one(n@, !rhs@.negative())),
            r matches Some(n) ==> (backend::at_most_half(self@) && rhs@ is Finite
                && !rhs@.is_zero() ==> backend::beside_one(n@, rhs@.negative())),
            r matches Some(n) ==> (arithmetic::both_nonzero(self@, rhs@) && !self@.negative()
                && !is_unit(self@) ==> results::inverse_powers(
                n@,
                arithmetic::power_value(self@, rhs@.negated()),
            )),
    {
        proof {
            use_type_invariant(self);
            use_type_invariant(rhs);
        }
        let power = arithmetic::pow(self.value, rhs.value);
        proof {
            laws::law_power_is_in_format(
                self@,
                rhs@,
                powers::range_of(self@.magnitude(), rhs@),
            );
            if backend::beside_one(power@, true) {
                results::law_format_keeps_side_of_one(power@, true);
            }
            if backend::beside_one(power@, false) {
                results::law_format_keeps_side_of_one(power@, false);
            }
        }
        finite_only(rounding::norm(power))
    }

    /// The square of this number, or nothing where it is not finite.
    pub fn square(&self) -> (r: Option<FeelNumber>)
        ensures
            optional(r) == finite_or_none(
                rounding::normalized(arithmetic::power_value(self@, DecimalView::two())),
            ),
            r matches Some(n) ==> n.computed() && rounding::in_format(n@),
            self@ is Finite ==> match r {
                Some(n) => backend::same_number(
                    n@,
                    rounding::normalized(arithmetic::product_value(self@, self@)),
                ),
                None => rounding::normalized(
                    arithmetic::product_value(self@, self@),
                ) is Infinite,
            },
    {
        proof {
            use_type_invariant(self);
            lemma_small_in_format(2);
            decimal::lemma_limbs_bound(self.value.limbs@);
            if self@ is Finite {
                laws::law_square_is_product(self@);
            }
        }
        finite_only(rounding::norm(arithmetic::pow(self.value, Decimal::small(2))))
    }

    /// The square root, or nothing where it is not finite.
    pub fn sqrt(&self) -> (r: Option<FeelNumber>)
        ensures
            optional(r) == finite_or_none(arithmetic::raw_root(self@)),
            r matches Some(n) ==> n.computed() && rounding::in_format(n@),
            self@ is Finite && !self@.is_zero() && !self@.negative() ==> (r matches Some(n)
                && backend::squares_to(n@, self@, 33, 2)),
    {
        proof {
            use_type_invariant(self);
        }
        finite_only(arithmetic::sqrt(self.value))
    }

    /// The fraction of this number.
    pub fn frac(&self) -> (r: FeelNumber)
        ensures
            r@ == rounding::normalized(
                arithmetic::difference_value(self@, arithmetic::trunc_of(self@)),
            ),
            r.computed(),
            rounding::in_format(r@),
    {
        proof {
            use_type_invariant(self);
            arithmetic::lemma_integers_in_format(self@);
        }
        let whole = arithmetic::trunc_i(self.value);
        FeelNumber { value: arithmetic::minus(self.value, whole), computed: true }
    }

    /// This number without its fraction.
    pub fn trunc(&self) -> (r: FeelNumber)
        ensures
            r@ == arithmetic::trunc_of(self@),
            !r.computed(),
            rounding::in_format(r@),
    {
        proof {
            use_type_invariant(self);
            arithmetic::lemma_integers_in_format(self@);
        }
        FeelNumber { value: arithmetic::trunc_i(self.value), computed: false }
    }

    /// Whether the number has no fraction.
    pub fn is_integer(&self) -> (r: bool)
        ensures
            r == integer_like(self@),
    {
        proof {
            arithmetic::lemma_integral(self@);
        }
        arithmetic::num_eq(self.value, arithmetic::trunc_i(self.value))
    }

    /// Whether the number is zero.
    pub fn is_zero(&self) -> (r: bool)
        ensures
            r == self@.is_zero(),
    {
        self.value.is_zero()
    }

    /// Whether the number is one.
    pub fn is_one(&self) -> (r: bool)
        ensures
            r == backend::same_number(self@, DecimalView::one()),
    {
        arithmetic::num_eq(self.value, Decimal::small(1))
    }

    /// Whether the number is below zero.
    pub fn is_negative(&self) -> (r: bool)
        ensures
            r == (arithmetic::number_order(self@, DecimalView::zero()) < 0),
            r == (self@.negative() && !self@.is_zero()),
    {
        proof {
            lemma_order_to_zero(self@);
        }
        arithmetic::num_lt(self.value, Decimal::small(0))
    }

    /// Whether the number is above zero.
    pub fn is_positive(&self) -> (r: bool)
        ensures
            r == (arithmetic::number_order(self@, DecimalView::zero()) > 0),
            r == (!self@.negative() && !self@.is_zero()),
    {
        proof {
            lemma_order_to_zero(self@);
        }
        arithmetic::num_gt(self.value, Decimal::small(0))
    }
}

/// Whether a value has no fraction; an infinity counts, a NaN does not.
pub open spec fn integer_like(v: DecimalView) -> bool {
    v is Infinite || (v matches DecimalView::Finite { coefficient, scale, .. } && backend::integral(
        coefficient,
        scale,
    ))
}

/// Whether a value is even: by its digits where it is an integer, by the remainder
/// of a division by two otherwise.
pub open spec fn even_value(v: DecimalView) -> bool {
    match arithmetic::parity(v) {
        Some(even) => even,
        None => arithmetic::remainder_value(v, DecimalView::two()).is_zero(),
    }
}

/// Whether a value is odd: no fraction, and not even.
pub open spec fn odd_value(v: DecimalView) -> bool {
    integer_like(v) && !even_value(v)
}

/// Move a value a tenth towards zero and round it to an integer.
fn nudge(n: Decimal, negative: bool) -> (r: Decimal)
    requires
        rounding::in_format(n@),
    ensures
        r@ == nudged(n@, negative),
        rounding::in_format(r@),
{
    let tenth = Decimal {
        nan: false,
        infinite: false,
        negative: false,
        limbs: [1, 0, 0, 0],
        scale: 1,
    };
    assert(digits::digit_count(1) == 1) by {
        reveal_with_fuel(digits::digit_count, 2);
    }
    let moved = if negative {
        arithmetic::plus(n, tenth)
    } else {
        arithmetic::minus(n, tenth)
    };
    proof {
        arithmetic::lemma_integers_in_format(moved@);
    }
    arithmetic::nearest_away(moved)
}

/// Round to an integer away from zero, by the given sign.
fn away(n: Decimal, negative: bool) -> (r: Decimal)
    requires
        rounding::in_format(n@),
    ensures
        r@ == (if negative {
            arithmetic::floor_of(n@)
        } else {
            arithmetic::ceil_of(n@)
        }),
        rounding::in_format(r@),
{
    proof {
        arithmetic::lemma_integers_in_format(n@);
    }
    if negative {
        arithmetic::floor_i(n)
    } else {
        arithmetic::ceil_i(n)
    }
}

/// How a value stands to zero: by its sign, unless it is zero.
pub proof fn lemma_order_to_zero(v: DecimalView)
    ensures
        arithmetic::number_order(v, DecimalView::zero()) < 0 <==> v.negative() && !v.is_zero(),
        arithmetic::number_order(v, DecimalView::zero()) > 0 <==> !v.negative() && !v.is_zero(),
{
    if let DecimalView::Finite { coefficient, scale, .. } = v {
        if scale < 0 {
            let p = digits::pow10((0 - scale) as nat);
            digits::lemma_pow10_monotonic((0 - scale) as nat, (0 - scale) as nat);
            assert(coefficient > 0 ==> coefficient * p > 0) by (nonlinear_arith)
                requires
                    p >= 1,
            ;
        } else if scale > 0 {
            assert(0 * digits::pow10((scale - 0) as nat) == 0) by (nonlinear_arith);
        }
    }
}

/// Rounding a value of the format to a scale leaves at most 34 digits and zeros.
pub proof fn lemma_settles(v: DecimalView, new_scale: int)
    requires
        rounding::in_format(v),
        v.representable(),
        i16::MIN <= new_scale <= i16::MAX,
    ensures
        v matches DecimalView::Finite { coefficient, scale, .. } ==> rounding::settles(
            coefficient,
            scale,
            new_scale,
        ),
{
    if let DecimalView::Finite { coefficient: c, scale: s, .. } = v {
        if new_scale < s {
            let k = (s - new_scale) as nat;
            let n = digits::digit_count(c);
            let unit = digits::pow10(k);
            let whole = c / unit;
            let q = rounding::half_even_quotient(c, k);
            digits::lemma_pow10_monotonic(k, k);
            digits::lemma_digit_count_scale_down(c, k);
            rounding::lemma_coefficient_digits(c);
            assert(whole >= 0) by (nonlinear_arith)
                requires
                    whole == c / unit,
                    unit >= 1,
            ;
            if n > rounding::PRECISION && n - rounding::PRECISION >= k {
                let j = (n - rounding::PRECISION - k) as nat;
                assert(k + j == (n - rounding::PRECISION) as nat);
                arithmetic::lemma_divisible_split(c, k, j);
                assert(q == whole);
            } else {
                digits::lemma_digit_count_at_most(whole, 33);
                assert(digits::pow10(34) == 10 * digits::pow10(33));
                digits::lemma_digit_count_at_most(q, 34);
            }
        }
    }
}

/// A positive integer of at most 34 digits is in the format.
pub proof fn lemma_small_in_format(n: nat)
    requires
        0 < n <= 0xffff_ffff_ffff_ffff,
    ensures
        rounding::in_format(DecimalView::Finite { negative: false, coefficient: n, scale: 0 }),
        rounding::in_format(DecimalView::Finite { negative: true, coefficient: n, scale: 0 }),
{
    digits::lemma_digit_count_at_most(n, 20);
    assert(digits::pow10(20) == 100_000_000_000_000_000_000) by {
        reveal_with_fuel(digits::pow10, 21);
    }
    digits::lemma_digit_count_bounds(n);
}

} // verus!
