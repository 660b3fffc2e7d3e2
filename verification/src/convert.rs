//! Conversion of FEEL numbers from and to machine integers, and from text.

use crate::arithmetic;
use crate::backend;
use crate::decimal::{Decimal, DecimalView};
use crate::digits;
use crate::grammar;
use crate::errors::NumberError;
use crate::number;
use crate::number::FeelNumber;
use crate::rounding;
use vstd::prelude::*;
use vstd::std_specs::convert::{FromSpecImpl, TryFromSpecImpl};

verus! {

/// An integer as a value at scale 0.
pub open spec fn integer_of(n: int) -> DecimalView {
    DecimalView::Finite { negative: n < 0, coefficient: vstd::math::abs(n) as nat, scale: 0 }
}

/// A pointer-sized integer as a value at scale 0.
pub open spec fn isize_value(n: isize) -> DecimalView {
    integer_of(n as int)
}

/// The decimal of a machine integer, read from its text.
pub(crate) fn integer_decimal(n: i128) -> (d: Decimal)
    requires
        -0xffff_ffff_ffff_ffff <= n <= 0xffff_ffff_ffff_ffff,
    ensures
        d@ == integer_of(n as int),
        rounding::in_format(d@),
{
    let text = digits::integer_string(n);
    let ghost m = vstd::math::abs(n as int) as nat;
    proof {
        let none = Seq::<char>::empty();
        let whole = digits::decimal_text(m);
        digits::lemma_decimal_text(m);
        digits::lemma_digit_count_at_most(m, 20);
        assert(digits::pow10(20) == 100_000_000_000_000_000_000) by {
            reveal_with_fuel(digits::pow10, 21);
        }
        rounding::lemma_integer_text(n as int);
        rounding::lemma_no_point(text@);
        assert(whole + none =~= whole);
        assert(text@ =~= grammar::plain(n < 0, whole, none).text());
        grammar::lemma_plain(n < 0, whole, none);
        if m > 0 {
            number::lemma_small_in_format(m);
        }
    }
    let raw = match backend::parse(text.as_str()) {
        Some(d) => d,
        None => Decimal::not_a_number(),
    };
    rounding::norm(raw)
}

/// The decimal of a pointer-sized integer.
pub(crate) fn isize_decimal(n: isize) -> (d: Decimal)
    ensures
        d@ == isize_value(n),
        rounding::in_format(d@),
{
    integer_decimal(n as i128)
}

/// The integer that is left of a finite value without its fraction.
pub open spec fn whole_part(v: DecimalView) -> Option<int> {
    match arithmetic::trunc_of(v) {
        DecimalView::Finite { negative, coefficient, scale } => Some(
            backend::integer_value(negative, coefficient, scale),
        ),
        _ => None,
    }
}

/// The truncating conversion to a wide machine integer.
fn to_wide(n: &FeelNumber) -> (r: Option<i128>)
    ensures
        match r {
            Some(i) => whole_part(n@) == Some(i as int),
            None => whole_part(n@) matches Some(i) ==> i < i128::MIN || i > i128::MAX,
        },
{
    let value = n.parts();
    if !value.is_finite() {
        return None;
    }
    backend::to_i128(arithmetic::trunc_i(value))
}

impl From<u8> for FeelNumber {
    fn from(value: u8) -> (r: FeelNumber)
        ensures
            r@ == integer_of(value as int),
            !r.computed(),
            rounding::in_format(r@),
    {
        FeelNumber::from_parts(integer_decimal(value as i128), false)
    }
}

impl FromSpecImpl<u8> for FeelNumber {
    open spec fn obeys_from_spec() -> bool {
        false
    }

    open spec fn from_spec(value: u8) -> FeelNumber {
        arbitrary()
    }
}

impl From<i8> for FeelNumber {
    fn from(value: i8) -> (r: FeelNumber)
        ensures
            r@ == integer_of(value as int),
            !r.computed(),
            rounding::in_format(r@),
    {
        FeelNumber::from_parts(integer_decimal(value as i128), false)
    }
}

impl FromSpecImpl<i8> for FeelNumber {
    open spec fn obeys_from_spec() -> bool {
        false
    }

    open spec fn from_spec(value: i8) -> FeelNumber {
        arbitrary()
    }
}

impl From<u16> for FeelNumber {
    fn from(value: u16) -> (r: FeelNumber)
        ensures
            r@ == integer_of(value as int),
            !r.computed(),
            rounding::in_format(r@),
    {
        FeelNumber::from_parts(integer_decimal(value as i128), false)
    }
}

impl FromSpecImpl<u16> for FeelNumber {
    open spec fn obeys_from_spec() -> bool {
        false
    }

    open spec fn from_spec(value: u16) -> FeelNumber {
        arbitrary()
    }
}

impl From<i16> for FeelNumber {
    fn from(value: i16) -> (r: FeelNumber)
        ensures
            r@ == integer_of(value as int),
            !r.computed(),
            rounding::in_format(r@),
    {
        FeelNumber::from_parts(integer_decimal(value as i128), false)
    }
}

impl FromSpecImpl<i16> for FeelNumber {
    open spec fn obeys_from_spec() -> bool {
        false
    }

    open spec fn from_spec(value: i16) -> FeelNumber {
        arbitrary()
    }
}

impl From<u32> for FeelNumber {
    fn from(value: u32) -> (r: FeelNumber)
        ensures
            r@ == integer_of(value as int),
            !r.computed(),
            rounding::in_format(r@),
    {
        FeelNumber::from_parts(integer_decimal(value as i128), false)
    }
}

impl FromSpecImpl<u32> for FeelNumber {
    open spec fn obeys_from_spec() -> bool {
        false
    }

    open spec fn from_spec(value: u32) -> FeelNumber {
        arbitrary()
    }
}

impl From<i32> for FeelNumber {
    fn from(value: i32) -> (r: FeelNumber)
        ensures
            r@ == integer_of(value as int),
            !r.computed(),
            rounding::in_format(r@),
    {
        FeelNumber::from_parts(integer_decimal(value as i128), false)
    }
}

impl FromSpecImpl<i32> for FeelNumber {
    open spec fn obeys_from_spec() -> bool {
        false
    }

    open spec fn from_spec(value: i32) -> FeelNumber {
        arbitrary()
    }
}

impl From<u64> for FeelNumber {
    fn from(value: u64) -> (r: FeelNumber)
        ensures
            r@ == integer_of(value as int),
            !r.computed(),
            rounding::in_format(r@),
    {
        FeelNumber::from_parts(integer_decimal(value as i128), false)
    }
}

impl FromSpecImpl<u64> for FeelNumber {
    open spec fn obeys_from_spec() -> bool {
        false
    }

    open spec fn from_spec(value: u64) -> FeelNumber {
        arbitrary()
    }
}

impl From<i64> for FeelNumber {
    fn from(value: i64) -> (r: FeelNumber)
        ensures
            r@ == integer_of(value as int),
            !r.computed(),
            rounding::in_format(r@),
    {
        FeelNumber::from_parts(integer_decimal(value as i128), false)
    }
}

impl FromSpecImpl<i64> for FeelNumber {
    open spec fn obeys_from_spec() -> bool {
        false
    }

    open spec fn from_spec(value: i64) -> FeelNumber {
        arbitrary()
    }
}

impl From<isize> for FeelNumber {
    fn from(value: isize) -> (r: FeelNumber)
        ensures
            r@ == integer_of(value as int),
            !r.computed(),
            rounding::in_format(r@),
    {
        FeelNumber::from_parts(integer_decimal(value as i128), false)
    }
}

impl FromSpecImpl<isize> for FeelNumber {
    open spec fn obeys_from_spec() -> bool {
        false
    }

    open spec fn from_spec(value: isize) -> FeelNumber {
        arbitrary()
    }
}

impl From<usize> for FeelNumber {
    fn from(value: usize) -> (r: FeelNumber)
        ensures
            r@ == integer_of(value as int),
            !r.computed(),
            rounding::in_format(r@),
    {
        FeelNumber::from_parts(integer_decimal(value as i128), false)
    }
}

impl FromSpecImpl<usize> for FeelNumber {
    open spec fn obeys_from_spec() -> bool {
        false
    }

    open spec fn from_spec(value: usize) -> FeelNumber {
        arbitrary()
    }
}

impl TryFrom<&FeelNumber> for u8 {
    type Error = NumberError;

    fn try_from(value: &FeelNumber) -> (r: Result<u8, NumberError>)
        ensures
            match r {
                Ok(n) => whole_part(value@) == Some(n as int),
                Err(e) => e is NumberConversionFailed && (whole_part(value@) matches Some(n) ==> n
                    < u8::MIN || n > u8::MAX),
            },
    {
        match to_wide(value) {
            Some(n) => if u8::MIN as i128 <= n && n <= u8::MAX as i128 {
                Ok(n as u8)
            } else {
                Err(NumberError::NumberConversionFailed)
            },
            None => Err(NumberError::NumberConversionFailed),
        }
    }
}

impl TryFromSpecImpl<&FeelNumber> for u8 {
    open spec fn obeys_try_from_spec() -> bool {
        false
    }

    open spec fn try_from_spec(value: &FeelNumber) -> Result<u8, NumberError> {
        arbitrary()
    }
}

impl TryFrom<FeelNumber> for u8 {
    type Error = NumberError;

    fn try_from(value: FeelNumber) -> (r: Result<u8, NumberError>)
        ensures
            match r {
                Ok(n) => whole_part(value@) == Some(n as int),
                Err(e) => e is NumberConversionFailed && (whole_part(value@) matches Some(n) ==> n
                    < u8::MIN || n > u8::MAX),
            },
    {
        u8::try_from(&value)
    }
}

impl TryFromSpecImpl<FeelNumber> for u8 {
    open spec fn obeys_try_from_spec() -> bool {
        false
    }

    open spec fn try_from_spec(value: FeelNumber) -> Result<u8, NumberError> {
        arbitrary()
    }
}

impl TryFrom<&FeelNumber> for i8 {
    type Error = NumberError;

    fn try_from(value: &FeelNumber) -> (r: Result<i8, NumberError>)
        ensures
            match r {
                Ok(n) => whole_part(value@) == Some(n as int),
                Err(e) => e is NumberConversionFailed && (whole_part(value@) matches Some(n) ==> n
                    < i8::MIN || n > i8::MAX),
            },
    {
        match to_wide(value) {
            Some(n) => if i8::MIN as i128 <= n && n <= i8::MAX as i128 {
                Ok(n as i8)
            } else {
                Err(NumberError::NumberConversionFailed)
            },
            None => Err(NumberError::NumberConversionFailed),
        }
    }
}

impl TryFromSpecImpl<&FeelNumber> for i8 {
    open spec fn obeys_try_from_spec() -> bool {
        false
    }

    open spec fn try_from_spec(value: &FeelNumber) -> Result<i8, NumberError> {
        arbitrary()
    }
}

impl TryFrom<FeelNumber> for i8 {
    type Error = NumberError;

    fn try_from(value: FeelNumber) -> (r: Result<i8, NumberError>)
        ensures
            match r {
                Ok(n) => whole_part(value@) == Some(n as int),
                Err(e) => e is NumberConversionFailed && (whole_part(value@) matches Some(n) ==> n
                    < i8::MIN || n > i8::MAX),
            },
    {
        i8::try_from(&value)
    }
}

impl TryFromSpecImpl<FeelNumber> for i8 {
    open spec fn obeys_try_from_spec() -> bool {
        false
    }

    open spec fn try_from_spec(value: FeelNumber) -> Result<i8, NumberError> {
        arbitrary()
    }
}

impl TryFrom<&FeelNumber> for u16 {
    type Error = NumberError;

    fn try_from(value: &FeelNumber) -> (r: Result<u16, NumberError>)
        ensures
            match r {
                Ok(n) => whole_part(value@) == Some(n as int),
                Err(e) => e is NumberConversionFailed && (whole_part(value@) matches Some(n) ==> n
                    < u16::MIN || n > u16::MAX),
            },
    {
        match to_wide(value) {
            Some(n) => if u16::MIN as i128 <= n && n <= u16::MAX as i128 {
                Ok(n as u16)
            } else {
                Err(NumberError::NumberConversionFailed)
            },
            None => Err(NumberError::NumberConversionFailed),
        }
    }
}

impl TryFromSpecImpl<&FeelNumber> for u16 {
    open spec fn obeys_try_from_spec() -> bool {
        false
    }

    open spec fn try_from_spec(value: &FeelNumber) -> Result<u16, NumberError> {
        arbitrary()
    }
}

impl TryFrom<FeelNumber> for u16 {
    type Error = NumberError;

    fn try_from(value: FeelNumber) -> (r: Result<u16, NumberError>)
        ensures
            match r {
                Ok(n) => whole_part(value@) == Some(n as int),
                Err(e) => e is NumberConversionFailed && (whole_part(value@) matches Some(n) ==> n
                    < u16::MIN || n > u16::MAX),
            },
    {
        u16::try_from(&value)
    }
}

impl TryFromSpecImpl<FeelNumber> for u16 {
    open spec fn obeys_try_from_spec() -> bool {
        false
    }

    open spec fn try_from_spec(value: FeelNumber) -> Result<u16, NumberError> {
        arbitrary()
    }
}

impl TryFrom<&FeelNumber> for i16 {
    type Error = NumberError;

    fn try_from(value: &FeelNumber) -> (r: Result<i16, NumberError>)
        ensures
            match r {
                Ok(n) => whole_part(value@) == Some(n as int),
                Err(e) => e is NumberConversionFailed && (whole_part(value@) matches Some(n) ==> n
                    < i16::MIN || n > i16::MAX),
            },
    {
        match to_wide(value) {
            Some(n) => if i16::MIN as i128 <= n && n <= i16::MAX as i128 {
                Ok(n as i16)
            } else {
                Err(NumberError::NumberConversionFailed)
            },
            None => Err(NumberError::NumberConversionFailed),
        }
    }
}

impl TryFromSpecImpl<&FeelNumber> for i16 {
    open spec fn obeys_try_from_spec() -> bool {
        false
    }

    open spec fn try_from_spec(value: &FeelNumber) -> Result<i16, NumberError> {
        arbitrary()
    }
}

impl TryFrom<FeelNumber> for i16 {
    type Error = NumberError;

    fn try_from(value: FeelNumber) -> (r: Result<i16, NumberError>)
        ensures
            match r {
                Ok(n) => whole_part(value@) == Some(n as int),
                Err(e) => e is NumberConversionFailed && (whole_part(value@) matches Some(n) ==> n
                    < i16::MIN || n > i16::MAX),
            },
    {
        i16::try_from(&value)
    }
}

impl TryFromSpecImpl<FeelNumber> for i16 {
    open spec fn obeys_try_from_spec() -> bool {
        false
    }

    open spec fn try_from_spec(value: FeelNumber) -> Result<i16, NumberError> {
        arbitrary()
    }
}

impl TryFrom<&FeelNumber> for u32 {
    type Error = NumberError;

    fn try_from(value: &FeelNumber) -> (r: Result<u32, NumberError>)
        ensures
            match r {
                Ok(n) => whole_part(value@) == Some(n as int),
                Err(e) => e is NumberConversionFailed && (whole_part(value@) matches Some(n) ==> n
                    < u32::MIN || n > u32::MAX),
            },
    {
        match to_wide(value) {
            Some(n) => if u32::MIN as i128 <= n && n <= u32::MAX as i128 {
                Ok(n as u32)
            } else {
                Err(NumberError::NumberConversionFailed)
            },
            None => Err(NumberError::NumberConversionFailed),
        }
    }
}

impl TryFromSpecImpl<&FeelNumber> for u32 {
    open spec fn obeys_try_from_spec() -> bool {
        false
    }

    open spec fn try_from_spec(value: &FeelNumber) -> Result<u32, NumberError> {
        arbitrary()
    }
}

impl TryFrom<FeelNumber> for u32 {
    type Error = NumberError;

    fn try_from(value: FeelNumber) -> (r: Result<u32, NumberError>)
        ensures
            match r {
                Ok(n) => whole_part(value@) == Some(n as int),
                Err(e) => e is NumberConversionFailed && (whole_part(value@) matches Some(n) ==> n
                    < u32::MIN || n > u32::MAX),
            },
    {
        u32::try_from(&value)
    }
}

impl TryFromSpecImpl<FeelNumber> for u32 {
    open spec fn obeys_try_from_spec() -> bool {
        false
    }

    open spec fn try_from_spec(value: FeelNumber) -> Result<u32, NumberError> {
        arbitrary()
    }
}

impl TryFrom<&FeelNumber> for i32 {
    type Error = NumberError;

    fn try_from(value: &FeelNumber) -> (r: Result<i32, NumberError>)
        ensures
            match r {
                Ok(n) => whole_part(value@) == Some(n as int),
                Err(e) => e is NumberConversionFailed && (whole_part(value@) matches Some(n) ==> n
                    < i32::MIN || n > i32::MAX),
            },
    {
        match to_wide(value) {
            Some(n) => if i32::MIN as i128 <= n && n <= i32::MAX as i128 {
                Ok(n as i32)
            } else {
                Err(NumberError::NumberConversionFailed)
            },
            None => Err(NumberError::NumberConversionFailed),
        }
    }
}

impl TryFromSpecImpl<&FeelNumber> for i32 {
    open spec fn obeys_try_from_spec() -> bool {
        false
    }

    open spec fn try_from_spec(value: &FeelNumber) -> Result<i32, NumberError> {
        arbitrary()
    }
}

impl TryFrom<FeelNumber> for i32 {
    type Error = NumberError;

    fn try_from(value: FeelNumber) -> (r: Result<i32, NumberError>)
        ensures
            match r {
                Ok(n) => whole_part(value@) == Some(n as int),
                Err(e) => e is NumberConversionFailed && (whole_part(value@) matches Some(n) ==> n
                    < i32::MIN || n > i32::MAX),
            },
    {
        i32::try_from(&value)
    }
}

impl TryFromSpecImpl<FeelNumber> for i32 {
    open spec fn obeys_try_from_spec() -> bool {
        false
    }

    open spec fn try_from_spec(value: FeelNumber) -> Result<i32, NumberError> {
        arbitrary()
    }
}

impl TryFrom<&FeelNumber> for u64 {
    type Error = NumberError;

    fn try_from(value: &FeelNumber) -> (r: Result<u64, NumberError>)
        ensures
            match r {
                Ok(n) => whole_part(value@) == Some(n as int),
                Err(e) => e is NumberConversionFailed && (whole_part(value@) matches Some(n) ==> n
                    < u64::MIN || n > u64::MAX),
            },
    {
        match to_wide(value) {
            Some(n) => if u64::MIN as i128 <= n && n <= u64::MAX as i128 {
                Ok(n as u64)
            } else {
                Err(NumberError::NumberConversionFailed)
            },
            None => Err(NumberError::NumberConversionFailed),
        }
    }
}

impl TryFromSpecImpl<&FeelNumber> for u64 {
    open spec fn obeys_try_from_spec() -> bool {
        false
    }

    open spec fn try_from_spec(value: &FeelNumber) -> Result<u64, NumberError> {
        arbitrary()
    }
}

impl TryFrom<FeelNumber> for u64 {
    type Error = NumberError;

    fn try_from(value: FeelNumber) -> (r: Result<u64, NumberError>)
        ensures
            match r {
                Ok(n) => whole_part(value@) == Some(n as int),
                Err(e) => e is NumberConversionFailed && (whole_part(value@) matches Some(n) ==> n
                    < u64::MIN || n > u64::MAX),
            },
    {
        u64::try_from(&value)
    }
}

impl TryFromSpecImpl<FeelNumber> for u64 {
    open spec fn obeys_try_from_spec() -> bool {
        false
    }

    open spec fn try_from_spec(value: FeelNumber) -> Result<u64, NumberError> {
        arbitrary()
    }
}

impl TryFrom<&FeelNumber> for i64 {
    type Error = NumberError;

    fn try_from(value: &FeelNumber) -> (r: Result<i64, NumberError>)
        ensures
            match r {
                Ok(n) => whole_part(value@) == Some(n as int),
                Err(e) => e is NumberConversionFailed && (whole_part(value@) matches Some(n) ==> n
                    < i64::MIN || n > i64::MAX),
            },
    {
        match to_wide(value) {
            Some(n) => if i64::MIN as i128 <= n && n <= i64::MAX as i128 {
                Ok(n as i64)
            } else {
                Err(NumberError::NumberConversionFailed)
            },
            None => Err(NumberError::NumberConversionFailed),
        }
    }
}

impl TryFromSpecImpl<&FeelNumber> for i64 {
    open spec fn obeys_try_from_spec() -> bool {
        false
    }

    open spec fn try_from_spec(value: &FeelNumber) -> Result<i64, NumberError> {
        arbitrary()
    }
}

impl TryFrom<FeelNumber> for i64 {
    type Error = NumberError;

    fn try_from(value: FeelNumber) -> (r: Result<i64, NumberError>)
        ensures
            match r {
                Ok(n) => whole_part(value@) == Some(n as int),
                Err(e) => e is NumberConversionFailed && (whole_part(value@) matches Some(n) ==> n
                    < i64::MIN || n > i64::MAX),
            },
    {
        i64::try_from(&value)
    }
}

impl TryFromSpecImpl<FeelNumber> for i64 {
    open spec fn obeys_try_from_spec() -> bool {
        false
    }

    open spec fn try_from_spec(value: FeelNumber) -> Result<i64, NumberError> {
        arbitrary()
    }
}

impl TryFrom<&FeelNumber> for isize {
    type Error = NumberError;

    fn try_from(value: &FeelNumber) -> (r: Result<isize, NumberError>)
        ensures
            match r {
                Ok(n) => whole_part(value@) == Some(n as int),
                Err(e) => e is NumberConversionFailed && (whole_part(value@) matches Some(n) ==> n
                    < isize::MIN || n > isize::MAX),
            },
    {
        match to_wide(value) {
            Some(n) => if isize::MIN as i128 <= n && n <= isize::MAX as i128 {
                Ok(n as isize)
            } else {
                Err(NumberError::NumberConversionFailed)
            },
            None => Err(NumberError::NumberConversionFailed),
        }
    }
}

impl TryFromSpecImpl<&FeelNumber> for isize {
    open spec fn obeys_try_from_spec() -> bool {
        false
    }

    open spec fn try_from_spec(value: &FeelNumber) -> Result<isize, NumberError> {
        arbitrary()
    }
}

impl TryFrom<FeelNumber> for isize {
    type Error = NumberError;

    fn try_from(value: FeelNumber) -> (r: Result<isize, NumberError>)
        ensures
            match r {
                Ok(n) => whole_part(value@) == Some(n as int),
                Err(e) => e is NumberConversionFailed && (whole_part(value@) matches Some(n) ==> n
                    < isize::MIN || n > isize::MAX),
            },
    {
        isize::try_from(&value)
    }
}

impl TryFromSpecImpl<FeelNumber> for isize {
    open spec fn obeys_try_from_spec() -> bool {
        false
    }

    open spec fn try_from_spec(value: FeelNumber) -> Result<isize, NumberError> {
        arbitrary()
    }
}

impl TryFrom<&FeelNumber> for usize {
    type Error = NumberError;

    fn try_from(value: &FeelNumber) -> (r: Result<usize, NumberError>)
        ensures
            match r {
                Ok(n) => whole_part(value@) == Some(n as int),
                Err(e) => e is NumberConversionFailed && (whole_part(value@) matches Some(n) ==> n
                    < usize::MIN || n > usize::MAX),
            },
    {
        match to_wide(value) {
            Some(n) => if usize::MIN as i128 <= n && n <= usize::MAX as i128 {
                Ok(n as usize)
            } else {
                Err(NumberError::NumberConversionFailed)
            },
            None => Err(NumberError::NumberConversionFailed),
        }
    }
}

impl TryFromSpecImpl<&FeelNumber> for usize {
    open spec fn obeys_try_from_spec() -> bool {
        false
    }

    open spec fn try_from_spec(value: &FeelNumber) -> Result<usize, NumberError> {
        arbitrary()
    }
}

impl TryFrom<FeelNumber> for usize {
    type Error = NumberError;

    fn try_from(value: FeelNumber) -> (r: Result<usize, NumberError>)
        ensures
            match r {
                Ok(n) => whole_part(value@) == Some(n as int),
                Err(e) => e is NumberConversionFailed && (whole_part(value@) matches Some(n) ==> n
                    < usize::MIN || n > usize::MAX),
            },
    {
        usize::try_from(&value)
    }
}

impl TryFromSpecImpl<FeelNumber> for usize {
    open spec fn obeys_try_from_spec() -> bool {
        false
    }

    open spec fn try_from_spec(value: FeelNumber) -> Result<usize, NumberError> {
        arbitrary()
    }
}

} // verus!
