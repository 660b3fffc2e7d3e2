//! The texts that stand for numbers.

use crate::backend;
use crate::decimal;
use crate::decimal::DecimalView;
use crate::digits;
use vstd::prelude::*;

verus! {

/// The exponent of a literal: the letter before it, its sign and its digits.
pub struct Exponent {
    pub mark: char,
    pub sign: Seq<char>,
    pub digits: Seq<char>,
}

/// A number as it is typed: an optional sign, digits with an optional point among
/// them, and an optional exponent. Underscores may stand among the digits.
pub struct Literal {
    pub sign: Seq<char>,
    pub whole: Seq<char>,
    pub point: bool,
    pub fraction: Seq<char>,
    pub exponent: Option<Exponent>,
}

/// Whether this is a sign, which may be left out.
pub open spec fn is_sign(s: Seq<char>) -> bool {
    s == seq!['-'] || s == seq!['+'] || s == Seq::<char>::empty()
}

/// Whether nothing but digits and underscores stands here.
pub open spec fn is_run(s: Seq<char>) -> bool {
    forall|i: int| 0 <= i < s.len() ==> digits::is_digit(#[trigger] s[i]) || s[i] == '_'
}

/// The digits that stand among underscores.
pub open spec fn digits_of(s: Seq<char>) -> Seq<char>
    decreases s.len(),
{
    if s.len() == 0 {
        Seq::empty()
    } else if digits::is_digit(s.last()) {
        digits_of(s.drop_last()).push(s.last())
    } else {
        digits_of(s.drop_last())
    }
}

impl Exponent {
    /// The exponent as it is typed.
    pub open spec fn text(self) -> Seq<char> {
        seq![self.mark] + self.sign + self.digits
    }

    /// Whether the parts are in order: `e` or `E`, a sign, and at least one digit.
    pub open spec fn well_formed(self) -> bool {
        &&& self.mark == 'e' || self.mark == 'E'
        &&& is_sign(self.sign)
        &&& self.digits.len() > 0
        &&& digits::all_digits(self.digits)
    }

    /// The power of ten.
    pub open spec fn power(self) -> int {
        decimal::signed(self.sign == seq!['-'], digits::value(self.digits))
    }
}

impl Literal {
    /// The literal as it is typed.
    pub open spec fn text(self) -> Seq<char> {
        let tail = if self.point {
            seq!['.'] + self.fraction
        } else {
            seq![]
        };
        let power = match self.exponent {
            Some(e) => e.text(),
            None => seq![],
        };
        self.sign + self.whole + tail + power
    }

    /// The digits before and after the point.
    pub open spec fn digits(self) -> Seq<char> {
        digits_of(self.whole) + digits_of(self.fraction)
    }

    /// Whether the parts are in order: a sign, digits and underscores with at least one
    /// digit, nothing after a point that is not there, and a well-formed exponent.
    pub open spec fn well_formed(self) -> bool {
        &&& is_sign(self.sign)
        &&& is_run(self.whole)
        &&& is_run(self.fraction)
        &&& !self.point ==> self.fraction.len() == 0
        &&& self.digits().len() > 0
        &&& self.exponent matches Some(e) ==> e.well_formed()
    }

    /// The power of ten.
    pub open spec fn power(self) -> int {
        match self.exponent {
            Some(e) => e.power(),
            None => 0,
        }
    }

    /// What the literal is worth in the wide type, or `None` where its digits do not
    /// fit in a coefficient, its exponent does not fit in 32 bits, or its value lies
    /// above the range of the type.
    pub open spec fn value(self) -> Option<DecimalView> {
        let c = digits::value(self.digits());
        let v = backend::constructed(
            self.sign == seq!['-'],
            c,
            self.power() - digits_of(self.fraction).len(),
        );
        if c >= decimal::coefficient_limit() || self.power() < i32::MIN || self.power() > i32::MAX
            || v is Infinite {
            None
        } else {
            Some(v)
        }
    }
}

/// Whether a text is a literal.
pub open spec fn is_literal(text: Seq<char>) -> bool {
    exists|l: Literal| l.well_formed() && text == #[trigger] l.text()
}

/// The sign of a number, left out where it is positive.
pub open spec fn sign_text(negative: bool) -> Seq<char> {
    if negative {
        seq!['-']
    } else {
        seq![]
    }
}

/// Digits without an exponent, with a point where there is a fraction.
pub open spec fn plain(negative: bool, whole: Seq<char>, fraction: Seq<char>) -> Literal {
    Literal {
        sign: sign_text(negative),
        whole,
        point: fraction.len() > 0,
        fraction,
        exponent: None,
    }
}

/// Digits at a power of ten.
pub open spec fn scientific(negative: bool, whole: Seq<char>, exponent: int) -> Literal {
    Literal {
        sign: sign_text(negative),
        whole,
        point: false,
        fraction: seq![],
        exponent: Some(
            Exponent {
                mark: 'E',
                sign: sign_text(exponent < 0),
                digits: digits::decimal_text(vstd::math::abs(exponent) as nat),
            },
        ),
    }
}

/// Digits without underscores are all digits.
pub proof fn lemma_digits_of(s: Seq<char>)
    requires
        digits::all_digits(s),
    ensures
        digits_of(s) == s,
        is_run(s),
    decreases s.len(),
{
    if s.len() > 0 {
        assert(digits::is_digit(s[s.len() - 1]));
        lemma_digits_of(s.drop_last());
        assert(s.drop_last().push(s.last()) =~= s);
    }
}

/// Digits without an exponent are a literal.
pub proof fn lemma_plain_form(negative: bool, whole: Seq<char>, fraction: Seq<char>)
    requires
        digits::all_digits(whole),
        digits::all_digits(fraction),
        whole.len() + fraction.len() > 0,
    ensures
        plain(negative, whole, fraction).well_formed(),
        plain(negative, whole, fraction).digits() == whole + fraction,
{
    lemma_digits_of(whole);
    lemma_digits_of(fraction);
    lemma_sign(negative);
}

/// Where digits stand without an exponent, they are a literal with their value.
pub proof fn lemma_plain(negative: bool, whole: Seq<char>, fraction: Seq<char>)
    requires
        digits::all_digits(whole),
        digits::all_digits(fraction),
        whole.len() + fraction.len() > 0,
        digits::value(whole + fraction) < decimal::coefficient_limit(),
    ensures
        plain(negative, whole, fraction).well_formed(),
        plain(negative, whole, fraction).value() == (if backend::constructed(
            negative,
            digits::value(whole + fraction),
            -(fraction.len() as int),
        ) is Infinite {
            None
        } else {
            Some(
                backend::constructed(
                    negative,
                    digits::value(whole + fraction),
                    -(fraction.len() as int),
                ),
            )
        }),
{
    lemma_plain_form(negative, whole, fraction);
    lemma_digits_of(fraction);
    lemma_sign(negative);
}

/// Where digits stand at a power of ten of 32 bits, they are a literal with their value.
pub proof fn lemma_scientific(negative: bool, whole: Seq<char>, exponent: int)
    requires
        digits::all_digits(whole),
        whole.len() > 0,
        digits::value(whole) < decimal::coefficient_limit(),
        i32::MIN <= exponent <= i32::MAX,
    ensures
        scientific(negative, whole, exponent).well_formed(),
        scientific(negative, whole, exponent).value() == (if backend::constructed(
            negative,
            digits::value(whole),
            exponent,
        ) is Infinite {
            None
        } else {
            Some(backend::constructed(negative, digits::value(whole), exponent))
        }),
{
    let none = Seq::<char>::empty();
    lemma_digits_of(whole);
    lemma_digits_of(none);
    lemma_sign(negative);
    lemma_sign(exponent < 0);
    digits::lemma_decimal_text(vstd::math::abs(exponent) as nat);
    assert(whole + none =~= whole);
}

/// The text of a sign is a sign.
proof fn lemma_sign(negative: bool)
    ensures
        is_sign(sign_text(negative)),
        negative == (sign_text(negative) == seq!['-']),
{
    if !negative {
        assert(sign_text(negative).len() != seq!['-'].len());
        assert(sign_text(negative) =~= Seq::<char>::empty());
    }
}

} // verus!
