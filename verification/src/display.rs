//! Writing FEEL numbers as text.

use crate::backend;
use crate::decimal;
use crate::decimal::{Decimal, DecimalView};
use crate::digits;
use crate::number::FeelNumber;
use vstd::prelude::*;

verus! {

/// A digit string without its trailing zeros.
pub open spec fn trimmed(s: Seq<char>) -> Seq<char>
    decreases s.len(),
{
    if s.len() > 0 && s.last() == '0' {
        trimmed(s.drop_last())
    } else {
        s
    }
}

/// A digit string, without its trailing zeros where `trim` is set.
pub open spec fn perhaps_trimmed(s: Seq<char>, trim: bool) -> Seq<char> {
    if trim {
        trimmed(s)
    } else {
        s
    }
}

/// The digits before the point of `c * 10^-s`.
pub open spec fn whole_text(c: nat, s: int) -> Seq<char> {
    let sb = digits::decimal_text(c);
    if s <= 0 {
        sb + digits::zeros((-s) as nat)
    } else if sb.len() <= s {
        seq!['0']
    } else {
        sb.take(sb.len() - s)
    }
}

/// The digits after the point of `c * 10^-s`; trimming leaves the zeros before the
/// coefficient's first digit.
pub open spec fn fraction_text(c: nat, s: int, trim: bool) -> Seq<char> {
    let sb = digits::decimal_text(c);
    if s <= 0 {
        seq![]
    } else if sb.len() <= s {
        digits::zeros((s - sb.len()) as nat) + perhaps_trimmed(sb, trim)
    } else {
        perhaps_trimmed(sb.skip(sb.len() - s), trim)
    }
}

/// A fraction cut or padded with zeros to the wanted number of digits.
pub open spec fn at_precision(fraction: Seq<char>, precision: Option<usize>) -> Seq<char> {
    match precision {
        Some(p) => if fraction.len() < p {
            fraction + digits::zeros((p - fraction.len()) as nat)
        } else {
            fraction.take(p as int)
        },
        None => fraction,
    }
}

/// A text cut to the wanted number of characters.
pub open spec fn cut_text(text: Seq<char>, precision: Option<usize>) -> Seq<char> {
    match precision {
        Some(p) => if p < text.len() {
            text.take(p as int)
        } else {
            text
        },
        None => text,
    }
}

/// The text of a value without its sign. The precision counts the digits after the
/// point; the text of a value that is not finite is cut to it.
pub open spec fn unsigned_text(
    v: DecimalView,
    trim: bool,
    precision: Option<usize>,
) -> Seq<char> {
    match v {
        DecimalView::NotANumber { .. } => cut_text("NaN"@, precision),
        DecimalView::Infinite { .. } => cut_text("Infinity"@, precision),
        DecimalView::Finite { coefficient, scale, .. } => {
            let fraction = at_precision(fraction_text(coefficient, scale, trim), precision);
            if fraction.len() > 0 {
                whole_text(coefficient, scale) + seq!['.'] + fraction
            } else {
                whole_text(coefficient, scale)
            }
        },
    }
}

/// The text of a value. A NaN has no sign; a negative zero has one. The sign of an
/// infinity is part of the text that is cut.
pub open spec fn display_text(
    v: DecimalView,
    trim: bool,
    precision: Option<usize>,
) -> Seq<char> {
    if v is Infinite && v.negative() {
        cut_text("-Infinity"@, precision)
    } else if v is Finite && v.negative() {
        seq!['-'] + unsigned_text(v, trim, precision)
    } else {
        unsigned_text(v, trim, precision)
    }
}

/// The sign character, which is always written in the canonical form.
pub open spec fn sign_char(negative: bool) -> char {
    if negative {
        '-'
    } else {
        '+'
    }
}

/// The canonical form of a value: sign, coefficient as stored, `E`, signed exponent.
pub open spec fn debug_text(v: DecimalView) -> Seq<char> {
    match v {
        DecimalView::NotANumber { negative } => seq![sign_char(negative)] + "NaN"@,
        DecimalView::Infinite { negative } => seq![sign_char(negative)] + "Inf"@,
        DecimalView::Finite { negative, coefficient, scale } => seq![sign_char(negative)]
            + digits::decimal_text(coefficient) + seq!['E'] + seq![sign_char(scale > 0)]
            + digits::decimal_text(vstd::math::abs(scale) as nat),
    }
}

/// Drop the trailing zeros of a digit string.
fn trim_zeros(s: &str) -> (t: String)
    requires
        digits::all_digits(s@),
    ensures
        t@ == trimmed(s@),
{
    let v = digits::chars_of(s);
    let mut n: usize = v.len();
    assert(v@.take(n as int) =~= v@);
    while n > 0 && v[n - 1] == '0'
        invariant
            n <= v@.len(),
            v@ == s@,
            trimmed(s@) == trimmed(v@.take(n as int)),
        decreases n,
    {
        assert(v@.take(n as int).drop_last() =~= v@.take(n as int - 1));
        n = n - 1;
    }
    let kept = s.substring_ascii(0, n);
    assert(kept@ =~= v@.take(n as int));
    kept.to_owned()
}

/// A digit string, without its trailing zeros where `trim` is set.
fn perhaps_trim(s: &str, trim: bool) -> (t: String)
    requires
        digits::all_digits(s@),
    ensures
        t@ == perhaps_trimmed(s@, trim),
{
    if trim {
        trim_zeros(s)
    } else {
        s.to_owned()
    }
}

/// The digits before and after the point.
fn split_text(d: Decimal, trim: bool) -> (r: (String, String))
    requires
        d@ is Finite,
    ensures
        d@ matches DecimalView::Finite { coefficient, scale, .. } ==> r.0@ == whole_text(
            coefficient,
            scale,
        ) && r.1@ == fraction_text(coefficient, scale, trim),
{
    let sb = backend::coefficient_text(d.limbs);
    let ghost c = decimal::limbs_value(d.limbs@);
    proof {
        digits::lemma_decimal_text(c);
    }
    let count: usize = sb.as_str().unicode_len();
    if d.scale <= 0 {
        let missing: usize = (-(d.scale as i32)) as usize;
        let mut before = sb;
        before.append(digits::zero_string(missing).as_str());
        return (before, String::new());
    }
    let places: usize = d.scale as usize;
    if count <= places {
        let mut before: String = String::new();
        before.push('0');
        let mut after = digits::zero_string(places - count);
        after.append(perhaps_trim(sb.as_str(), trim).as_str());
        proof {
            assert(before@ =~= seq!['0']);
        }
        (before, after)
    } else {
        let cut: usize = count - places;
        let before = sb.as_str().substring_ascii(0, cut).to_owned();
        let tail = sb.as_str().substring_ascii(cut, count);
        proof {
            assert(before@ =~= sb@.take(cut as int));
            assert(tail@ =~= sb@.skip(cut as int));
        }
        (before, perhaps_trim(tail, trim))
    }
}

/// Cut a fraction, or pad it with zeros, to the wanted number of digits.
fn fit_precision(after: String, precision: Option<usize>) -> (r: String)
    requires
        digits::all_digits(after@),
    ensures
        r@ == at_precision(after@, precision),
{
    match precision {
        None => after,
        Some(p) => {
            let len: usize = after.as_str().unicode_len();
            if len < p {
                let mut padded = after;
                padded.append(digits::zero_string(p - len).as_str());
                padded
            } else {
                let kept = after.as_str().substring_ascii(0, p);
                assert(kept@ =~= after@.take(p as int));
                kept.to_owned()
            }
        },
    }
}

/// Cut a text to the wanted number of characters.
fn cut(text: &str, precision: Option<usize>) -> (r: String)
    ensures
        r@ == cut_text(text@, precision),
{
    if let Some(p) = precision {
        if p < text.unicode_len() {
            let kept = text.substring_char(0, p);
            assert(kept@ =~= text@.take(p as int));
            return kept.to_owned();
        }
    }
    text.to_owned()
}

/// A prefix of a digit string without its zeros at the end.
proof fn lemma_trimmed_digits(s: Seq<char>)
    requires
        digits::all_digits(s),
    ensures
        digits::all_digits(trimmed(s)),
    decreases s.len(),
{
    if s.len() > 0 && s.last() == '0' {
        lemma_trimmed_digits(s.drop_last());
    }
}

/// The digits before and after the point are digits.
pub proof fn lemma_parts_are_digits(c: nat, s: int, trim: bool)
    ensures
        digits::all_digits(whole_text(c, s)),
        digits::all_digits(fraction_text(c, s, trim)),
        whole_text(c, s).len() > 0,
{
    let sb = digits::decimal_text(c);
    digits::lemma_decimal_text(c);
    lemma_trimmed_digits(sb);
    if 0 < s < sb.len() {
        lemma_trimmed_digits(sb.skip(sb.len() - s));
    }
}

impl FeelNumber {
    /// The text of this number without its sign, its fraction cut or padded to
    /// `precision` digits; a text without digits is cut as a whole.
    pub fn unsigned_string(&self, precision: Option<usize>) -> (r: String)
        ensures
            r@ == unsigned_text(self@, self.computed(), precision),
    {
        let d = self.parts();
        if d.nan {
            return cut("NaN", precision);
        }
        if d.infinite {
            return cut("Infinity", precision);
        }
        let (before, after) = split_text(d, self.is_computed());
        proof {
            if let DecimalView::Finite { coefficient, scale, .. } = d@ {
                lemma_parts_are_digits(coefficient, scale, self.computed());
            }
        }
        let fraction = fit_precision(after, precision);
        let mut text = before;
        if !fraction.as_str().is_empty() {
            text.push('.');
            text.append(fraction.as_str());
        }
        text
    }

    /// The text of this number, its fraction cut or padded to `precision` digits; a text
    /// without digits is cut as a whole.
    pub fn to_text(&self, precision: Option<usize>) -> (r: String)
        ensures
            r@ == display_text(self@, self.computed(), precision),
    {
        let d = self.parts();
        if d.infinite && !d.nan && d.negative {
            return cut("-Infinity", precision);
        }
        let text = self.unsigned_string(precision);
        if d.is_finite() && d.negative {
            let mut signed_text: String = String::new();
            signed_text.push('-');
            signed_text.append(text.as_str());
            signed_text
        } else {
            text
        }
    }

    /// The text of this number.
    pub fn to_string(&self) -> (r: String)
        ensures
            r@ == display_text(self@, self.computed(), None),
    {
        self.to_text(None)
    }

    /// The JSON text of this number.
    pub fn jsonify(&self) -> (r: String)
        ensures
            r@ == display_text(self@, self.computed(), None),
    {
        self.to_text(None)
    }

    /// The canonical form of this number: `FeelNumber::new(49, 0)` is `+49E+0`.
    pub fn debug_string(&self) -> (r: String)
        ensures
            r@ == debug_text(self@),
    {
        let d = self.parts();
        let mut text: String = String::new();
        text.push(if d.negative {
            '-'
        } else {
            '+'
        });
        if d.nan {
            text.append("NaN");
            return text;
        }
        if d.infinite {
            text.append("Inf");
            return text;
        }
        let exponent: i128 = -(d.scale as i128);
        text.append(backend::coefficient_text(d.limbs).as_str());
        text.push('E');
        text.push(if exponent < 0 {
            '-'
        } else {
            '+'
        });
        let size: i128 = if exponent < 0 {
            -exponent
        } else {
            exponent
        };
        text.append(digits::integer_string(size).as_str());
        assert(text@ =~= debug_text(d@));
        text
    }
}

} // verus!
