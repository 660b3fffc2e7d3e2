//! Reading FEEL numbers from text.

use crate::backend;
use crate::decimal::{Decimal, DecimalView};
use crate::digits;
use crate::errors::NumberError;
use crate::grammar;
use crate::grammar::Literal;
use crate::number;
use crate::number::FeelNumber;
use crate::rounding;
use std::str::FromStr;
use vstd::prelude::*;

verus! {

/// A text without the spaces and tabs that it starts with.
pub open spec fn without_blanks(s: Seq<char>) -> Seq<char>
    decreases s.len(),
{
    if s.len() > 0 && (s[0] == ' ' || s[0] == '\t') {
        without_blanks(s.skip(1))
    } else {
        s
    }
}

/// The number that a text stands for: what is read after leading blanks, brought to
/// the format, if it is finite there.
pub open spec fn number_in(text: Seq<char>) -> Option<DecimalView> {
    let t = without_blanks(text);
    if !backend::readable(t) {
        None
    } else {
        match backend::parsed(t) {
            Some(v) => number::finite_or_none(rounding::normalized(v)),
            None => None,
        }
    }
}

/// The number that a literal stands for: what it is worth, brought to the format, if it
/// is finite there.
pub open spec fn literal_number(l: Literal) -> Option<DecimalView> {
    match l.value() {
        Some(v) => number::finite_or_none(rounding::normalized(v)),
        None => None,
    }
}

/// Where one of two characters first stands, or the length.
fn find_first(v: &Vec<char>, a: char, b: char) -> (i: usize)
    ensures
        i == backend::first_of(v@, a, b),
        i <= v@.len(),
{
    let mut i: usize = 0;
    assert(v@.skip(0) =~= v@);
    while i < v.len() && v[i] != a && v[i] != b
        invariant
            i <= v@.len(),
            backend::first_of(v@, a, b) == i + backend::first_of(v@.skip(i as int), a, b),
        decreases v@.len() - i,
    {
        assert(v@.skip(i as int).skip(1) =~= v@.skip(i as int + 1));
        i = i + 1;
    }
    i
}

/// Whether a character is a decimal digit.
fn is_digit(c: char) -> (r: bool)
    ensures
        r == digits::is_digit(c),
{
    '0' <= c && c <= '9'
}

/// How many digits stand between two places.
fn count_digits(v: &Vec<char>, from: usize, to: usize) -> (n: usize)
    requires
        from <= to <= v@.len(),
    ensures
        n == backend::digits_in(v@.subrange(from as int, to as int)),
        n <= to - from,
{
    let mut n: usize = 0;
    let mut i: usize = from;
    assert(v@.subrange(from as int, from as int) =~= Seq::<char>::empty());
    while i < to
        invariant
            from <= i <= to <= v@.len(),
            n <= i - from,
            n == backend::digits_in(v@.subrange(from as int, i as int)),
        decreases to - i,
    {
        assert(v@.subrange(from as int, i as int + 1).drop_last() =~= v@.subrange(
            from as int,
            i as int,
        ));
        if is_digit(v[i]) {
            n = n + 1;
        }
        i = i + 1;
    }
    n
}

/// What a digit is worth.
fn digit_value(c: char) -> (d: u64)
    requires
        digits::is_digit(c),
    ensures
        d == digits::digit_value(c),
{
    match c {
        '0' => 0,
        '1' => 1,
        '2' => 2,
        '3' => 3,
        '4' => 4,
        '5' => 5,
        '6' => 6,
        '7' => 7,
        '8' => 8,
        _ => 9,
    }
}

/// What the digits from a place to the end are worth, up to a cap, or `None` where
/// something else stands there.
fn capped_value(v: &Vec<char>, from: usize) -> (r: Option<u64>)
    requires
        from <= v@.len(),
    ensures
        r is Some <==> digits::all_digits(v@.skip(from as int)),
        r matches Some(m) ==> {
            &&& m < 0x1_0000_0000 ==> m == digits::value(v@.skip(from as int))
            &&& m >= 0x1_0000_0000 ==> digits::value(v@.skip(from as int)) >= 0x1_0000_0000
        },
{
    let mut m: u64 = 0;
    let mut i: usize = from;
    assert(v@.subrange(from as int, from as int) =~= Seq::<char>::empty());
    while i < v.len()
        invariant
            from <= i <= v@.len(),
            digits::all_digits(v@.subrange(from as int, i as int)),
            m <= 0x1_0000_0000,
            m < 0x1_0000_0000 ==> m == digits::value(v@.subrange(from as int, i as int)),
            m == 0x1_0000_0000 ==> digits::value(v@.subrange(from as int, i as int))
                >= 0x1_0000_0000,
        decreases v@.len() - i,
    {
        let ghost longer = v@.subrange(from as int, i as int + 1);
        if !is_digit(v[i]) {
            assert(v@.skip(from as int)[i - from] == v@[i as int]);
            return None;
        }
        proof {
            assert(longer.drop_last() =~= v@.subrange(from as int, i as int));
            assert(longer.last() == v@[i as int]);
        }
        let next: u64 = m * 10 + digit_value(v[i]);
        m = if next > 0x1_0000_0000 {
            0x1_0000_0000
        } else {
            next
        };
        i = i + 1;
    }
    assert(v@.subrange(from as int, v@.len() as int) =~= v@.skip(from as int));
    Some(m)
}

/// Whether a text can be read: it is not too long, and its exponent stays within 32
/// bits once the fraction digits are counted.
fn is_readable(text: &str) -> (r: bool)
    ensures
        r == backend::readable(text@),
{
    let v = digits::chars_of(text);
    if v.len() > 0x7fff_ffff {
        return false;
    }
    let mark: usize = find_first(&v, 'e', 'E');
    if v.len() < 3 || mark >= v.len() - 2 || v[mark + 1] != '-' {
        return true;
    }
    let point: usize = find_first(&v, '.', '.');
    let fraction: usize = if point < mark {
        count_digits(&v, point + 1, mark)
    } else {
        0
    };
    match capped_value(&v, mark + 2) {
        Some(m) => !(m <= 0x8000_0000 && 0x8000_0000 < m + fraction as u64),
        None => true,
    }
}

/// A text without the spaces and tabs that it starts with.
fn skip_blanks(s: &str) -> (t: String)
    ensures
        t@ == without_blanks(s@),
{
    let v = digits::chars_of(s);
    let mut i: usize = 0;
    assert(v@.skip(0) =~= v@);
    while i < v.len() && (v[i] == ' ' || v[i] == '\t')
        invariant
            i <= v@.len(),
            v@ == s@,
            without_blanks(s@) == without_blanks(v@.skip(i as int)),
        decreases v@.len() - i,
    {
        assert(v@.skip(i as int).skip(1) =~= v@.skip(i as int + 1));
        i = i + 1;
    }
    let rest = s.substring_char(i, v.len());
    assert(rest@ =~= v@.skip(i as int));
    rest.to_owned()
}

impl FromStr for FeelNumber {
    type Err = NumberError;

    /// Read a number. Spaces and tabs before it are skipped, and nothing else is. A
    /// text that is no literal, or whose number is not finite in the format, is refused.
    fn from_str(s: &str) -> (r: Result<FeelNumber, NumberError>)
        ensures
            match r {
                Ok(n) => number_in(s@) == Some(n@) && !n.computed() && rounding::in_format(n@),
                Err(NumberError::InvalidNumberLiteral(text)) => number_in(s@) is None && text@
                    == s@,
                Err(_) => false,
            },
            backend::readable(without_blanks(s@)) ==> forall|l: Literal|
                l.well_formed() && without_blanks(s@) == #[trigger] l.text() ==> number_in(s@)
                    == literal_number(l) && (r is Ok <==> literal_number(l) is Some),
            !grammar::is_literal(without_blanks(s@)) ==> r is Err,
    {
        let text = skip_blanks(s);
        let read = if is_readable(text.as_str()) {
            backend::parse(text.as_str())
        } else {
            None
        };
        accept(s, read)
    }
}

/// The number of a text, given what was read in it: brought to the format, and refused
/// where nothing was read or the number is not finite.
pub fn accept(text: &str, read: Option<Decimal>) -> (r: Result<FeelNumber, NumberError>)
    ensures
        match (r, read) {
            (Ok(n), Some(d)) => number::finite_or_none(rounding::normalized(d@)) == Some(n@)
                && !n.computed() && rounding::in_format(n@),
            (Ok(_), None) => false,
            (Err(NumberError::InvalidNumberLiteral(t)), Some(d)) => !(rounding::normalized(
                d@,
            ) is Finite) && t@ == text@,
            (Err(NumberError::InvalidNumberLiteral(t)), None) => t@ == text@,
            (Err(_), _) => false,
        },
{
    if let Some(d) = read {
        let n = rounding::norm(d);
        if n.is_finite() {
            return Ok(FeelNumber::from_parts(n, false));
        }
    }
    Err(NumberError::InvalidNumberLiteral(text.to_owned()))
}

} // verus!
