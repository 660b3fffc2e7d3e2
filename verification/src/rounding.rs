//! Bringing wide values back to decimal128: 34 significant digits, rounded half to
//! even, within the exponent range of the format.

use crate::backend;
use crate::decimal;
use crate::decimal::{Decimal, DecimalView};
use crate::digits;
use crate::grammar;
use std::cmp::Ordering;
use vstd::prelude::*;

verus! {

/// The significant digits of decimal128.
pub const PRECISION: i32 = 34;

/// The largest adjusted exponent of decimal128; above it, values are infinite.
pub const MAX_ADJUSTED_EXPONENT: i32 = 6144;

/// The smallest adjusted exponent of decimal128; below it, values are zero.
pub const MIN_ADJUSTED_EXPONENT: i32 = -6176;

/// The largest exponent decimal128 can store. Above it the same value is held with
/// a wider coefficient against a smaller exponent.
pub const MAX_STORED_EXPONENT: i16 = 6111;

/// `c / 10^k` rounded to the nearest integer, a tie to the even one.
pub open spec fn half_even_quotient(c: nat, k: nat) -> nat {
    let unit = digits::pow10(k);
    let q = c / unit;
    let r = c % unit;
    if 2 * r > unit || (2 * r == unit && q % 2 == 1) {
        q + 1
    } else {
        q
    }
}

/// A value with more than 34 digits whose surplus digits are zeros, without them.
pub open spec fn settled(negative: bool, c: nat, s: int) -> DecimalView {
    let surplus = digits::digit_count(c) - PRECISION;
    let scale = if s - surplus < i16::MIN {
        i16::MIN as int
    } else {
        s - surplus
    };
    if surplus > 0 {
        DecimalView::Finite {
            negative,
            coefficient: c / digits::pow10((s - scale) as nat),
            scale,
        }
    } else {
        DecimalView::Finite { negative, coefficient: c, scale: s }
    }
}

/// Whether rounding `c * 10^-s` to `new_scale` leaves at most 34 digits and zeros.
pub open spec fn settles(c: nat, s: int, new_scale: int) -> bool {
    new_scale < s ==> {
        let q = half_even_quotient(c, (s - new_scale) as nat);
        let surplus = digits::digit_count(q) - PRECISION;
        surplus > 0 ==> (if new_scale - surplus < i16::MIN {
            new_scale == i16::MIN
        } else {
            q % digits::pow10(surplus as nat) == 0
        })
    }
}

/// A value at another scale: zeros appended as far as they fit, or digits rounded
/// away half to even.
pub open spec fn rescaled(v: DecimalView, new_scale: int) -> DecimalView {
    match v {
        DecimalView::Finite { negative, coefficient, scale } => if new_scale >= scale {
            backend::widened(negative, coefficient, scale, new_scale)
        } else {
            settled(
                negative,
                half_even_quotient(coefficient, (scale - new_scale) as nat),
                new_scale,
            )
        },
        _ => v,
    }
}

/// Whether the discarded digits round the kept ones up: above one half always, at
/// one half where the last kept digit is odd.
fn rounds_up(dropped: &str, odd: bool) -> (up: bool)
    requires
        digits::all_digits(dropped@),
    ensures
        up == (2 * digits::value(dropped@) > digits::pow10(dropped@.len()) || (2 * digits::value(
            dropped@,
        ) == digits::pow10(dropped@.len()) && odd)),
{
    match digits::compare_to_half(dropped) {
        Ordering::Greater => true,
        Ordering::Less => false,
        Ordering::Equal => odd,
    }
}

/// Cut the last `drop` digits off a coefficient; where there are fewer, zero is kept
/// and zeros are put in front of what is dropped.
fn cut_digits(text: &str, drop: usize) -> (r: (String, String))
    requires
        digits::all_digits(text@),
        text@.len() > 0,
        drop > 0,
    ensures
        digits::all_digits(r.0@),
        0 < r.0@.len() <= text@.len(),
        digits::value(r.0@) == digits::value(text@) / digits::pow10(drop as nat),
        digits::all_digits(r.1@),
        r.1@.len() == drop,
        digits::value(r.1@) == digits::value(text@) % digits::pow10(drop as nat),
{
    let len: usize = text.unicode_len();
    if drop >= len {
        let mut kept: String = String::new();
        kept.push('0');
        let mut dropped = digits::zero_string(drop - len);
        dropped.append(text);
        proof {
            assert(kept@ =~= digits::zeros(1));
            digits::lemma_value_zeros(1);
            lemma_padded_value(text@, drop as nat);
        }
        (kept, dropped)
    } else {
        let cut: usize = len - drop;
        let kept = text.substring_ascii(0, cut).to_owned();
        let dropped = text.substring_ascii(cut, len).to_owned();
        proof {
            assert(kept@ =~= text@.take(cut as int));
            assert(dropped@ =~= text@.skip(cut as int));
            digits::lemma_split_value(text@, cut as int);
            digits::lemma_value_bound(dropped@);
            lemma_quotient(digits::value(kept@), digits::pow10(drop as nat), digits::value(dropped@));
        }
        (kept, dropped)
    }
}

/// A digit string with zeros in front of it has the value of the string, and is below
/// the power of ten of its length.
proof fn lemma_padded_value(s: Seq<char>, n: nat)
    requires
        digits::all_digits(s),
        n >= s.len(),
    ensures
        ({
            let padded = digits::zeros((n - s.len()) as nat) + s;
            &&& digits::value(padded) == digits::value(s)
            &&& digits::value(s) / digits::pow10(n) == 0
            &&& digits::value(s) % digits::pow10(n) == digits::value(s)
        }),
{
    let lead = (n - s.len()) as nat;
    let padded = digits::zeros(lead) + s;
    digits::lemma_split_value(padded, lead as int);
    assert(padded.take(lead as int) =~= digits::zeros(lead));
    assert(padded.skip(lead as int) =~= s);
    digits::lemma_value_zeros(lead);
    assert(0 * digits::pow10(s.len()) == 0) by (nonlinear_arith);
    digits::lemma_value_bound(s);
    digits::lemma_pow10_monotonic(s.len(), n);
    vstd::arithmetic::div_mod::lemma_fundamental_div_mod_converse(
        digits::value(s) as int,
        digits::pow10(n) as int,
        0,
        digits::value(s) as int,
    );
}

/// Drop the last `drop` digits of a coefficient, rounding half to even.
fn round_digits(text: &str, drop: usize) -> (kept: String)
    requires
        digits::all_digits(text@),
        text@.len() > 0,
        drop > 0,
    ensures
        digits::all_digits(kept@),
        0 < kept@.len() <= text@.len() + 1,
        digits::value(kept@) == half_even_quotient(digits::value(text@), drop as nat),
{
    let (kept, dropped) = cut_digits(text, drop);
    let last: char = kept.as_str().get_char(kept.as_str().unicode_len() - 1);
    let odd: bool = last == '1' || last == '3' || last == '5' || last == '7' || last == '9';
    proof {
        assert(digits::is_digit(kept@[kept@.len() - 1]));
        assert(odd == (digits::digit_value(last) % 2 == 1));
        assert(odd == (digits::value(kept@) % 2 == 1));
    }
    if rounds_up(dropped.as_str(), odd) {
        digits::increment(kept.as_str())
    } else {
        kept
    }
}

/// A quotient and a remainder below the divisor are unique.
pub proof fn lemma_quotient(q: nat, unit: nat, r: nat)
    requires
        r < unit,
    ensures
        (q * unit + r) / unit == q,
        (q * unit + r) % unit == r,
{
    vstd::arithmetic::div_mod::lemma_fundamental_div_mod_converse(
        (q * unit + r) as int,
        unit as int,
        q as int,
        r as int,
    );
}

/// The literal of an integer coefficient at a power of ten.
fn literal(negative: bool, whole: &str, exponent: i32) -> (text: String)
    ensures
        text@ == grammar::scientific(negative, whole@, exponent as int).text(),
{
    let mut text: String = String::new();
    if negative {
        text.push('-');
    }
    text.append(whole);
    text.push('E');
    let power = digits::integer_string(exponent as i128);
    text.append(power.as_str());
    assert(text@ =~= grammar::scientific(negative, whole@, exponent as int).text());
    text
}

/// Where a text holds neither character, the search runs to its end.
pub proof fn lemma_first_of_absent(s: Seq<char>, a: char, b: char)
    requires
        forall|i: int| 0 <= i < s.len() ==> s[i] != a && s[i] != b,
    ensures
        backend::first_of(s, a, b) == s.len(),
    decreases s.len(),
{
    if s.len() > 0 {
        lemma_first_of_absent(s.skip(1), a, b);
    }
}

/// A search never runs past the end.
pub proof fn lemma_first_of_bound(s: Seq<char>, a: char, b: char)
    ensures
        backend::first_of(s, a, b) <= s.len(),
    decreases s.len(),
{
    if s.len() > 0 {
        lemma_first_of_bound(s.skip(1), a, b);
    }
}

/// A text without a decimal point has no exponent that underflows.
pub proof fn lemma_no_point(text: Seq<char>)
    requires
        forall|i: int| 0 <= i < text.len() ==> text[i] != '.',
    ensures
        !backend::exponent_underflows(text),
{
    lemma_first_of_absent(text, '.', '.');
    lemma_first_of_bound(text, 'e', 'E');
}

/// The text of a signed integer holds digits and perhaps a leading sign.
pub proof fn lemma_integer_text(n: int)
    ensures
        forall|i: int|
            0 <= i < digits::integer_text(n).len() ==> digits::is_digit(
                #[trigger] digits::integer_text(n)[i],
            ) || digits::integer_text(n)[i] == '-',
        0 < digits::integer_text(n).len() <= 2 + digits::digit_count(vstd::math::abs(n) as nat),
{
    let m = vstd::math::abs(n) as nat;
    digits::lemma_decimal_text(m);
    assert forall|i: int| 0 <= i < digits::integer_text(n).len() implies digits::is_digit(
        #[trigger] digits::integer_text(n)[i],
    ) || digits::integer_text(n)[i] == '-' by {
        if n < 0 && i > 0 {
            assert(digits::integer_text(n)[i] == digits::decimal_text(m)[i - 1]);
        }
    }
}

/// Read a literal that this library has written: digits at a power of ten.
pub(crate) fn read_literal(negative: bool, whole: &str, exponent: i32) -> (r: Option<Decimal>)
    requires
        digits::all_digits(whole@),
        0 < whole@.len() <= 0x7fff_0000,
        digits::value(whole@) < decimal::coefficient_limit(),
    ensures
        match r {
            Some(d) => d@ == backend::constructed(
                negative,
                digits::value(whole@),
                exponent as int,
            ) && d@ is Finite,
            None => backend::constructed(
                negative,
                digits::value(whole@),
                exponent as int,
            ) is Infinite,
        },
{
    let text = literal(negative, whole, exponent);
    let ghost e = exponent as int;
    proof {
        let power = digits::integer_text(e);
        lemma_integer_text(e);
        digits::lemma_digit_count_at_most(vstd::math::abs(e) as nat, 10);
        assert(digits::pow10(10) == 10_000_000_000) by {
            reveal_with_fuel(digits::pow10, 11);
        }
        let sign: Seq<char> = if negative {
            seq!['-']
        } else {
            seq![]
        };
        assert(text@ =~= sign + whole@ + seq!['E'] + power);
        assert forall|i: int| 0 <= i < text@.len() implies text@[i] != '.' by {
            let n = sign.len() as int;
            let w = whole@.len() as int;
            if n <= i < n + w {
                assert(text@[i] == whole@[i - n]);
            } else if i > n + w {
                assert(text@[i] == power[i - n - w - 1]);
            }
        }
        lemma_no_point(text@);
        grammar::lemma_scientific(negative, whole@, e);
    }
    backend::parse(text.as_str())
}

/// A coefficient below the bound has at most 78 digits.
pub proof fn lemma_coefficient_digits(c: nat)
    requires
        c < decimal::coefficient_limit(),
    ensures
        digits::digit_count(c) <= 78,
{
    assert(digits::pow10(26) == 100_000_000_000_000_000_000_000_000nat) by {
        reveal_with_fuel(digits::pow10, 27);
    }
    digits::lemma_pow10_add(26, 26);
    digits::lemma_pow10_add(52, 26);
    digits::lemma_digit_count_at_most(c, 78);
}

/// Rounding away at least one digit makes a coefficient smaller.
pub proof fn lemma_half_even_bound(c: nat, k: nat)
    requires
        k > 0,
    ensures
        half_even_quotient(c, k) <= c / 10 + 1,
        half_even_quotient(c, k) <= c,
{
    digits::lemma_pow10_monotonic(1, k);
    assert(digits::pow10(1) == 10) by {
        reveal_with_fuel(digits::pow10, 2);
    }
    let unit = digits::pow10(k);
    assert(c / unit <= c / 10) by (nonlinear_arith)
        requires
            unit >= 10,
    ;
    if c < unit {
        assert(c / unit == 0 && c % unit == c) by (nonlinear_arith)
            requires
                0 <= c < unit,
        ;
    }
}

/// Round to `new_scale` decimal places, half to even, with the whole remainder in
/// view. Growing the scale only appends zeros.
pub fn rescale_half_even(d: Decimal, new_scale: i16) -> (r: Decimal)
    requires
        d@ matches DecimalView::Finite { coefficient, scale, .. } ==> settles(
            coefficient,
            scale,
            new_scale as int,
        ),
    ensures
        r@ == rescaled(d@, new_scale as int),
{
    if !d.is_finite() {
        return d;
    }
    if new_scale >= d.scale {
        return backend::rescale(d, new_scale);
    }
    let text = backend::coefficient_text(d.limbs);
    let ghost c = decimal::limbs_value(d.limbs@);
    let drop: usize = (d.scale as i32 - new_scale as i32) as usize;
    proof {
        decimal::lemma_limbs_bound(d.limbs@);
        digits::lemma_decimal_text(c);
        lemma_coefficient_digits(c);
        lemma_half_even_bound(c, drop as nat);
    }
    let kept = round_digits(text.as_str(), drop);
    let ghost q = digits::value(kept@);
    let exponent: i32 = -(new_scale as i32);
    match read_literal(d.negative, kept.as_str(), exponent) {
        Some(rounded) => {
            let count: usize = backend::digits_count(rounded.limbs);
            proof {
                decimal::lemma_limbs_bound(rounded.limbs@);
                lemma_coefficient_digits(q);
                assert(digits::pow10(0) == 1);
                assert(q / 1 == q) by (nonlinear_arith);
            }
            let surplus: i32 = count as i32 - PRECISION;
            if surplus > 0 {
                let scale: i32 = if rounded.scale as i32 - surplus < i16::MIN as i32 {
                    i16::MIN as i32
                } else {
                    rounded.scale as i32 - surplus
                };
                backend::rescale(rounded, scale as i16)
            } else {
                rounded
            }
        },
        None => Decimal::not_a_number(),
    }
}

/// A coefficient rounded half to even to at most 34 digits, with its scale.
pub open spec fn to_precision(c: nat, s: int) -> (nat, int) {
    let surplus = digits::digit_count(c) - PRECISION;
    if surplus > 0 {
        let q = half_even_quotient(c, surplus as nat);
        if q == digits::pow10(34) {
            (digits::pow10(33), s - surplus - 1)
        } else {
            (q, s - surplus)
        }
    } else {
        (c, s)
    }
}

/// A value of at most 34 digits as decimal128 holds it: infinite above the format's
/// range, zero below it, and padded where its exponent is too large to be stored.
pub open spec fn fitted(negative: bool, c: nat, s: int) -> DecimalView {
    if c == 0 {
        DecimalView::Finite { negative, coefficient: 0, scale: s }
    } else if decimal::adjusted_exponent(c, s) > MAX_ADJUSTED_EXPONENT {
        DecimalView::Infinite { negative }
    } else if decimal::adjusted_exponent(c, s) < MIN_ADJUSTED_EXPONENT {
        DecimalView::zero()
    } else if s < -MAX_STORED_EXPONENT {
        DecimalView::Finite {
            negative,
            coefficient: c * digits::pow10((-MAX_STORED_EXPONENT - s) as nat),
            scale: -MAX_STORED_EXPONENT as int,
        }
    } else {
        DecimalView::Finite { negative, coefficient: c, scale: s }
    }
}

/// A value as decimal128 holds it: rounded half to even to 34 digits and fitted into
/// the format's range. A NaN has no sign.
pub open spec fn normalized(v: DecimalView) -> DecimalView {
    match v {
        DecimalView::NotANumber { .. } => DecimalView::NotANumber { negative: false },
        DecimalView::Infinite { .. } => v,
        DecimalView::Finite { negative, coefficient, scale } => {
            let (c, s) = to_precision(coefficient, scale);
            fitted(negative, c, s)
        },
    }
}

/// Whether a coefficient has at most 34 significant digits: those after the 34th
/// are zeros.
pub open spec fn significant(c: nat) -> bool {
    digits::digit_count(c) > PRECISION ==> c % digits::pow10(
        (digits::digit_count(c) - PRECISION) as nat,
    ) == 0
}

/// Whether decimal128 has the value: at most 34 significant digits, an exponent
/// that can be stored, and a leading digit in range. A zero may have any scale.
pub open spec fn in_format(v: DecimalView) -> bool {
    v matches DecimalView::Finite { coefficient: c, scale: s, .. } ==> c > 0 ==> {
        &&& significant(c)
        &&& s >= -MAX_STORED_EXPONENT
        &&& MIN_ADJUSTED_EXPONENT <= decimal::adjusted_exponent(c, s) <= MAX_ADJUSTED_EXPONENT
    }
}

/// Whether the coefficient has no more than 34 digits.
pub open spec fn narrow(v: DecimalView) -> bool {
    v matches DecimalView::Finite { coefficient, .. } ==> coefficient < digits::pow10(34)
}

/// Rounding a wide coefficient to 34 digits gives 34 digits, or the next power of ten.
pub proof fn lemma_half_even_digits(c: nat)
    requires
        digits::digit_count(c) > PRECISION,
    ensures
        ({
            let q = half_even_quotient(c, (digits::digit_count(c) - PRECISION) as nat);
            &&& digits::pow10(33) <= q <= digits::pow10(34)
            &&& digits::digit_count(q) == (if q == digits::pow10(34) {
                35nat
            } else {
                34
            })
        }),
{
    let k = (digits::digit_count(c) - PRECISION) as nat;
    digits::lemma_digit_count_scale_down(c, k);
    digits::lemma_pow10_monotonic(k, k);
    let whole = c / digits::pow10(k);
    assert(whole >= 0) by (nonlinear_arith)
        requires
            whole == c / digits::pow10(k),
            digits::pow10(k) >= 1,
    ;
    digits::lemma_digit_count_bounds(whole);
    assert(digits::digit_count(whole) == 34);
    assert(digits::pow10((digits::digit_count(whole) - 1) as nat) == digits::pow10(33));
    let q = half_even_quotient(c, k);
    assert(digits::pow10(35) == 10 * digits::pow10(34));
    digits::lemma_pow10_monotonic(34, 34);
    if q == digits::pow10(34) {
        digits::lemma_digit_count_is(q, 35);
    } else {
        digits::lemma_digit_count_is(q, 34);
    }
}

/// A coefficient that stays below the bound has room for its zeros.
pub proof fn lemma_room(c: nat, k: nat)
    requires
        c > 0,
        c * digits::pow10(k) < decimal::coefficient_limit(),
    ensures
        backend::room(c) >= k,
    decreases k,
{
    if k > 0 {
        let p = digits::pow10((k - 1) as nat);
        assert(c * (10 * p) == (c * 10) * p) by (nonlinear_arith);
        digits::lemma_pow10_monotonic(0, (k - 1) as nat);
        assert(c * 10 <= (c * 10) * p) by (nonlinear_arith)
            requires
                p >= 1,
        ;
        lemma_room(c * 10, (k - 1) as nat);
    }
}

/// A coefficient never has room for more than 78 zeros.
pub proof fn lemma_room_bound(c: nat)
    ensures
        backend::room(c) <= 78,
        c > 0 ==> c * digits::pow10(backend::room(c)) < decimal::coefficient_limit() || backend::room(
            c,
        ) == 0,
{
    lemma_room_product(c);
    let k = backend::room(c);
    if c > 0 && k > 0 {
        let wide = c * digits::pow10(k);
        digits::lemma_digit_count_scale_up(c, k);
        lemma_coefficient_digits(wide);
    }
}

/// Zeros appended within the room stay below the bound.
proof fn lemma_room_product(c: nat)
    ensures
        backend::room(c) > 0 ==> c > 0 && c * digits::pow10(backend::room(c))
            < decimal::coefficient_limit(),
    decreases decimal::coefficient_limit() - c,
{
    if 0 < c && c * 10 < decimal::coefficient_limit() {
        lemma_room_product(c * 10);
        let k = backend::room(c * 10);
        let p = digits::pow10(k);
        assert(digits::pow10(k + 1) == 10 * p);
        assert((c * 10) * p == c * (10 * p)) by (nonlinear_arith);
        if k == 0 {
            assert(digits::pow10(0) == 1);
            assert(c * 10 * 1 == c * 10) by (nonlinear_arith);
        }
    }
}

/// What rounding to 34 digits leaves.
pub proof fn lemma_to_precision(c: nat, s: int)
    ensures
        to_precision(c, s).0 < digits::pow10(34),
        to_precision(c, s).0 == 0 <==> c == 0,
        digits::digit_count(to_precision(c, s).0) <= PRECISION,
        digits::digit_count(c) > PRECISION ==> digits::digit_count(to_precision(c, s).0)
            == PRECISION,
{
    digits::lemma_pow10_monotonic(33, 34);
    digits::lemma_pow10_monotonic(0, 33);
    if digits::digit_count(c) > PRECISION {
        lemma_half_even_digits(c);
        digits::lemma_digit_count_is(digits::pow10(33), 34);
    } else {
        digits::lemma_digit_count_at_most(c, 34);
    }
}

/// A coefficient of at most 34 digits is well below the bound.
pub proof fn lemma_precision_fits(c: nat)
    requires
        c < digits::pow10(34),
    ensures
        c < decimal::coefficient_limit(),
        digits::digit_count(c) <= PRECISION,
{
    assert(digits::pow10(17) == 100_000_000_000_000_000nat) by {
        reveal_with_fuel(digits::pow10, 18);
    }
    digits::lemma_pow10_add(17, 17);
    digits::lemma_digit_count_at_most(c, 34);
}

/// Padding a value in range to the largest stored exponent needs at most 34 digits.
pub proof fn lemma_padding(c: nat, s: int)
    requires
        0 < c < digits::pow10(34),
        s < -MAX_STORED_EXPONENT,
        decimal::adjusted_exponent(c, s) <= MAX_ADJUSTED_EXPONENT,
    ensures
        ({
            let k = (-MAX_STORED_EXPONENT - s) as nat;
            let padded = c * digits::pow10(k);
            &&& 0 < padded < digits::pow10(34)
            &&& digits::digit_count(padded) == digits::digit_count(c) + k
            &&& backend::room(c) >= k
        }),
{
    let k = (-MAX_STORED_EXPONENT - s) as nat;
    digits::lemma_digit_count_scale_up(c, k);
    digits::lemma_digit_count_at_most(c * digits::pow10(k), 34);
    lemma_precision_fits(c * digits::pow10(k));
    lemma_room(c, k);
}

/// A normalized value is one that decimal128 has.
pub proof fn lemma_normalized_in_format(v: DecimalView)
    ensures
        in_format(normalized(v)),
        narrow(normalized(v)),
{
    digits::lemma_pow10_monotonic(0, 34);
    if let DecimalView::Finite { negative, coefficient, scale } = v {
        lemma_to_precision(coefficient, scale);
        let (c, s) = to_precision(coefficient, scale);
        if c > 0 && s < -MAX_STORED_EXPONENT && decimal::adjusted_exponent(c, s)
            <= MAX_ADJUSTED_EXPONENT {
            lemma_padding(c, s);
            lemma_precision_fits(c * digits::pow10((-MAX_STORED_EXPONENT - s) as nat));
        }
    }
}

/// The adjusted exponent: the power of ten of the leading digit. A zero and a value
/// that is not finite answer `i32::MIN`.
pub fn ilogb(d: Decimal) -> (e: i32)
    ensures
        e == order_of(d@),
{
    if d.is_zero() || !d.is_finite() {
        return i32::MIN;
    }
    let count: usize = backend::digits_count(d.limbs);
    proof {
        decimal::lemma_limbs_bound(d.limbs@);
        lemma_coefficient_digits(decimal::limbs_value(d.limbs@));
    }
    count as i32 - 1 - d.scale as i32
}

/// The adjusted exponent of a value other than zero; `i32::MIN` for the rest.
pub open spec fn order_of(v: DecimalView) -> int {
    match v {
        DecimalView::Finite { coefficient, scale, .. } => if coefficient == 0 {
            i32::MIN as int
        } else {
            decimal::adjusted_exponent(coefficient, scale)
        },
        _ => i32::MIN as int,
    }
}

/// Bring a wide result back to decimal128.
pub fn norm(d: Decimal) -> (r: Decimal)
    ensures
        r@ == normalized(d@),
        in_format(r@),
        narrow(r@),
{
    proof {
        lemma_normalized_in_format(d@);
    }
    if d.nan {
        return Decimal::not_a_number();
    }
    if !d.is_finite() {
        return d;
    }
    let count: usize = backend::digits_count(d.limbs);
    let ghost c = decimal::limbs_value(d.limbs@);
    let ghost s = d.scale as int;
    proof {
        decimal::lemma_limbs_bound(d.limbs@);
        lemma_coefficient_digits(c);
        lemma_to_precision(c, s);
    }
    let surplus: i32 = count as i32 - PRECISION;
    let rounded = if surplus > 0 {
        let scale: i32 = if d.scale as i32 - surplus < i16::MIN as i32 {
            i16::MIN as i32
        } else {
            d.scale as i32 - surplus
        };
        proof {
            lemma_rounds_to_precision(d.negative, c, s, scale as int);
        }
        rescale_half_even(d, scale as i16)
    } else {
        d
    };
    if rounded.is_zero() {
        return rounded;
    }
    let leading: i32 = ilogb(rounded);
    if leading > MAX_ADJUSTED_EXPONENT {
        Decimal::infinity(rounded.negative)
    } else if leading < MIN_ADJUSTED_EXPONENT {
        Decimal::small(0)
    } else if rounded.scale < -MAX_STORED_EXPONENT {
        proof {
            lemma_padding(to_precision(c, s).0, to_precision(c, s).1);
        }
        rescale_half_even(rounded, -MAX_STORED_EXPONENT)
    } else {
        rounded
    }
}

/// Rounding away the digits past the 34th settles on the value at precision, unless
/// the scale would leave its range; then the value is far above the format's.
proof fn lemma_rounds_to_precision(negative: bool, c: nat, s: int, scale: int)
    requires
        34 < digits::digit_count(c) <= 78,
        i16::MIN <= s <= i16::MAX,
        scale == (if s - (digits::digit_count(c) - PRECISION) < i16::MIN {
            i16::MIN as int
        } else {
            s - (digits::digit_count(c) - PRECISION)
        }),
    ensures
        settles(c, s, scale),
        ({
            let v = DecimalView::Finite { negative, coefficient: c, scale: s };
            let (p, t) = to_precision(c, s);
            let r = rescaled(v, scale);
            ||| r == (DecimalView::Finite { negative, coefficient: p, scale: t })
            ||| r matches DecimalView::Finite { negative: n, coefficient: q, scale: u } && n
                == negative && q > 0 && decimal::adjusted_exponent(q, u) > MAX_ADJUSTED_EXPONENT
                && decimal::adjusted_exponent(p, t) > MAX_ADJUSTED_EXPONENT
        }),
{
    let k = (digits::digit_count(c) - PRECISION) as nat;
    lemma_to_precision(c, s);
    lemma_half_even_digits(c);
    assert(digits::pow10(0) == 1);
    assert(digits::pow10(1) == 10) by {
        reveal_with_fuel(digits::pow10, 2);
    }
    if scale < s {
        let j = (s - scale) as nat;
        let q = half_even_quotient(c, j);
        digits::lemma_digit_count_scale_down(c, j);
        lemma_digit_count_grows(c / digits::pow10(j), q);
        assert(q / 1 == q) by (nonlinear_arith);
        if q == digits::pow10(34) {
            assert(digits::pow10(34) == 10 * digits::pow10(33));
            assert(digits::pow10(34) % 10 == 0 && digits::pow10(34) / 10 == digits::pow10(33));
        }
    }
}

/// A larger number has at least as many digits.
proof fn lemma_digit_count_grows(a: nat, b: nat)
    requires
        a <= b,
    ensures
        digits::digit_count(a) <= digits::digit_count(b),
{
    digits::lemma_digit_count_bounds(b);
    digits::lemma_digit_count_at_most(a, digits::digit_count(b));
}

} // verus!
