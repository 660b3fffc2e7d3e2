//! What the written forms of a number say.

use crate::decimal::DecimalView;
use crate::digits;
use crate::display;
use crate::grammar;
use crate::grammar::{Exponent, Literal};
use vstd::prelude::*;

verus! {

/// The canonical form of a finite value as a literal: both signs are written.
pub open spec fn canonical(negative: bool, c: nat, s: int) -> Literal {
    Literal {
        sign: seq![display::sign_char(negative)],
        whole: digits::decimal_text(c),
        point: false,
        fraction: seq![],
        exponent: Some(
            Exponent {
                mark: 'E',
                sign: seq![display::sign_char(s > 0)],
                digits: digits::decimal_text(vstd::math::abs(s) as nat),
            },
        ),
    }
}

/// The canonical form of a finite value is a literal that stands for exactly that value:
/// sign, coefficient and scale.
pub proof fn law_canonical_form_reads_back(negative: bool, c: nat, s: int)
    requires
        (DecimalView::Finite { negative, coefficient: c, scale: s }).representable(),
    ensures
        ({
            let v = DecimalView::Finite { negative, coefficient: c, scale: s };
            let l = canonical(negative, c, s);
            &&& display::debug_text(v) == l.text()
            &&& l.well_formed()
            &&& l.value() == Some(v)
        }),
{
    let v = DecimalView::Finite { negative, coefficient: c, scale: s };
    let l = canonical(negative, c, s);
    let none = Seq::<char>::empty();
    let e = l.exponent->Some_0;
    let size = vstd::math::abs(s) as nat;
    digits::lemma_decimal_text(c);
    digits::lemma_decimal_text(size);
    grammar::lemma_digits_of(digits::decimal_text(c));
    grammar::lemma_digits_of(none);
    assert(digits::decimal_text(c) + none =~= digits::decimal_text(c));
    lemma_sign_char(negative);
    lemma_sign_char(s > 0);
    assert(display::debug_text(v) =~= l.text());
    assert(e.power() == -s);
}

/// A sign character is a sign.
proof fn lemma_sign_char(negative: bool)
    ensures
        grammar::is_sign(seq![display::sign_char(negative)]),
        negative == (seq![display::sign_char(negative)] == seq!['-']),
{
    let s = seq![display::sign_char(negative)];
    if negative {
        assert(s =~= seq!['-']);
    } else {
        assert(s =~= seq!['+']);
        assert(s[0] != seq!['-'][0]);
    }
}

/// A finite value written to `p` places has the digits before the point of the value
/// written in full, and after the point its first `p` digits, or zeros where there are
/// fewer.
pub proof fn law_text_at_precision(negative: bool, c: nat, s: int, trim: bool, p: usize)
    ensures
        ({
            let v = DecimalView::Finite { negative, coefficient: c, scale: s };
            let whole = display::whole_text(c, s);
            let fraction = display::fraction_text(c, s, trim);
            let text = display::unsigned_text(v, trim, Some(p));
            &&& display::unsigned_text(v, trim, None) == (if fraction.len() > 0 {
                whole + seq!['.'] + fraction
            } else {
                whole
            })
            &&& p == 0 ==> text == whole
            &&& p > 0 ==> text.len() == whole.len() + 1 + p && text.take(whole.len() as int)
                == whole && text[whole.len() as int] == '.'
            &&& forall|i: int|
                0 <= i < p ==> #[trigger] text[whole.len() + 1 + i] == (if i < fraction.len() {
                    fraction[i]
                } else {
                    '0'
                })
            &&& display::display_text(v, trim, Some(p)) == (if negative {
                seq!['-'] + text
            } else {
                text
            })
        }),
{
    let v = DecimalView::Finite { negative, coefficient: c, scale: s };
    let whole = display::whole_text(c, s);
    let fraction = display::fraction_text(c, s, trim);
    let cut = display::at_precision(fraction, Some(p));
    let text = display::unsigned_text(v, trim, Some(p));
    assert(cut.len() == p);
    if p > 0 {
        assert(text == whole + seq!['.'] + cut);
        assert(text.take(whole.len() as int) =~= whole);
        assert forall|i: int| 0 <= i < p implies #[trigger] text[whole.len() + 1 + i] == (if i
            < fraction.len() {
            fraction[i]
        } else {
            '0'
        }) by {
            assert(text[whole.len() + 1 + i] == cut[i]);
        }
    }
}

} // verus!
