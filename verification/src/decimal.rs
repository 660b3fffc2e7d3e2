//! The working decimal: a sign, a 256-bit coefficient and a 16-bit scale, or one
//! of the two kinds of value that are not finite.

use crate::digits;
use vstd::prelude::*;

verus! {

/// A decimal value in plain parts.
///
/// Where `nan` is set the value is not a number; where `infinite` is set (and
/// `nan` is not) it is an infinity. Otherwise it is `limbs * 10^-scale`, the
/// limbs least significant first, with the sign that `negative` gives.
#[derive(Clone, Copy, Debug)]
pub struct Decimal {
    pub nan: bool,
    pub infinite: bool,
    pub negative: bool,
    pub limbs: [u64; 4],
    pub scale: i16,
}

/// What a decimal stands for.
pub enum DecimalView {
    NotANumber { negative: bool },
    Infinite { negative: bool },
    /// `coefficient * 10^-scale`, negated where `negative` is set. Zero keeps both
    /// its sign and its scale.
    Finite { negative: bool, coefficient: nat, scale: int },
}

/// The bound of a coefficient: `2^256`.
pub open spec fn coefficient_limit() -> nat {
    0x1_0000_0000_0000_0000_0000_0000_0000_0000_0000_0000_0000_0000_0000_0000_0000_0000nat
}

/// What four limbs are worth, least significant first.
pub open spec fn limbs_value(limbs: Seq<u64>) -> nat {
    (limbs[0] + 0x1_0000_0000_0000_0000int * (limbs[1] + 0x1_0000_0000_0000_0000int * (limbs[2]
        + 0x1_0000_0000_0000_0000int * limbs[3]))) as nat
}

/// The power of ten of the leading digit of `coefficient * 10^-scale`.
pub open spec fn adjusted_exponent(coefficient: nat, scale: int) -> int {
    digits::digit_count(coefficient) - 1 - scale
}

/// An integer with a sign.
pub open spec fn signed(negative: bool, magnitude: nat) -> int {
    if negative {
        -(magnitude as int)
    } else {
        magnitude as int
    }
}

impl DecimalView {
    /// Zero, without a sign and at scale 0.
    pub open spec fn zero() -> DecimalView {
        DecimalView::Finite { negative: false, coefficient: 0, scale: 0 }
    }

    /// One, at scale 0.
    pub open spec fn one() -> DecimalView {
        DecimalView::Finite { negative: false, coefficient: 1, scale: 0 }
    }

    /// Two, at scale 0.
    pub open spec fn two() -> DecimalView {
        DecimalView::Finite { negative: false, coefficient: 2, scale: 0 }
    }

    /// Whether this is a zero of either sign.
    pub open spec fn is_zero(self) -> bool {
        self matches DecimalView::Finite { coefficient, .. } && coefficient == 0
    }

    /// Whether the sign is set; a zero and a NaN have a sign too.
    pub open spec fn negative(self) -> bool {
        match self {
            DecimalView::NotANumber { negative } => negative,
            DecimalView::Infinite { negative } => negative,
            DecimalView::Finite { negative, .. } => negative,
        }
    }

    /// The same value with the given sign.
    pub open spec fn with_sign(self, negative: bool) -> DecimalView {
        match self {
            DecimalView::NotANumber { .. } => DecimalView::NotANumber { negative },
            DecimalView::Infinite { .. } => DecimalView::Infinite { negative },
            DecimalView::Finite { coefficient, scale, .. } => DecimalView::Finite {
                negative,
                coefficient,
                scale,
            },
        }
    }

    /// The value with its sign flipped, whatever it is.
    pub open spec fn negated(self) -> DecimalView {
        self.with_sign(!self.negative())
    }

    /// The magnitude; a NaN is left as it is.
    pub open spec fn magnitude(self) -> DecimalView {
        if self is NotANumber {
            self
        } else {
            self.with_sign(false)
        }
    }

    /// What the parts of a [`Decimal`] can hold.
    pub open spec fn representable(self) -> bool {
        self matches DecimalView::Finite { coefficient, scale, .. } ==> {
            &&& coefficient < coefficient_limit()
            &&& i16::MIN <= scale <= i16::MAX
        }
    }
}

impl View for Decimal {
    type V = DecimalView;

    open spec fn view(&self) -> DecimalView {
        if self.nan {
            DecimalView::NotANumber { negative: self.negative }
        } else if self.infinite {
            DecimalView::Infinite { negative: self.negative }
        } else {
            DecimalView::Finite {
                negative: self.negative,
                coefficient: limbs_value(self.limbs@),
                scale: self.scale as int,
            }
        }
    }
}

/// Four limbs stay below the bound.
pub proof fn lemma_limbs_bound(limbs: Seq<u64>)
    ensures
        limbs_value(limbs) < coefficient_limit(),
        limbs_value(limbs) == 0 <==> limbs[0] == 0 && limbs[1] == 0 && limbs[2] == 0 && limbs[3]
            == 0,
{
}

impl Decimal {
    /// A small integer at scale 0.
    pub fn small(n: u64) -> (d: Decimal)
        ensures
            d@ == (DecimalView::Finite { negative: false, coefficient: n as nat, scale: 0 }),
    {
        Decimal { nan: false, infinite: false, negative: false, limbs: [n, 0, 0, 0], scale: 0 }
    }

    /// Not a number, without a sign.
    pub fn not_a_number() -> (d: Decimal)
        ensures
            d@ == (DecimalView::NotANumber { negative: false }),
    {
        Decimal { nan: true, infinite: false, negative: false, limbs: [0, 0, 0, 0], scale: 0 }
    }

    /// An infinity of the given sign.
    pub fn infinity(negative: bool) -> (d: Decimal)
        ensures
            d@ == (DecimalView::Infinite { negative }),
    {
        Decimal { nan: false, infinite: true, negative, limbs: [0, 0, 0, 0], scale: 0 }
    }

    /// Whether this is neither an infinity nor a NaN.
    pub fn is_finite(&self) -> (r: bool)
        ensures
            r == (self@ is Finite),
    {
        !self.nan && !self.infinite
    }

    /// Whether this is a zero of either sign.
    pub fn is_zero(&self) -> (r: bool)
        ensures
            r == self@.is_zero(),
    {
        proof {
            lemma_limbs_bound(self.limbs@);
        }
        !self.nan && !self.infinite && self.limbs[0] == 0 && self.limbs[1] == 0 && self.limbs[2]
            == 0 && self.limbs[3] == 0
    }

    /// The value with its sign flipped.
    pub fn negated(&self) -> (d: Decimal)
        ensures
            d@ == self@.negated(),
    {
        Decimal {
            nan: self.nan,
            infinite: self.infinite,
            negative: !self.negative,
            limbs: self.limbs,
            scale: self.scale,
        }
    }

    /// The magnitude; a NaN keeps its sign.
    pub fn magnitude(&self) -> (d: Decimal)
        ensures
            d@ == self@.magnitude(),
    {
        Decimal {
            nan: self.nan,
            infinite: self.infinite,
            negative: self.nan && self.negative,
            limbs: self.limbs,
            scale: self.scale,
        }
    }
}

} // verus!
