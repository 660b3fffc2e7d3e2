//! The arithmetic operators of FEEL numbers.
//!
//! What an operator returns is stated on the values of its operands, in each
//! operator's own contract.

use crate::arithmetic;
use crate::number::FeelNumber;
use crate::remainders;
use crate::rounding;
use std::ops::{Add, AddAssign, Div, DivAssign, Mul, MulAssign, Neg, Rem, RemAssign, Sub, SubAssign};
use vstd::prelude::*;
use vstd::std_specs::ops::{AddSpecImpl, DivSpecImpl, MulSpecImpl, NegSpecImpl, RemSpecImpl, SubSpecImpl};

verus! {

impl Add<FeelNumber> for FeelNumber {
    type Output = FeelNumber;

    /// Add, and round half to even to the format.
    fn add(self, rhs: FeelNumber) -> (r: FeelNumber)
        ensures
            r@ == rounding::normalized(arithmetic::sum_value(self@, rhs@)),
            r.computed(),
            rounding::in_format(r@),
    {
        FeelNumber::from_parts(arithmetic::plus(self.parts(), rhs.parts()), true)
    }
}

impl AddSpecImpl<FeelNumber> for FeelNumber {
    open spec fn obeys_add_spec() -> bool {
        false
    }

    open spec fn add_req(self, rhs: FeelNumber) -> bool {
        true
    }

    open spec fn add_spec(self, rhs: FeelNumber) -> FeelNumber {
        arbitrary()
    }
}

impl AddAssign<FeelNumber> for FeelNumber {
    fn add_assign(&mut self, rhs: FeelNumber)
        ensures
            final(self)@ == rounding::normalized(arithmetic::sum_value(old(self)@, rhs@)),
            final(self).computed(),
            rounding::in_format(final(self)@),
    {
        *self = FeelNumber::from_parts(arithmetic::plus(self.parts(), rhs.parts()), true);
    }
}

impl Sub<FeelNumber> for FeelNumber {
    type Output = FeelNumber;

    /// Subtract, and round half to even to the format.
    fn sub(self, rhs: FeelNumber) -> (r: FeelNumber)
        ensures
            r@ == rounding::normalized(arithmetic::difference_value(self@, rhs@)),
            r.computed(),
            rounding::in_format(r@),
    {
        FeelNumber::from_parts(arithmetic::minus(self.parts(), rhs.parts()), true)
    }
}

impl SubSpecImpl<FeelNumber> for FeelNumber {
    open spec fn obeys_sub_spec() -> bool {
        false
    }

    open spec fn sub_req(self, rhs: FeelNumber) -> bool {
        true
    }

    open spec fn sub_spec(self, rhs: FeelNumber) -> FeelNumber {
        arbitrary()
    }
}

impl SubAssign<FeelNumber> for FeelNumber {
    fn sub_assign(&mut self, rhs: FeelNumber)
        ensures
            final(self)@ == rounding::normalized(arithmetic::difference_value(old(self)@, rhs@)),
            final(self).computed(),
            rounding::in_format(final(self)@),
    {
        *self = FeelNumber::from_parts(arithmetic::minus(self.parts(), rhs.parts()), true);
    }
}

impl Mul<FeelNumber> for FeelNumber {
    type Output = FeelNumber;

    /// Multiply, and round half to even to the format.
    fn mul(self, rhs: FeelNumber) -> (r: FeelNumber)
        ensures
            r@ == rounding::normalized(arithmetic::product_value(self@, rhs@)),
            r.computed(),
            rounding::in_format(r@),
    {
        FeelNumber::from_parts(arithmetic::times(self.parts(), rhs.parts()), true)
    }
}

impl MulSpecImpl<FeelNumber> for FeelNumber {
    open spec fn obeys_mul_spec() -> bool {
        false
    }

    open spec fn mul_req(self, rhs: FeelNumber) -> bool {
        true
    }

    open spec fn mul_spec(self, rhs: FeelNumber) -> FeelNumber {
        arbitrary()
    }
}

impl MulAssign<FeelNumber> for FeelNumber {
    fn mul_assign(&mut self, rhs: FeelNumber)
        ensures
            final(self)@ == rounding::normalized(arithmetic::product_value(old(self)@, rhs@)),
            final(self).computed(),
            rounding::in_format(final(self)@),
    {
        *self = FeelNumber::from_parts(arithmetic::times(self.parts(), rhs.parts()), true);
    }
}

impl Div<FeelNumber> for FeelNumber {
    type Output = FeelNumber;

    /// Divide, and round half to even to the format: a zero over a zero is not a number,
    /// anything else over a zero is an infinity.
    fn div(self, rhs: FeelNumber) -> (r: FeelNumber)
        ensures
            r@ == rounding::normalized(arithmetic::quotient_value(self@, rhs@)),
            arithmetic::both_nonzero(self@, rhs@) ==> arithmetic::rounded_quotient(self@, rhs@, r@),
            r.computed(),
            rounding::in_format(r@),
    {
        FeelNumber::from_parts(arithmetic::over(self.parts(), rhs.parts()), true)
    }
}

impl DivSpecImpl<FeelNumber> for FeelNumber {
    open spec fn obeys_div_spec() -> bool {
        false
    }

    open spec fn div_req(self, rhs: FeelNumber) -> bool {
        true
    }

    open spec fn div_spec(self, rhs: FeelNumber) -> FeelNumber {
        arbitrary()
    }
}

impl DivAssign<FeelNumber> for FeelNumber {
    fn div_assign(&mut self, rhs: FeelNumber)
        ensures
            final(self)@ == rounding::normalized(arithmetic::quotient_value(old(self)@, rhs@)),
            arithmetic::both_nonzero(old(self)@, rhs@) ==> arithmetic::rounded_quotient(
                old(self)@,
                rhs@,
                final(self)@,
            ),
            final(self).computed(),
            rounding::in_format(final(self)@),
    {
        *self = FeelNumber::from_parts(arithmetic::over(self.parts(), rhs.parts()), true);
    }
}

impl Rem<FeelNumber> for FeelNumber {
    type Output = FeelNumber;

    /// The remainder of the division, floored: `-12 % 5` is `3`, not `-2`.
    fn rem(self, rhs: FeelNumber) -> (r: FeelNumber)
        ensures
            r@ == arithmetic::remainder_value(self@, rhs@),
            forall|x: nat, y: nat, u: int| #[trigger]
                remainders::small_multiples(self@, rhs@, x, y, u) ==> remainders::is_floored(
                    self@,
                    rhs@,
                    r@,
                    x,
                    y,
                    u,
                ),
            r.computed(),
            rounding::in_format(r@),
    {
        FeelNumber::from_parts(arithmetic::remainder(self.parts(), rhs.parts()), true)
    }
}

impl RemSpecImpl<FeelNumber> for FeelNumber {
    open spec fn obeys_rem_spec() -> bool {
        false
    }

    open spec fn rem_req(self, rhs: FeelNumber) -> bool {
        true
    }

    open spec fn rem_spec(self, rhs: FeelNumber) -> FeelNumber {
        arbitrary()
    }
}

impl RemAssign<FeelNumber> for FeelNumber {
    fn rem_assign(&mut self, rhs: FeelNumber)
        ensures
            final(self)@ == arithmetic::remainder_value(old(self)@, rhs@),
            forall|x: nat, y: nat, u: int| #[trigger]
                remainders::small_multiples(old(self)@, rhs@, x, y, u) ==> remainders::is_floored(
                    old(self)@,
                    rhs@,
                    final(self)@,
                    x,
                    y,
                    u,
                ),
            final(self).computed(),
            rounding::in_format(final(self)@),
    {
        *self = FeelNumber::from_parts(arithmetic::remainder(self.parts(), rhs.parts()), true);
    }
}

impl Neg for FeelNumber {
    type Output = FeelNumber;

    /// The number with its sign flipped; zero has a sign too.
    fn neg(self) -> (r: FeelNumber)
        ensures
            r@ == self@.negated(),
            r.computed(),
            rounding::in_format(r@),
    {
        let value = self.parts();
        FeelNumber::from_parts(value.negated(), true)
    }
}

impl NegSpecImpl for FeelNumber {
    open spec fn obeys_neg_spec() -> bool {
        false
    }

    open spec fn neg_req(self) -> bool {
        true
    }

    open spec fn neg_spec(self) -> FeelNumber {
        arbitrary()
    }
}

} // verus!
