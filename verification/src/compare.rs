//! Comparison of FEEL numbers, with each other and with machine integers.
//!
//! Numbers are compared as numbers: `-0` equals `0`, and `1.0` equals `1`.

use crate::arithmetic;
use crate::backend;
use crate::convert;
use crate::decimal::{Decimal, DecimalView};
use crate::number::FeelNumber;
use std::cmp::Ordering;
use vstd::prelude::*;
use vstd::std_specs::cmp::{PartialEqSpecImpl, PartialOrdSpecImpl};

verus! {

/// The three-way comparison of two values: equal, greater, and less for the rest,
/// which a NaN compared with a NaN falls under.
pub open spec fn three_way(a: DecimalView, b: DecimalView) -> Option<Ordering> {
    if backend::same_number(a, b) {
        Some(Ordering::Equal)
    } else if arithmetic::number_order(a, b) > 0 {
        Some(Ordering::Greater)
    } else {
        Some(Ordering::Less)
    }
}

/// Compare two values, never without an answer.
fn compare_values(a: Decimal, b: Decimal) -> (o: Option<Ordering>)
    ensures
        o == three_way(a@, b@),
{
    if arithmetic::num_eq(a, b) {
        return Some(Ordering::Equal);
    }
    if arithmetic::num_gt(a, b) {
        return Some(Ordering::Greater);
    }
    Some(Ordering::Less)
}

impl PartialEq<FeelNumber> for FeelNumber {
    fn eq(&self, rhs: &FeelNumber) -> (r: bool) {
        arithmetic::num_eq(self.parts(), rhs.parts())
    }
}

impl PartialEqSpecImpl<FeelNumber> for FeelNumber {
    open spec fn obeys_eq_spec() -> bool {
        true
    }

    open spec fn eq_spec(&self, rhs: &FeelNumber) -> bool {
        backend::same_number(self@, rhs@)
    }
}

impl PartialEq<FeelNumber> for isize {
    fn eq(&self, rhs: &FeelNumber) -> (r: bool) {
        arithmetic::num_eq(convert::isize_decimal(*self), rhs.parts())
    }
}

impl PartialEqSpecImpl<FeelNumber> for isize {
    open spec fn obeys_eq_spec() -> bool {
        true
    }

    open spec fn eq_spec(&self, rhs: &FeelNumber) -> bool {
        backend::same_number(convert::isize_value(*self), rhs@)
    }
}

impl PartialEq<isize> for FeelNumber {
    fn eq(&self, rhs: &isize) -> (r: bool) {
        arithmetic::num_eq(self.parts(), convert::isize_decimal(*rhs))
    }
}

impl PartialEqSpecImpl<isize> for FeelNumber {
    open spec fn obeys_eq_spec() -> bool {
        true
    }

    open spec fn eq_spec(&self, rhs: &isize) -> bool {
        backend::same_number(self@, convert::isize_value(*rhs))
    }
}

impl PartialOrd<FeelNumber> for FeelNumber {
    /// Never `None`, even for a NaN.
    fn partial_cmp(&self, rhs: &FeelNumber) -> (r: Option<Ordering>)
        ensures
            r == three_way(self@, rhs@),
    {
        compare_values(self.parts(), rhs.parts())
    }

    fn lt(&self, rhs: &FeelNumber) -> (r: bool)
        ensures
            r == (arithmetic::number_order(self@, rhs@) < 0),
    {
        arithmetic::num_lt(self.parts(), rhs.parts())
    }

    fn le(&self, rhs: &FeelNumber) -> (r: bool)
        ensures
            r == (arithmetic::number_order(self@, rhs@) <= 0),
    {
        arithmetic::num_le(self.parts(), rhs.parts())
    }

    fn gt(&self, rhs: &FeelNumber) -> (r: bool)
        ensures
            r == (arithmetic::number_order(self@, rhs@) > 0),
    {
        arithmetic::num_gt(self.parts(), rhs.parts())
    }

    fn ge(&self, rhs: &FeelNumber) -> (r: bool)
        ensures
            r == (arithmetic::number_order(self@, rhs@) >= 0),
    {
        arithmetic::num_ge(self.parts(), rhs.parts())
    }
}

impl PartialOrdSpecImpl<FeelNumber> for FeelNumber {
    /// A NaN is less than itself by [`three_way`] and not by `<`, so the operators
    /// state their own results.
    open spec fn obeys_partial_cmp_spec() -> bool {
        false
    }

    open spec fn partial_cmp_spec(&self, rhs: &FeelNumber) -> Option<Ordering> {
        three_way(self@, rhs@)
    }
}

impl PartialOrd<FeelNumber> for isize {
    fn partial_cmp(&self, rhs: &FeelNumber) -> (r: Option<Ordering>) {
        compare_values(convert::isize_decimal(*self), rhs.parts())
    }
}

impl PartialOrdSpecImpl<FeelNumber> for isize {
    open spec fn obeys_partial_cmp_spec() -> bool {
        true
    }

    open spec fn partial_cmp_spec(&self, rhs: &FeelNumber) -> Option<Ordering> {
        three_way(convert::isize_value(*self), rhs@)
    }
}

impl PartialOrd<isize> for FeelNumber {
    fn partial_cmp(&self, rhs: &isize) -> (r: Option<Ordering>) {
        compare_values(self.parts(), convert::isize_decimal(*rhs))
    }
}

impl PartialOrdSpecImpl<isize> for FeelNumber {
    open spec fn obeys_partial_cmp_spec() -> bool {
        true
    }

    open spec fn partial_cmp_spec(&self, rhs: &isize) -> Option<Ordering> {
        three_way(self@, convert::isize_value(*rhs))
    }
}

} // verus!
