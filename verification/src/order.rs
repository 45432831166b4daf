//! The order of scalars, for the comparison operators.
use crate::scalar::Scalar;
use core::cmp::Ordering;
use vstd::prelude::*;
use vstd::std_specs::cmp::PartialOrdSpecImpl;

verus! {

impl PartialOrdSpecImpl for Scalar {
    open spec fn obeys_partial_cmp_spec() -> bool {
        true
    }

    /// Numbers are ordered by their values, the two zeros being equal; what is
    /// not a number is neither less nor equal nor greater.
    open spec fn partial_cmp_spec(&self, other: &Scalar) -> Option<Ordering> {
        if self.nan() || other.nan() {
            None
        } else if self.signed_magnitude() < other.signed_magnitude() {
            Some(Ordering::Less)
        } else if self.signed_magnitude() == other.signed_magnitude() {
            Some(Ordering::Equal)
        } else {
            Some(Ordering::Greater)
        }
    }
}

impl PartialOrd for Scalar {
    fn partial_cmp(&self, other: &Scalar) -> (r: Option<Ordering>) {
        if self.is_nan() || other.is_nan() {
            None
        } else if Scalar::lt(*self, *other) {
            Some(Ordering::Less)
        } else if Scalar::equals(*self, *other) {
            Some(Ordering::Equal)
        } else {
            Some(Ordering::Greater)
        }
    }
}

} // verus!
