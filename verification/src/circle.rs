//! The entries of an index.

use vstd::prelude::*;
use vstd::std_specs::cmp::PartialEqSpecImpl;
use vstd::std_specs::cmp::PartialOrdSpecImpl;
use std::cmp::Ordering;
use crate::metric::Scalar;
use crate::order::le;
use crate::order::total_order;

verus! {

/// An indexed object with a radius around it. While a range of entries is
/// being arranged the radius holds the distance from the range's vantage point
/// to the object; afterwards it holds the radius that separates the near
/// members of the object's own range from the far ones.
pub struct Circle<'a, T> {
    pub center: &'a T,
    pub radius: Scalar,
}

impl<'a, T> PartialEq for Circle<'a, T> {
    fn eq(&self, other: &Self) -> (r: bool) {
        self.radius == other.radius
    }
}

impl<'a, T> PartialEqSpecImpl for Circle<'a, T> {
    open spec fn obeys_eq_spec() -> bool {
        true
    }

    open spec fn eq_spec(&self, other: &Self) -> bool {
        self.radius == other.radius
    }
}

impl<'a, T> PartialOrd for Circle<'a, T> {
    fn partial_cmp(&self, other: &Self) -> (r: Option<Ordering>) {
        self.radius.partial_cmp(&other.radius)
    }
}

impl<'a, T> PartialOrdSpecImpl for Circle<'a, T> {
    open spec fn obeys_partial_cmp_spec() -> bool {
        true
    }

    open spec fn partial_cmp_spec(&self, other: &Self) -> Option<Ordering> {
        if self.radius < other.radius {
            Some(Ordering::Less)
        } else if self.radius == other.radius {
            Some(Ordering::Equal)
        } else {
            Some(Ordering::Greater)
        }
    }
}

impl<'a, T> Circle<'a, T> {
    /// An entry for `x` with radius 0.
    pub fn new(x: &'a T) -> (c: Circle<'a, T>)
        ensures
            c.center == x,
            c.radius == 0,
    {
        Circle { center: x, radius: 0 }
    }
}

/// Entries are ordered by their radius alone, and that order is total.
pub proof fn lemma_circles_ordered_by_radius<'a, T>()
    ensures
        total_order::<Circle<'a, T>>(),
        forall|a: Circle<'a, T>, b: Circle<'a, T>| #[trigger] le(a, b) <==> a.radius <= b.radius,
{
}

} // verus!
