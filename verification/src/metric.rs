//! Distance functions.

use vstd::prelude::*;
use std::marker::PhantomData;

verus! {

/// The type of distances and of search radii: whole numbers. Distances on a
/// finer scale are brought to whole numbers before they come here.
pub type Scalar = i64;

/// A distance function on `T`, fixed for the lifetime of an index.
pub trait Metric<T> {
    /// The distance from `a` to `b`.
    spec fn dist(&self, a: T, b: T) -> int;

    /// Computes the distance from `a` to `b`.
    fn distance(&self, a: &T, b: &T) -> (d: Scalar)
        ensures
            d == self.dist(*a, *b),
    ;
}

/// Distances under `m` are never negative, do not depend on the direction,
/// and obey the triangle inequality. Distinct values may be at distance 0.
pub open spec fn is_metric<T, M: Metric<T>>(m: M) -> bool {
    &&& forall|a: T, b: T| #[trigger] m.dist(a, b) >= 0
    &&& forall|a: T, b: T| #[trigger] m.dist(a, b) == m.dist(b, a)
    &&& forall|a: T, b: T, c: T| m.dist(a, c) <= #[trigger] m.dist(a, b) + #[trigger] m.dist(b, c)
}

/// The function value `f` can stand for a distance function: it accepts
/// every pair of arguments, and a pair of arguments decides what it returns.
pub open spec fn is_function<T, F: Fn(&T, &T) -> Scalar>(f: F) -> bool {
    &&& forall|a: T, b: T| #[trigger] call_requires(f, (&a, &b))
    &&& forall|a: T, b: T, d1: Scalar, d2: Scalar|
        #[trigger] call_ensures(f, (&a, &b), d1) && #[trigger] call_ensures(f, (&a, &b), d2) ==> d1
            == d2
}

/// A function value taken as a metric. The distance from `a` to `b` is what
/// the function returns for them.
pub struct FnMetric<T, F: Fn(&T, &T) -> Scalar> {
    f: F,
    of: PhantomData<T>,
}

impl<T, F: Fn(&T, &T) -> Scalar> FnMetric<T, F> {
    #[verifier::type_invariant]
    spec fn inv(self) -> bool {
        is_function::<T, F>(self.f)
    }

    /// The function that computes the distances.
    pub closed spec fn function(self) -> F {
        self.f
    }

    /// Takes `f` as a metric.
    pub fn new(f: F) -> (m: Self)
        requires
            is_function::<T, F>(f),
        ensures
            m.function() == f,
    {
        FnMetric { f: f, of: PhantomData }
    }
}

impl<T, F: Fn(&T, &T) -> Scalar> Metric<T> for FnMetric<T, F> {
    open spec fn dist(&self, a: T, b: T) -> int {
        (choose|d: Scalar| call_ensures(self.function(), (&a, &b), d)) as int
    }

    fn distance(&self, a: &T, b: &T) -> (d: Scalar) {
        proof {
            use_type_invariant(self);
        }
        (self.f)(a, b)
    }
}

/// The absolute difference of two integers.
pub struct AbsDiff;

impl Metric<i32> for AbsDiff {
    open spec fn dist(&self, a: i32, b: i32) -> int {
        if a >= b {
            a - b
        } else {
            b - a
        }
    }

    fn distance(&self, a: &i32, b: &i32) -> (d: Scalar) {
        let x: i64 = *a as i64;
        let y: i64 = *b as i64;
        if x >= y {
            x - y
        } else {
            y - x
        }
    }
}

/// The absolute difference is a metric.
pub proof fn lemma_abs_diff_is_metric()
    ensures
        is_metric(AbsDiff),
{
}

} // verus!
