//! Generic order-based scalar helpers.

use core::cmp::Ordering;
use vstd::prelude::*;
use vstd::std_specs::cmp::PartialOrdSpec;

verus! {

/// The value `min` returns: `a` when the order places `a` strictly below
/// `b`, else `b`.
pub open spec fn spec_min<T: PartialOrd>(a: T, b: T) -> T {
    if a.partial_cmp_spec(&b) == Some(Ordering::Less) {
        a
    } else {
        b
    }
}

/// The value `max` returns: `a` when the order places `a` strictly above
/// `b`, else `b`.
pub open spec fn spec_max<T: PartialOrd>(a: T, b: T) -> T {
    if a.partial_cmp_spec(&b) == Some(Ordering::Greater) {
        a
    } else {
        b
    }
}

/// The middle of the three values, as the min/max composition computes it.
pub open spec fn spec_median<T: PartialOrd>(a: T, b: T, c: T) -> T {
    spec_max(spec_min(a, b), spec_min(spec_max(a, b), c))
}

/// `x` clamped to the closed range `[lo, hi]`.
pub open spec fn spec_clamp_between<T: PartialOrd>(x: T, lo: T, hi: T) -> T {
    if x.partial_cmp_spec(&hi) == Some(Ordering::Greater) {
        hi
    } else if x.partial_cmp_spec(&lo) == Some(Ordering::Less) {
        lo
    } else {
        x
    }
}

/// Returns the smaller of the two values (the second on ties).
pub fn min<T: PartialOrd + Copy>(a: T, b: T) -> (r: T)
    ensures
        r == a || r == b,
        T::obeys_partial_cmp_spec() ==> r == spec_min(a, b),
{
    if a < b {
        a
    } else {
        b
    }
}

/// Returns the larger of the two values (the second on ties).
pub fn max<T: PartialOrd + Copy>(a: T, b: T) -> (r: T)
    ensures
        r == a || r == b,
        T::obeys_partial_cmp_spec() ==> r == spec_max(a, b),
{
    if a > b {
        a
    } else {
        b
    }
}

/// Returns the middle of the three values.
pub fn median<T: PartialOrd + Copy>(a: T, b: T, c: T) -> (r: T)
    ensures
        r == a || r == b || r == c,
        T::obeys_partial_cmp_spec() ==> r == spec_median(a, b, c),
{
    max(min(a, b), min(max(a, b), c))
}

/// Clamps `x` between `min` and `max`.
pub fn clamp_between<T: PartialOrd + Copy>(x: T, min: T, max: T) -> (r: T)
    ensures
        r == x || r == min || r == max,
        T::obeys_partial_cmp_spec() ==> r == spec_clamp_between(x, min, max),
{
    if x > max {
        max
    } else if x < min {
        min
    } else {
        x
    }
}

} // verus!
