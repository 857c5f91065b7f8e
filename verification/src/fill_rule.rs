//! Fill rules: policies that turn an integer winding number into a binary
//! inside/outside decision.

use vstd::prelude::*;

verus! {

/// How a winding number is interpreted during rasterization.
#[derive(Clone, Copy, Debug)]
pub enum FillRule {
    /// Filled wherever the winding number is nonzero.
    NonZero,
    /// Filled wherever the winding number is odd ("even-odd" rule).
    OddEven,
    /// Filled wherever the winding number is strictly positive.
    Positive,
    /// Filled wherever the winding number is strictly negative.
    Negative,
}

/// The decision each fill rule makes for a given winding number.
pub open spec fn decide(fill_rule: FillRule, winding: int) -> bool {
    match fill_rule {
        FillRule::NonZero => winding != 0,
        FillRule::OddEven => winding % 2 != 0,
        FillRule::Positive => winding > 0,
        FillRule::Negative => winding < 0,
    }
}

/// Resolves a winding number into a binary fill value based on the fill rule.
pub fn interpret_fill_rule(intersections: i64, fill_rule: FillRule) -> (r: bool)
    ensures
        r == decide(fill_rule, intersections as int),
{
    match fill_rule {
        FillRule::NonZero => intersections != 0,
        FillRule::OddEven => intersections % 2 != 0,
        FillRule::Positive => intersections > 0,
        FillRule::Negative => intersections < 0,
    }
}

/// A winding number of zero is outside under every fill rule: zero is not
/// nonzero, not odd, not positive, and not negative.
pub proof fn lemma_decide_zero(fill_rule: FillRule)
    ensures
        !decide(fill_rule, 0),
{
}

} // verus!
