//! Behavior flags for the vector geometry layer that produces this crate's
//! crossings. The flags are plain values this crate can own and hand across
//! the boundary; the floating-point vector arithmetic itself is an external
//! collaborator.

use vstd::prelude::*;

verus! {

/// Whether normalizing a zero-length vector may yield the zero vector
/// (`TRUE`) or must fall back to a unit direction (`FALSE`, the default).
#[derive(Clone, Copy, Debug, PartialEq, Eq, Structural, Default)]
pub enum AllowZero {
    TRUE,
    #[default]
    FALSE,
}

/// Which of the two orthogonal directions of a vector is meant:
/// counterclockwise (`TRUE`, the default) or clockwise (`FALSE`).
#[derive(Clone, Copy, Debug, PartialEq, Eq, Structural, Default)]
pub enum Polarity {
    #[default]
    TRUE,
    FALSE,
}

} // verus!
