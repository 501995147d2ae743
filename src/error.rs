//! The errors that construction and evaluation report.

use vstd::prelude::*;

verus! {

/// Why a polynomial could not be built or evaluated.
#[derive(Clone, Copy, Debug, PartialEq, Eq, Structural)]
pub enum PolyError {
    /// An evaluation vector whose length is zero or not a power of two.
    InvalidLength,
    /// A point whose number of coordinates differs from the number of variables.
    ArityMismatch,
    /// Factors of one product whose evaluation vectors differ in length.
    LengthMismatch,
    /// Products of one sum whose factor counts differ.
    DegreeMismatch,
    /// Interpolation points of which two are equal.
    DuplicatePoint,
}

} // verus!
