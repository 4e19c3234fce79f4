//! Error taxonomy of the estimation and evaluation pipeline.

use vstd::prelude::*;

verus! {

/// Everything that can go wrong while fitting parameters or evaluating
/// densities and posteriors.
#[derive(Clone, Copy, Debug, PartialEq, Eq, Structural)]
pub enum GdaError {
    /// Estimation was attempted on an empty dataset.
    EmptyDataset,
    /// Some class has no observation, so its mean is undefined.
    EmptyClass,
    /// An observation carries a class label outside {0, 1}.
    InvalidClassLabel,
    /// A covariance matrix is singular or near-singular and cannot be inverted.
    DegenerateMatrix,
    /// A scalar division by zero, or a non-positive determinant where a
    /// positive one is required.
    InvalidArgument,
    /// An exact rational result does not fit the fixed-width representation.
    Overflow,
}

impl GdaError {
    /// A short human-readable description of the error.
    pub fn describe(&self) -> (r: &'static str)
        ensures
            r@.len() > 0,
    {
        match self {
            GdaError::EmptyDataset => {
                proof { reveal_strlit("empty dataset"); }
                "empty dataset"
            },
            GdaError::EmptyClass => {
                proof { reveal_strlit("a class has no observations"); }
                "a class has no observations"
            },
            GdaError::InvalidClassLabel => {
                proof { reveal_strlit("class label outside {0, 1}"); }
                "class label outside {0, 1}"
            },
            GdaError::DegenerateMatrix => {
                proof { reveal_strlit("singular or near-singular covariance"); }
                "singular or near-singular covariance"
            },
            GdaError::InvalidArgument => {
                proof { reveal_strlit("invalid argument"); }
                "invalid argument"
            },
            GdaError::Overflow => {
                proof { reveal_strlit("exact result out of representable range"); }
                "exact result out of representable range"
            },
        }
    }
}

} // verus!
