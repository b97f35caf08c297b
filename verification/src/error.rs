//! The ways in which a detection call can be refused.

use vstd::prelude::*;

verus! {

/// Why a call was refused. A refused call has done no work and changed
/// nothing.
#[derive(Clone, Copy, Debug, PartialEq, Eq, Structural)]
pub enum DetectError {
    /// Detection was asked of a classifier or descriptor that holds no model.
    ModelNotLoaded,
    /// An empty image, a window without area, size limits that admit no
    /// scale, or parallel lists of different lengths.
    InvalidInput,
    /// The classifier coefficients do not fit the descriptor's geometry.
    IncompatibleDescriptorSize,
}

impl DetectError {
    /// A short description of the error.
    pub fn message(&self) -> (s: &'static str)
        ensures
            s@ == match *self {
                DetectError::ModelNotLoaded => "model not loaded"@,
                DetectError::InvalidInput => "invalid input"@,
                DetectError::IncompatibleDescriptorSize => "incompatible descriptor size"@,
            },
    {
        match self {
            DetectError::ModelNotLoaded => {
                proof {
                    reveal_strlit("model not loaded");
                }
                "model not loaded"
            },
            DetectError::InvalidInput => {
                proof {
                    reveal_strlit("invalid input");
                }
                "invalid input"
            },
            DetectError::IncompatibleDescriptorSize => {
                proof {
                    reveal_strlit("incompatible descriptor size");
                }
                "incompatible descriptor size"
            },
        }
    }
}

} // verus!
