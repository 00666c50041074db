//! Why a generation was refused.

use vstd::prelude::*;

verus! {

/// The reasons for which a generation yields no level.
#[derive(Debug, Clone, Copy, PartialEq, Eq, Structural)]
pub enum GenError {
    /// A size or a count is not an unsigned decimal number.
    InvalidNumber,
    /// The sizes leave no room to draw from: the board is smaller than the
    /// smallest room asked for, or a minimum is zero or too large.
    InvalidLimits,
}

impl GenError {
    /// A short description of the error.
    pub fn message(&self) -> (text: String)
        ensures
            text@ == match *self {
                GenError::InvalidNumber => "a parameter is not an unsigned decimal number"@,
                GenError::InvalidLimits => "the sizes leave nothing to draw a room from"@,
            },
    {
        match self {
            GenError::InvalidNumber => "a parameter is not an unsigned decimal number".to_owned(),
            GenError::InvalidLimits => "the sizes leave nothing to draw a room from".to_owned(),
        }
    }
}

} // verus!
