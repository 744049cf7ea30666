//! Recoverable failures from a cell or a distance call.

use vstd::prelude::*;

verus! {

/// Why a cell or a distance call could not run.
#[derive(Clone, Copy, Debug, PartialEq, Eq, Structural)]
pub enum Error {
    /// A box length is not strictly positive, or H is singular.
    BadBox,
    /// Caller output length does not match the candidate count.
    BufferSize,
    /// A pair list or candidate list is empty when a count is required.
    Empty,
}

impl Error {
    /// The human-readable message of each variant.
    pub open spec fn message(self) -> Seq<char> {
        match self {
            Error::BadBox => "singular or non-positive cell"@,
            Error::BufferSize => "out buffer length must match the pair count"@,
            Error::Empty => "no pairs"@,
        }
    }

    /// The message that describes this error.
    pub fn to_string(&self) -> (s: String)
        ensures
            s@ == self.message(),
            *self == Error::BadBox ==> s@ == "singular or non-positive cell"@,
            *self == Error::BufferSize ==> s@ == "out buffer length must match the pair count"@,
            *self == Error::Empty ==> s@ == "no pairs"@,
    {
        match self {
            Error::BadBox => "singular or non-positive cell".to_owned(),
            Error::BufferSize => "out buffer length must match the pair count".to_owned(),
            Error::Empty => "no pairs".to_owned(),
        }
    }
}

} // verus!
