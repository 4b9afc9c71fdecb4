//! The error taxonomy shared by the index and the block format.

use vstd::prelude::*;

verus! {

/// Why an operation was refused.
#[derive(Debug, Clone, Copy, PartialEq, Eq, Structural)]
pub enum Error {
    /// The record exists as a tombstone.
    NotFound,
    /// Stored bytes do not follow the format.
    Corruption,
    /// The caller broke a rule of the interface.
    InvalidArgument,
}

impl Error {
    /// A short description of the error.
    pub fn message(&self) -> (r: String)
        ensures
            r@ == (match *self {
                Error::NotFound => "not found"@,
                Error::Corruption => "corruption"@,
                Error::InvalidArgument => "invalid argument"@,
            }),
    {
        match self {
            Error::NotFound => "not found".to_owned(),
            Error::Corruption => "corruption".to_owned(),
            Error::InvalidArgument => "invalid argument".to_owned(),
        }
    }
}

} // verus!
