//! The ways in which an operation of the engine can fail.

use vstd::prelude::*;

verus! {

/// Why an operation failed.
#[derive(Clone, Copy, Debug, PartialEq, Eq, Structural)]
pub enum Error {
    /// Stored bytes do not follow the layout of a block or of a table.
    Corrupt,
    /// A read went outside the file object.
    Io,
    /// An empty key, or an empty value handed to `put`.
    InvalidArgument,
}

impl Error {
    /// A short description of the error.
    pub fn message(&self) -> (s: &'static str)
        ensures
            s@ == (match *self {
                Error::Corrupt => "stored bytes are corrupt"@,
                Error::Io => "read outside the file"@,
                Error::InvalidArgument => "empty key or value"@,
            }),
    {
        match self {
            Error::Corrupt => "stored bytes are corrupt",
            Error::Io => "read outside the file",
            Error::InvalidArgument => "empty key or value",
        }
    }
}

} // verus!
