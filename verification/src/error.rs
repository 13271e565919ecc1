//! The error kinds of the engine.

use vstd::prelude::*;
use vstd::string::StringExecFns;

verus! {

/// Why an operation of the engine failed.
#[derive(Clone, Copy, Debug, PartialEq, Eq, Structural)]
pub enum ErrorCode {
    /// The file system or the operating system refused an operation.
    Io,
    /// A record did not decode, a pointer referred to an invalid range, or a
    /// record of another kind stood where a `Set` was required.
    Corrupted,
    /// `remove` was called on a key that has no mapping.
    KeyNotFound,
    /// An invariant of the engine was found violated at run time.
    Internal,
}

impl ErrorCode {
    /// The text shown to a user for this error.
    pub open spec fn spec_message(self) -> Seq<char> {
        match self {
            ErrorCode::Io => "input/output error"@,
            ErrorCode::Corrupted => "corrupted record"@,
            ErrorCode::KeyNotFound => "Key not found"@,
            ErrorCode::Internal => "internal error"@,
        }
    }

    /// Renders the error as text.
    pub fn message(&self) -> (text: String)
        ensures
            text@ == self.spec_message(),
    {
        match self {
            ErrorCode::Io => String::from_str("input/output error"),
            ErrorCode::Corrupted => String::from_str("corrupted record"),
            ErrorCode::KeyNotFound => String::from_str("Key not found"),
            ErrorCode::Internal => String::from_str("internal error"),
        }
    }
}

} // verus!
