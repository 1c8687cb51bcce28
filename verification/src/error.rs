//! The errors of this crate.
use vstd::prelude::*;

verus! {

/// What went wrong in an operation of this crate.
#[derive(Debug, Clone, PartialEq, Eq)]
pub enum Error {
    /// A trace header breaks one of its invariants; the text says which.
    InvalidHeader(String),
    /// A trace holds no header.
    MissingHeader,
    /// Two traces cannot be aligned or compared; the text says why.
    Diff(String),
    /// A capture profile is invalid; the text says why.
    Profile(String),
    /// A trace line is not the JSON it should be; the text says why.
    Json(String),
}

impl Error {
    /// The message carried by this error (empty for `MissingHeader`).
    pub fn message(&self) -> (r: String)
        ensures
            r@ == self.message_text(),
    {
        match self {
            Error::InvalidHeader(m) => m.clone(),
            Error::MissingHeader => String::new(),
            Error::Diff(m) => m.clone(),
            Error::Profile(m) => m.clone(),
            Error::Json(m) => m.clone(),
        }
    }

    /// The text of the message carried by this error.
    pub open spec fn message_text(&self) -> Seq<char> {
        match self {
            Error::InvalidHeader(m) => m@,
            Error::MissingHeader => Seq::empty(),
            Error::Diff(m) => m@,
            Error::Profile(m) => m@,
            Error::Json(m) => m@,
        }
    }
}

} // verus!
