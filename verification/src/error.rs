//! The error that every fallible step reports.

use vstd::prelude::*;
use vstd::string::StringExecFns;

verus! {

/// What went wrong.
#[derive(Debug, Clone, Copy, PartialEq, Eq, Structural)]
pub enum ErrorKind {
    /// The command line was incomplete or invalid.
    Configuration,
    /// A path or a name could not be represented as text.
    PathDecoding,
    /// Listing, reading metadata, measuring or deleting failed.
    Io,
    /// Numeric size data was malformed.
    Parse,
}

/// What an `RmStuffError` stands for: its kind and its message.
pub struct ErrorView {
    pub kind: ErrorKind,
    pub details: Seq<char>,
}

/// An error with its kind and a message for the user.
#[derive(Debug)]
pub struct RmStuffError {
    kind: ErrorKind,
    details: String,
}

pub type RmStuffResult<T> = Result<T, RmStuffError>;

impl View for RmStuffError {
    type V = ErrorView;

    closed spec fn view(&self) -> ErrorView {
        ErrorView { kind: self.kind, details: self.details@ }
    }
}

impl RmStuffError {
    /// An error of the given kind with the given message.
    pub fn new(kind: ErrorKind, details: &str) -> (error: RmStuffError)
        ensures
            error@ == (ErrorView { kind, details: details@ }),
    {
        RmStuffError { kind, details: String::from_str(details) }
    }

    /// The kind of the error.
    pub fn kind(&self) -> (kind: ErrorKind)
        ensures
            kind == self@.kind,
    {
        self.kind
    }

    /// The message, as it is shown to the user.
    pub fn to_string(&self) -> (text: String)
        ensures
            text@ == self@.details,
    {
        self.details.clone()
    }
}

} // verus!
