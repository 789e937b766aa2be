//! The error of the persistence layer: a kind and a message.
use vstd::prelude::*;
use vstd::string::*;

verus! {

/// What sort of failure a [`StoreError`] reports.
#[derive(Clone, Copy, Debug, PartialEq, Eq, Structural)]
pub enum ErrorKind {
    InvalidData,
    InvalidInput,
    UnexpectedEof,
    NotFound,
    AlreadyExists,
    Unsupported,
}

/// An error with a kind and a message for people.
#[derive(Debug)]
pub struct StoreError {
    kind: ErrorKind,
    message: String,
}

/// The value of a [`StoreError`] in specifications.
#[verifier::ext_equal]
pub struct ErrorView {
    pub kind: ErrorKind,
    pub message: Seq<char>,
}

impl View for StoreError {
    type V = ErrorView;

    closed spec fn view(&self) -> ErrorView {
        ErrorView { kind: self.kind, message: self.message@ }
    }
}

/// An `InvalidData` error with the given message.
pub open spec fn invalid_data(message: Seq<char>) -> ErrorView {
    ErrorView { kind: ErrorKind::InvalidData, message }
}

/// An `InvalidInput` error with the given message.
pub open spec fn invalid_input(message: Seq<char>) -> ErrorView {
    ErrorView { kind: ErrorKind::InvalidInput, message }
}

/// The error of a read past the end of the input.
pub open spec fn end_of_input() -> ErrorView {
    ErrorView { kind: ErrorKind::UnexpectedEof, message: "failed to fill whole buffer"@ }
}

impl StoreError {
    /// An error of the given kind.
    pub fn new(kind: ErrorKind, message: String) -> (e: StoreError)
        ensures
            e@ == (ErrorView { kind, message: message@ }),
    {
        StoreError { kind, message }
    }

    /// An `InvalidData` error.
    pub fn invalid(message: &str) -> (e: StoreError)
        ensures
            e@ == invalid_data(message@),
    {
        StoreError { kind: ErrorKind::InvalidData, message: message.to_owned() }
    }

    /// An `InvalidInput` error.
    pub fn input(message: &str) -> (e: StoreError)
        ensures
            e@ == invalid_input(message@),
    {
        StoreError { kind: ErrorKind::InvalidInput, message: message.to_owned() }
    }

    /// The error of a read past the end of the input.
    pub fn eof() -> (e: StoreError)
        ensures
            e@ == end_of_input(),
    {
        StoreError {
            kind: ErrorKind::UnexpectedEof,
            message: "failed to fill whole buffer".to_owned(),
        }
    }

    /// The sort of failure.
    pub fn kind(&self) -> (k: ErrorKind)
        ensures
            k == self@.kind,
    {
        self.kind
    }

    /// The message.
    pub fn message(&self) -> (m: &str)
        ensures
            m@ == self@.message,
    {
        &self.message
    }
}

} // verus!
