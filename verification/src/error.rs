//! The errors of the document model.

use vstd::prelude::*;
use vstd::std_specs::convert::FromSpecImpl;

verus! {

/// `std::fmt::Error`, the unit-like error of a formatting sink. Carried, never inspected.
#[verifier::external_type_specification]
#[verifier::external_body]
pub struct ExFmtError(std::fmt::Error);

/// `std::io::Error`. Carried, never inspected.
#[verifier::external_type_specification]
#[verifier::external_body]
pub struct ExIoError(std::io::Error);

/// What went wrong inside the document model. Each variant carries the text
/// that was refused.
#[derive(Debug)]
pub enum ErrorType {
    /// A literal or a path segment that does not follow its grammar, or a
    /// configuration key that already holds a value which cannot absorb the
    /// new one.
    Format(String),
    /// A node id that is empty or holds whitespace.
    InvalidId(String),
    /// A node id that a sibling already uses.
    DuplicateId(String),
    /// A lookup that found no node.
    NoMatch(String),
}

/// What an `ErrorType` stands for.
pub enum Refusal {
    Format(Seq<char>),
    InvalidId(Seq<char>),
    DuplicateId(Seq<char>),
    NoMatch(Seq<char>),
}

impl View for ErrorType {
    type V = Refusal;

    open spec fn view(&self) -> Refusal {
        match self {
            ErrorType::Format(t) => Refusal::Format(t@),
            ErrorType::InvalidId(t) => Refusal::InvalidId(t@),
            ErrorType::DuplicateId(t) => Refusal::DuplicateId(t@),
            ErrorType::NoMatch(t) => Refusal::NoMatch(t@),
        }
    }
}

/// Any error a document operation can hand back.
#[derive(Debug)]
pub enum DocError {
    StdErr(std::fmt::Error),
    IoErr(std::io::Error),
    SoftError(ErrorType),
}

pub type DocResult<T> = Result<T, DocError>;

impl DocError {
    /// What the document model refused, where the error is its own.
    pub open spec fn refusal(&self) -> Option<Refusal> {
        match self {
            DocError::SoftError(e) => Some(e@),
            _ => None,
        }
    }
}

impl ErrorType {
    /// A failed result that reports `msg` as malformed.
    pub fn format_error<T>(msg: String) -> (r: DocResult<T>)
        ensures
            r == Err::<T, DocError>(DocError::SoftError(ErrorType::Format(msg))),
    {
        Err(DocError::SoftError(ErrorType::Format(msg)))
    }
}

impl From<ErrorType> for DocError {
    fn from(value: ErrorType) -> (r: Self) {
        DocError::SoftError(value)
    }
}

impl FromSpecImpl<ErrorType> for DocError {
    open spec fn obeys_from_spec() -> bool {
        true
    }

    open spec fn from_spec(value: ErrorType) -> Self {
        DocError::SoftError(value)
    }
}

impl From<std::io::Error> for DocError {
    fn from(value: std::io::Error) -> (r: Self) {
        DocError::IoErr(value)
    }
}

impl FromSpecImpl<std::io::Error> for DocError {
    open spec fn obeys_from_spec() -> bool {
        true
    }

    open spec fn from_spec(value: std::io::Error) -> Self {
        DocError::IoErr(value)
    }
}

impl From<std::fmt::Error> for DocError {
    fn from(value: std::fmt::Error) -> (r: Self) {
        DocError::StdErr(value)
    }
}

impl FromSpecImpl<std::fmt::Error> for DocError {
    open spec fn obeys_from_spec() -> bool {
        true
    }

    open spec fn from_spec(value: std::fmt::Error) -> Self {
        DocError::StdErr(value)
    }
}

} // verus!
