//! The ways in which an operation on the cache can fail.

use vstd::prelude::*;
use vstd::string::*;

verus! {

/// The kind of a failure, without its message.
#[derive(Clone, Copy, Debug, PartialEq, Eq, Structural)]
pub enum ErrorKind {
    ParseFailure,
    NotLoaded,
    MalformedPath,
    NotFound,
    EncodingFailure,
}

/// A failure of an operation on the cache.
#[derive(Clone, Debug, PartialEq, Eq)]
pub enum DocError {
    /// The markup of a document is malformed. Holds the parser's message.
    ParseFailure(String),
    /// No document is loaded under the given source path.
    NotLoaded,
    /// A recorded path text denotes no path.
    MalformedPath,
    /// A path does not lead to a node, or the node to delete is not there.
    NotFound,
    /// The document could not be written out as text. Holds the cause.
    EncodingFailure(String),
}

/// The kind of a failure.
pub open spec fn kind_of(e: DocError) -> ErrorKind {
    match e {
        DocError::ParseFailure(_) => ErrorKind::ParseFailure,
        DocError::NotLoaded => ErrorKind::NotLoaded,
        DocError::MalformedPath => ErrorKind::MalformedPath,
        DocError::NotFound => ErrorKind::NotFound,
        DocError::EncodingFailure(_) => ErrorKind::EncodingFailure,
    }
}

/// The message of a failure.
pub open spec fn message_of(e: DocError) -> Seq<char> {
    match e {
        DocError::ParseFailure(m) => "xml parse error: "@ + m@,
        DocError::NotLoaded => "not loaded"@,
        DocError::MalformedPath => "invalid path"@,
        DocError::NotFound => "not found"@,
        DocError::EncodingFailure(m) => "serialize error: "@ + m@,
    }
}

impl DocError {
    /// The kind of this failure.
    pub fn kind(&self) -> (k: ErrorKind)
        ensures
            k == kind_of(*self),
    {
        match self {
            DocError::ParseFailure(_) => ErrorKind::ParseFailure,
            DocError::NotLoaded => ErrorKind::NotLoaded,
            DocError::MalformedPath => ErrorKind::MalformedPath,
            DocError::NotFound => ErrorKind::NotFound,
            DocError::EncodingFailure(_) => ErrorKind::EncodingFailure,
        }
    }

    /// A descriptive message for this failure.
    pub fn message(&self) -> (r: String)
        ensures
            r@ == message_of(*self),
    {
        match self {
            DocError::ParseFailure(m) => String::from_str("xml parse error: ").concat(m.as_str()),
            DocError::NotLoaded => String::from_str("not loaded"),
            DocError::MalformedPath => String::from_str("invalid path"),
            DocError::NotFound => String::from_str("not found"),
            DocError::EncodingFailure(m) => String::from_str("serialize error: ").concat(
                m.as_str(),
            ),
        }
    }
}

} // verus!
