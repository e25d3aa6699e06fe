//! Why a file is rejected.

use vstd::prelude::*;

use crate::resp::RespParseError;

verus! {

/// Why a file is rejected.
#[derive(Debug, PartialEq, Eq)]
pub enum PersistError {
    /// The bytes are not what they should be.
    InvalidFrame,
    /// The bytes are no frame.
    Parse(RespParseError),
    /// A line of a manifest is wrong.
    ManifestParseViolation { line: usize, reason: &'static str },
    /// A line of a manifest names a path and not a file.
    ManifestPathViolation { line: usize, file_name: String },
}

/// What an error says.
#[verifier::ext_equal]
pub enum ErrorView {
    InvalidFrame,
    Parse(RespParseError),
    ManifestParse { line: int, reason: Seq<char> },
    ManifestPath { line: int, file_name: Seq<char> },
}

impl View for PersistError {
    type V = ErrorView;

    open spec fn view(&self) -> ErrorView {
        match *self {
            PersistError::InvalidFrame => ErrorView::InvalidFrame,
            PersistError::Parse(e) => ErrorView::Parse(e),
            PersistError::ManifestParseViolation { line, reason } => ErrorView::ManifestParse {
                line: line as int,
                reason: reason@,
            },
            PersistError::ManifestPathViolation { line, file_name } => ErrorView::ManifestPath {
                line: line as int,
                file_name: file_name@,
            },
        }
    }
}

impl From<RespParseError> for PersistError {
    fn from(value: RespParseError) -> (e: Self) {
        PersistError::Parse(value)
    }
}

impl vstd::std_specs::convert::FromSpecImpl<RespParseError> for PersistError {
    open spec fn obeys_from_spec() -> bool {
        true
    }

    open spec fn from_spec(value: RespParseError) -> Self {
        PersistError::Parse(value)
    }
}

} // verus!
