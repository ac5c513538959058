use vstd::prelude::*;

use crate::model::Failure;

verus! {

/// Why a decode failed.
#[derive(Debug, PartialEq, Eq)]
pub enum DecodingError {
    /// A dictionary key is not followed by a value.
    MissingDictionaryValue,
    /// A record's required field never appeared.
    MissingField { field: String },
    /// A record met a key it does not know.
    UnexpectedField { field: String },
    /// An object of one shape was found where another was required.
    UnexpectedObject { expected_object: &'static str, actual_object: &'static str },
    /// The input ended before the document or one of its tokens was complete.
    UnexpectedEof,
    /// The input is not bencode, or a scalar does not convert to the requested type.
    Unknown,
}

/// The error reported for a lexical failure.
pub open spec fn failure_error(f: Failure) -> DecodingError {
    match f {
        Failure::Incomplete { .. } => DecodingError::UnexpectedEof,
        Failure::Invalid => DecodingError::Unknown,
    }
}

impl DecodingError {
    pub fn missing_field(field: String) -> (r: Self)
        ensures
            r == (DecodingError::MissingField { field }),
    {
        Self::MissingField { field }
    }

    pub fn unexpected_field(field: String) -> (r: Self)
        ensures
            r == (DecodingError::UnexpectedField { field }),
    {
        Self::UnexpectedField { field }
    }

    pub fn unexpected_object(expected_object: &'static str, actual_object: &'static str) -> (r: Self)
        ensures
            r == (DecodingError::UnexpectedObject { expected_object, actual_object }),
    {
        Self::UnexpectedObject { expected_object, actual_object }
    }
}

} // verus!
