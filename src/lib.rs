//! Bencode: decoding through a zero-copy cursor, an eager value tree, typed conversions, and a
//! canonical encoder.
use vstd::prelude::*;

pub mod decoder;
pub mod encoder;
pub mod error;
pub mod from_bencode;
pub mod laws;
pub mod model;
pub mod object;
pub mod to_bencode;
pub mod url_text;
pub mod value;

pub use decoder::{Decoder, DictionaryDecoder, ListDecoder};
pub use encoder::{DictionaryEncoder, Encoder, ToBencode};
pub use error::DecodingError;
pub use from_bencode::FromBencode;
pub use object::Object;
pub use url_text::UrlText;
pub use value::{Bencode, Value, ValueMap};

use model::{Failure, TokenModel};

verus! {

/// Bytes that a typed conversion handles as one byte string.
#[derive(Debug, PartialEq, Eq, PartialOrd, Ord)]
pub struct AsString(pub Vec<u8>);

/// One lexical unit, borrowing its bytes from the input.
#[derive(Debug, PartialEq, Eq)]
pub enum Token<'a> {
    ByteString(&'a [u8]),
    Integer(&'a [u8]),
    ListStart,
    DictionaryStart,
    End,
}

impl<'a> View for Token<'a> {
    type V = TokenModel;

    open spec fn view(&self) -> TokenModel {
        match self {
            Token::ByteString(b) => TokenModel::ByteString(b@),
            Token::Integer(d) => TokenModel::Integer(d@),
            Token::ListStart => TokenModel::ListStart,
            Token::DictionaryStart => TokenModel::DictionaryStart,
            Token::End => TokenModel::End,
        }
    }
}

/// Why the front of an input is not a token.
#[derive(Debug, PartialEq, Eq)]
pub enum LexError {
    /// A byte string declares `needed` more bytes than remain.
    Incomplete { needed: u64 },
    /// The input matches none of the grammar's rules.
    Invalid,
}

impl View for LexError {
    type V = Failure;

    open spec fn view(&self) -> Failure {
        match self {
            LexError::Incomplete { needed } => Failure::Incomplete { needed: *needed as nat },
            LexError::Invalid => Failure::Invalid,
        }
    }
}

} // verus!
