//! URLs as typed fields: parsed and normalized by the url crate, held as their text.
use vstd::prelude::*;
use vstd::utf8::{decode_utf8, encode_utf8, valid_utf8};

use crate::encoder::{Encoder, ToBencode};
use crate::error::DecodingError;
use crate::from_bencode::FromBencode;
use crate::model::{byte_string_encoding, Tree};
use crate::object::Object;

verus! {

/// The serialization of the URL that `url::Url::parse` reads from a text, or `None` when it
/// refuses the text.
pub uninterp spec fn url_serialization(s: Seq<char>) -> Option<Seq<char>>;

/// Relies on url::Url::parse: the serialization of the URL it reads, or None when it refuses
/// the text; either depends on the text alone.
#[verifier::external_body]
fn serialize_url(text: &str) -> (r: Option<String>)
    ensures
        match r {
            Some(s) => url_serialization(text@) == Some(s@),
            None => url_serialization(text@) is None,
        },
{
    match url::Url::parse(text) {
        Ok(u) => Some(u.as_str().to_owned()),
        Err(_) => None,
    }
}

/// An absolute URL, held in the normalized text that the url crate gives it.
pub struct UrlText {
    text: String,
}

impl UrlText {
    pub closed spec fn spec_text(&self) -> Seq<char> {
        self.text@
    }

    /// Reads a URL; there is none when the text is not one.
    pub fn parse(text: &str) -> (r: Option<UrlText>)
        ensures
            match r {
                Some(u) => url_serialization(text@) == Some(u.spec_text()),
                None => url_serialization(text@) is None,
            },
    {
        match serialize_url(text) {
            Some(s) => Some(UrlText { text: s }),
            None => None,
        }
    }

    /// The normalized text of the URL.
    pub fn as_str(&self) -> (r: &str)
        ensures
            r@ == self.spec_text(),
    {
        self.text.as_str()
    }
}

impl FromBencode for UrlText {
    open spec fn convertible(t: Tree) -> bool {
        t matches Tree::Bytes(b) && valid_utf8(b) && url_serialization(decode_utf8(b)) is Some
    }

    open spec fn converts_to(t: Tree, v: UrlText) -> bool {
        t matches Tree::Bytes(b) && valid_utf8(b) && url_serialization(decode_utf8(b)) == Some(
            v.spec_text(),
        )
    }

    fn decode<'obj, 'de>(object: Object<'obj, 'de>) -> (r: Result<UrlText, DecodingError>) {
        match String::decode(object) {
            Err(e) => Err(e),
            Ok(s) => match UrlText::parse(s.as_str()) {
                Some(u) => Ok(u),
                None => Err(DecodingError::Unknown),
            },
        }
    }
}

impl ToBencode for UrlText {
    open spec fn bencoded(&self) -> Seq<u8> {
        byte_string_encoding(encode_utf8(self.spec_text()))
    }

    fn encode(&self, encoder: &mut Encoder) {
        encoder.emit_byte_string(self.text.as_str())
    }
}

} // verus!
