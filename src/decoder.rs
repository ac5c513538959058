use vstd::prelude::*;

use crate::error::{failure_error, DecodingError};
use crate::model::{
    all_digits, dedup, digit_run, digits_value, integer_body_end, is_canonical_integer, is_digit,
    lemma_digit_run, lemma_digits_value_mono, lemma_digits_value_step, lex_byte_string, lex_integer,
    lex_token, parse_dict, parse_document, parse_list, parse_value, Lexed, TokenModel, COLON,
    DICT_START, END, INT_START, LIST_START, MINUS, NINE, ZERO,
};
use crate::object::Object;
use crate::value::{is_tree_result, scalar_tree, Value};
use crate::{LexError, Token};

verus! {

/// A cursor over one in-memory bencode buffer; its view is the part not yet read.
pub struct Decoder<'de> {
    bytes: &'de [u8],
}

/// A handle through which the cursor reads the elements of a list.
pub struct ListDecoder<'obj, 'de>(&'obj mut Decoder<'de>);

/// A handle through which the cursor reads the key/value pairs of a dictionary.
pub struct DictionaryDecoder<'obj, 'de>(&'obj mut Decoder<'de>);

impl<'de> View for Decoder<'de> {
    type V = Seq<u8>;

    closed spec fn view(&self) -> Seq<u8> {
        self.bytes@
    }
}

/// `r` is what lexing the front of `s` gives when `l` is the grammar's verdict on it: the token
/// and the rest, or the failure.
pub open spec fn is_lex_result<'a>(
    l: Lexed,
    s: Seq<u8>,
    r: Result<(&'a [u8], Token<'a>), LexError>,
) -> bool {
    match l {
        Lexed::Token { token, len } => r matches Ok((rest, t)) && t@ == token && len <= s.len()
            && rest@ == s.subrange(len as int, s.len() as int),
        Lexed::Failed(f) => r matches Err(e) && e@ == f,
    }
}

/// `r` is what reading a scalar off the front of `s` gives when `l` is the grammar's verdict on
/// it: the rest and the scalar's bytes, or the failure.
pub open spec fn is_raw_result<'a>(
    l: Lexed,
    s: Seq<u8>,
    r: Result<(&'a [u8], &'a [u8]), LexError>,
) -> bool {
    match l {
        Lexed::Token { token, len } => r matches Ok((rest, v)) && len <= s.len() && rest@ == s.subrange(
            len as int,
            s.len() as int,
        ) && (token matches TokenModel::ByteString(b) ==> v@ == b) && (token matches TokenModel::Integer(
            d,
        ) ==> v@ == d),
        Lexed::Failed(f) => r matches Err(e) && e@ == f,
    }
}

fn is_digit_byte(b: u8) -> (r: bool)
    ensures
        r == is_digit(b),
{
    ZERO <= b && b <= NINE
}

/// Index just past the run of digits that starts at `from`.
pub(crate) fn scan_digits(bytes: &[u8], from: usize) -> (k: usize)
    requires
        from <= bytes@.len(),
    ensures
        from <= k <= bytes@.len(),
        k - from == digit_run(bytes@.subrange(from as int, bytes@.len() as int)),
        all_digits(bytes@.subrange(from as int, k as int)),
        k < bytes@.len() ==> !is_digit(bytes@[k as int]),
{
    let mut k = from;
    while k < bytes.len() && is_digit_byte(bytes[k])
        invariant
            from <= k <= bytes@.len(),
            forall|i: int| from <= i < k ==> is_digit(#[trigger] bytes@[i]),
        decreases bytes@.len() - k,
    {
        k = k + 1;
    }
    proof {
        let t = bytes@.subrange(from as int, bytes@.len() as int);
        assert forall|i: int| 0 <= i < k - from implies is_digit(#[trigger] t[i]) by {
            assert(t[i] == bytes@[from + i]);
        }
        if k < bytes@.len() {
            assert(t[k - from] == bytes@[k as int]);
        }
        lemma_digit_run(t, k - from);
        assert forall|i: int| 0 <= i < k - from implies is_digit(
            #[trigger] bytes@.subrange(from as int, k as int)[i],
        ) by {
            assert(bytes@.subrange(from as int, k as int)[i] == bytes@[from + i]);
        }
    }
    k
}

/// The value of the digits `bytes[0..k]`, or `None` when it exceeds `u64::MAX`.
fn digits_to_u64(bytes: &[u8], k: usize) -> (r: Option<u64>)
    requires
        k <= bytes@.len(),
        all_digits(bytes@.subrange(0, k as int)),
    ensures
        match r {
            Some(n) => n == digits_value(bytes@.subrange(0, k as int)),
            None => digits_value(bytes@.subrange(0, k as int)) > u64::MAX,
        },
{
    let mut n: u64 = 0;
    let mut i: usize = 0;
    while i < k
        invariant
            i <= k <= bytes@.len(),
            all_digits(bytes@.subrange(0, k as int)),
            n == digits_value(bytes@.subrange(0, i as int)),
        decreases k - i,
    {
        assert(bytes@.subrange(0, k as int)[i as int] == bytes@[i as int]);
        let d = (bytes[i] - ZERO) as u64;
        proof {
            lemma_digits_value_step(bytes@, i as int);
        }
        let m: u128 = n as u128 * 10 + d as u128;
        if m > u64::MAX as u128 {
            proof {
                lemma_digits_value_mono(bytes@, i + 1, k as int);
            }
            return None;
        }
        n = m as u64;
        i = i + 1;
    }
    Some(n)
}

impl<'de> Decoder<'de> {
    pub fn new(bytes: &'de [u8]) -> (r: Self)
        ensures
            r@ == bytes@,
    {
        Self { bytes }
    }

    /// Reads the byte string at the front of `bytes`, returning the rest and its contents.
    pub fn decode_byte_string_raw(bytes: &[u8]) -> (r: Result<(&[u8], &[u8]), LexError>)
        ensures
            is_raw_result(lex_byte_string(bytes@), bytes@, r),
            lex_byte_string(bytes@) matches Lexed::Token { token, .. } ==> token is ByteString,
    {
        let len = bytes.len();
        let k = scan_digits(bytes, 0);
        assert(bytes@.subrange(0, len as int) =~= bytes@);
        if k == 0 || k >= len || bytes[k] != COLON {
            return Err(LexError::Invalid);
        }
        match digits_to_u64(bytes, k) {
            None => Err(LexError::Invalid),
            Some(n) => {
                let avail = len - (k + 1);
                if (avail as u64) < n {
                    Err(LexError::Incomplete { needed: n - avail as u64 })
                } else {
                    let end = k + 1 + n as usize;
                    let value = vstd::slice::slice_subrange(bytes, k + 1, end);
                    let rest = vstd::slice::slice_subrange(bytes, end, len);
                    Ok((rest, value))
                }
            },
        }
    }

    /// Reads the byte string at the front of `bytes` as a token.
    pub fn decode_byte_string_token(bytes: &[u8]) -> (r: Result<(&[u8], Token), LexError>)
        ensures
            is_lex_result(lex_byte_string(bytes@), bytes@, r),
    {
        match Self::decode_byte_string_raw(bytes) {
            Ok((rest, value)) => Ok((rest, Token::ByteString(value))),
            Err(e) => Err(e),
        }
    }

    /// Reads the integer token at the front of `bytes`, returning the rest and its digits
    /// (sign included).
    pub fn decode_integer_raw(bytes: &[u8]) -> (r: Result<(&[u8], &[u8]), LexError>)
        ensures
            is_raw_result(lex_integer(bytes@), bytes@, r),
            lex_integer(bytes@) matches Lexed::Token { token, .. } ==> token is Integer,
    {
        let len = bytes.len();
        if len == 0 || bytes[0] != INT_START {
            return Err(LexError::Invalid);
        }
        let sign: usize = if len > 1 && bytes[1] == MINUS {
            1
        } else {
            0
        };
        let start = 1 + sign;
        let end = scan_digits(bytes, start);
        let count = end - start;
        let canonical = count >= 1 && (if sign == 1 {
            bytes[start] != ZERO
        } else {
            bytes[start] != ZERO || count == 1
        });
        proof {
            let s = bytes@;
            let body = s.subrange(1, end as int);
            let digits = s.subrange(start as int, end as int);
            assert(end == integer_body_end(s));
            if sign == 1 {
                assert(body.drop_first() =~= digits);
                assert(body[0] == MINUS);
                if count >= 1 {
                    assert(body[1] == digits[0]);
                }
                assert(!is_digit(body[0]));
                assert(!all_digits(body)) by {
                    assert(!is_digit(body[0]));
                }
            } else {
                assert(body =~= digits);
                if body.len() >= 1 {
                    assert(is_digit(body[0]));
                }
            }
            if count >= 1 {
                assert(digits[0] == s[start as int]);
            }
            assert(canonical == is_canonical_integer(body));
        }
        if end < len && bytes[end] == END && canonical {
            let digits = vstd::slice::slice_subrange(bytes, 1, end);
            let rest = vstd::slice::slice_subrange(bytes, end + 1, len);
            Ok((rest, digits))
        } else {
            Err(LexError::Invalid)
        }
    }

    /// Reads the token at the front of a non-empty input.
    pub fn lex(bytes: &'de [u8]) -> (r: Result<(&'de [u8], Token<'de>), LexError>)
        ensures
            is_lex_result(lex_token(bytes@), bytes@, r),
    {
        if bytes.len() == 0 {
            return Err(LexError::Invalid);
        }
        let b = bytes[0];
        let rest = vstd::slice::slice_subrange(bytes, 1, bytes.len());
        if is_digit_byte(b) {
            Self::decode_byte_string_token(bytes)
        } else if b == INT_START {
            match Self::decode_integer_raw(bytes) {
                Ok((rest, digits)) => Ok((rest, Token::Integer(digits))),
                Err(e) => Err(e),
            }
        } else if b == LIST_START {
            Ok((rest, Token::ListStart))
        } else if b == DICT_START {
            Ok((rest, Token::DictionaryStart))
        } else if b == END {
            Ok((rest, Token::End))
        } else {
            Err(LexError::Invalid)
        }
    }

    /// Reads the byte string at the front of `bytes` as a value.
    pub fn decode_byte_string(bytes: &[u8]) -> (r: Result<(&[u8], Value), LexError>)
        ensures
            is_tree_result(scalar_tree(lex_byte_string(bytes@)), bytes@, r),
    {
        crate::value::decode_byte_string(bytes)
    }

    /// Reads the list at the front of `bytes`.
    pub fn decode_list(bytes: &[u8]) -> (r: Result<(&[u8], Value), LexError>)
        ensures
            is_tree_result(parse_list(bytes@), bytes@, r),
    {
        crate::value::decode_lists(bytes)
    }

    /// Reads the dictionary at the front of `bytes`.
    pub fn decode_dictionaries(bytes: &[u8]) -> (r: Result<(&[u8], Value), LexError>)
        ensures
            is_tree_result(parse_dict(bytes@), bytes@, r),
    {
        crate::value::decode_dictionaries(bytes)
    }

    /// Reads the value at the front of `bytes`.
    pub fn decode_any(bytes: &[u8]) -> (r: Result<(&[u8], Value), LexError>)
        ensures
            is_tree_result(parse_value(bytes@), bytes@, r),
    {
        crate::value::decode_any(bytes)
    }

    /// Reads a whole document; bytes left after its one value are an error.
    pub fn decode(bytes: &[u8]) -> (r: Result<Value, DecodingError>)
        ensures
            match parse_document(bytes@) {
                Ok(t) => r matches Ok(v) && v.tree() == dedup(t),
                Err(f) => r == Err::<Value, DecodingError>(failure_error(f)),
            },
    {
        crate::value::decode(bytes)
    }

    fn next_token(&mut self) -> (r: Result<Option<Token<'de>>, DecodingError>)
        ensures
            old(self)@.len() == 0 ==> r == Ok::<Option<Token<'de>>, DecodingError>(None)
                && final(self)@ == old(self)@,
            old(self)@.len() > 0 ==> match lex_token(old(self)@) {
                Lexed::Token { token, len } => r matches Ok(Some(t)) && t@ == token
                    && final(self)@ == old(self)@.subrange(len as int, old(self)@.len() as int),
                Lexed::Failed(f) => r == Err::<Option<Token<'de>>, DecodingError>(failure_error(f))
                    && final(self)@ == old(self)@,
            },
    {
        if self.bytes.len() == 0 {
            return Ok(None);
        }
        match Self::lex(self.bytes) {
            Ok((rest, token)) => {
                self.bytes = rest;
                Ok(Some(token))
            },
            Err(LexError::Incomplete { .. }) => Err(DecodingError::UnexpectedEof),
            Err(LexError::Invalid) => Err(DecodingError::Unknown),
        }
    }

    /// Reads the next object. At the end of the input, or at an end marker, there is none.
    pub fn next_object<'obj>(&'obj mut self) -> (r: Result<Option<Object<'obj, 'de>>, DecodingError>)
        ensures
            old(self)@.len() == 0 ==> r == Ok::<Option<Object<'obj, 'de>>, DecodingError>(None)
                && final(self)@ == old(self)@,
            old(self)@.len() > 0 ==> match lex_token(old(self)@) {
                Lexed::Failed(f) => r == Err::<Option<Object<'obj, 'de>>, DecodingError>(
                    failure_error(f),
                ) && final(self)@ == old(self)@,
                Lexed::Token { token, len } => len <= old(self)@.len() && match token {
                    TokenModel::End => r == Ok::<Option<Object<'obj, 'de>>, DecodingError>(None)
                        && final(self)@ == old(self)@.subrange(len as int, old(self)@.len() as int),
                    TokenModel::ByteString(b) => r matches Ok(Some(Object::ByteString(x))) && x@ == b
                        && final(self)@ == old(self)@.subrange(len as int, old(self)@.len() as int),
                    TokenModel::Integer(d) => r matches Ok(Some(Object::Integer(x))) && x@ == d
                        && final(self)@ == old(self)@.subrange(len as int, old(self)@.len() as int),
                    TokenModel::ListStart => r matches Ok(Some(Object::List(l))) && l@
                        == old(self)@.subrange(len as int, old(self)@.len() as int) && final(self)@
                        == final(l.cursor())@,
                    TokenModel::DictionaryStart => r matches Ok(Some(Object::Dictionary(d))) && d@
                        == old(self)@.subrange(len as int, old(self)@.len() as int) && final(self)@
                        == final(d.cursor())@,
                },
            },
    {
        let token = self.next_token();
        match token {
            Err(e) => Err(e),
            Ok(None) => Ok(None),
            Ok(Some(Token::End)) => Ok(None),
            Ok(Some(Token::ByteString(byte_string))) => Ok(Some(Object::ByteString(byte_string))),
            Ok(Some(Token::Integer(integer))) => Ok(Some(Object::Integer(integer))),
            Ok(Some(Token::ListStart)) => Ok(Some(Object::List(ListDecoder::new(self)))),
            Ok(Some(Token::DictionaryStart)) => Ok(
                Some(Object::Dictionary(DictionaryDecoder::new(self))),
            ),
        }
    }
}

impl<'obj, 'de> View for ListDecoder<'obj, 'de> {
    type V = Seq<u8>;

    closed spec fn view(&self) -> Seq<u8> {
        (*self.0)@
    }
}

impl<'obj, 'de> ListDecoder<'obj, 'de> {
    /// The cursor this handle reads through.
    pub closed spec fn cursor(&self) -> &'obj mut Decoder<'de> {
        self.0
    }

    /// Gives up the handle, returning what the cursor has not read yet; the cursor goes on from
    /// there.
    pub fn as_bytes(self) -> (r: &'de [u8])
        ensures
            r@ == self@,
            final(self.cursor())@ == self@,
    {
        self.0.bytes
    }

    pub fn new(decoder: &'obj mut Decoder<'de>) -> (r: Self)
        ensures
            r@ == old(decoder)@,
            final(decoder)@ == final(r.cursor())@,
    {
        Self(decoder)
    }

    /// Reads the next element; there is none once the list's end marker is read.
    pub fn next_object<'item>(&'item mut self) -> (r: Result<
        Option<Object<'item, 'de>>,
        DecodingError,
    >)
        ensures
            final(final(self).cursor())@ == final(old(self).cursor())@,
            old(self)@.len() == 0 ==> r == Err::<Option<Object<'item, 'de>>, DecodingError>(
                DecodingError::UnexpectedEof,
            ) && final(self)@ == old(self)@,
            old(self)@.len() > 0 ==> match lex_token(old(self)@) {
                Lexed::Failed(f) => r == Err::<Option<Object<'item, 'de>>, DecodingError>(
                    failure_error(f),
                ) && final(self)@ == old(self)@,
                Lexed::Token { token, len } => len <= old(self)@.len() && match token {
                    TokenModel::End => r == Ok::<Option<Object<'item, 'de>>, DecodingError>(None)
                        && final(self)@ == old(self)@.subrange(len as int, old(self)@.len() as int),
                    TokenModel::ByteString(b) => r matches Ok(Some(Object::ByteString(x))) && x@ == b
                        && final(self)@ == old(self)@.subrange(len as int, old(self)@.len() as int),
                    TokenModel::Integer(d) => r matches Ok(Some(Object::Integer(x))) && x@ == d
                        && final(self)@ == old(self)@.subrange(len as int, old(self)@.len() as int),
                    TokenModel::ListStart => r matches Ok(Some(Object::List(l))) && l@
                        == old(self)@.subrange(len as int, old(self)@.len() as int) && final(self)@
                        == final(l.cursor())@,
                    TokenModel::DictionaryStart => r matches Ok(Some(Object::Dictionary(d))) && d@
                        == old(self)@.subrange(len as int, old(self)@.len() as int) && final(self)@
                        == final(d.cursor())@,
                },
            },
    {
        if self.0.bytes.len() == 0 {
            return Err(DecodingError::UnexpectedEof);
        }
        self.0.next_object()
    }
}

impl<'obj, 'de> View for DictionaryDecoder<'obj, 'de> {
    type V = Seq<u8>;

    closed spec fn view(&self) -> Seq<u8> {
        (*self.0)@
    }
}

impl<'obj, 'de> DictionaryDecoder<'obj, 'de> {
    /// The cursor this handle reads through.
    pub closed spec fn cursor(&self) -> &'obj mut Decoder<'de> {
        self.0
    }

    /// Gives up the handle, returning what the cursor has not read yet; the cursor goes on from
    /// there.
    pub fn as_bytes(self) -> (r: &'de [u8])
        ensures
            r@ == self@,
            final(self.cursor())@ == self@,
    {
        self.0.bytes
    }

    pub fn new(decoder: &'obj mut Decoder<'de>) -> (r: Self)
        ensures
            r@ == old(decoder)@,
            final(decoder)@ == final(r.cursor())@,
    {
        Self(decoder)
    }

    /// Reads the next key and its value; there is none once the dictionary's end marker is
    /// read. A key must be a byte string, and must be followed by a value.
    pub fn next_pair<'item>(&'item mut self) -> (r: Result<
        Option<(&'de [u8], Object<'item, 'de>)>,
        DecodingError,
    >)
        ensures
            final(final(self).cursor())@ == final(old(self).cursor())@,
            old(self)@.len() == 0 ==> r == Err::<Option<(&'de [u8], Object<'item, 'de>)>, DecodingError>(
                DecodingError::UnexpectedEof,
            ) && final(self)@ == old(self)@,
            old(self)@.len() > 0 ==> match lex_token(old(self)@) {
                Lexed::Failed(f) => r == Err::<Option<(&'de [u8], Object<'item, 'de>)>, DecodingError>(
                    failure_error(f),
                ) && final(self)@ == old(self)@,
                Lexed::Token { token, len } => {
                    let s1 = old(self)@.subrange(len as int, old(self)@.len() as int);
                    len <= old(self)@.len() && match token {
                        TokenModel::End => r == Ok::<
                            Option<(&'de [u8], Object<'item, 'de>)>,
                            DecodingError,
                        >(None) && final(self)@ == s1,
                        TokenModel::ByteString(k) => {
                            &&& s1.len() == 0 ==> r == Err::<
                                Option<(&'de [u8], Object<'item, 'de>)>,
                                DecodingError,
                            >(DecodingError::MissingDictionaryValue) && final(self)@ == s1
                            &&& s1.len() > 0 ==> match lex_token(s1) {
                                Lexed::Failed(f) => r == Err::<
                                    Option<(&'de [u8], Object<'item, 'de>)>,
                                    DecodingError,
                                >(failure_error(f)) && final(self)@ == s1,
                                Lexed::Token { token: t2, len: n2 } => {
                                    let s2 = s1.subrange(n2 as int, s1.len() as int);
                                    n2 <= s1.len() && match t2 {
                                        TokenModel::End => r == Err::<
                                            Option<(&'de [u8], Object<'item, 'de>)>,
                                            DecodingError,
                                        >(DecodingError::MissingDictionaryValue) && final(self)@
                                            == s2,
                                        TokenModel::ByteString(b) => r matches Ok(
                                            Some((key, Object::ByteString(x))),
                                        ) && key@ == k && x@ == b && final(self)@ == s2,
                                        TokenModel::Integer(d) => r matches Ok(
                                            Some((key, Object::Integer(x))),
                                        ) && key@ == k && x@ == d && final(self)@ == s2,
                                        TokenModel::ListStart => r matches Ok(
                                            Some((key, Object::List(l))),
                                        ) && key@ == k && l@ == s2 && final(self)@
                                            == final(l.cursor())@,
                                        TokenModel::DictionaryStart => r matches Ok(
                                            Some((key, Object::Dictionary(d))),
                                        ) && key@ == k && d@ == s2 && final(self)@
                                            == final(d.cursor())@,
                                    }
                                },
                            }
                        },
                        _ => r == Err::<Option<(&'de [u8], Object<'item, 'de>)>, DecodingError>(
                            DecodingError::UnexpectedObject {
                                expected_object: "ByteString",
                                actual_object: token_object_name(token),
                            },
                        ) && final(self)@ == s1,
                    }
                },
            },
    {
        if self.0.bytes.len() == 0 {
            return Err(DecodingError::UnexpectedEof);
        }
        let key = match self.0.next_object() {
            Err(e) => return Err(e),
            Ok(None) => return Ok(None),
            Ok(Some(Object::ByteString(key))) => key,
            Ok(Some(other)) => {
                let name = other.name();
                return Err(DecodingError::unexpected_object("ByteString", name));
            },
        };
        if self.0.bytes.len() == 0 {
            return Err(DecodingError::MissingDictionaryValue);
        }
        match self.0.next_object() {
            Err(e) => Err(e),
            Ok(None) => Err(DecodingError::MissingDictionaryValue),
            Ok(Some(value)) => Ok(Some((key, value))),
        }
    }
}

/// The name of the object that a token opens.
pub open spec fn token_object_name(t: TokenModel) -> &'static str {
    match t {
        TokenModel::ByteString(_) => "ByteString",
        TokenModel::Integer(_) => "Integer",
        TokenModel::ListStart => "List",
        TokenModel::DictionaryStart => "Dictionary",
        TokenModel::End => "End",
    }
}

} // verus!
