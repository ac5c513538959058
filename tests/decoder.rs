use bento::{Decoder, LexError};

#[test]
fn decode_integer() {
    assert_eq!(
        Ok(([].as_ref(), b"1".as_ref())),
        Decoder::decode_integer_raw(b"i1e")
    );
}

#[test]
fn decode_negative_integer() {
    assert_eq!(
        Ok(([].as_ref(), b"-1".as_ref())),
        Decoder::decode_integer_raw(b"i-1e")
    );
}

// Negative zero is not a bencode integer.
#[test]
fn decode_negative_zero() {
    assert_eq!(Err(LexError::Invalid), Decoder::decode_integer_raw(b"i-0e"));
}

// A leading zero is not allowed in a bencode integer.
#[test]
fn decode_big_integer() {
    assert_eq!(
        Err(LexError::Invalid),
        Decoder::decode_integer_raw(b"i02398421923842e")
    );
}

#[test]
fn decode_byte_string() {
    assert_eq!(
        Ok(([].as_ref(), b"hello".as_ref())),
        Decoder::decode_byte_string_raw(b"5:hello")
    );
}

#[test]
fn decode_byte_string_invalid_len() {
    // "hello" is 5 bytes long, one fewer than the declared 6.
    assert_eq!(
        Err(LexError::Incomplete { needed: 1 }),
        Decoder::decode_byte_string_raw(b"6:hello")
    );
}
