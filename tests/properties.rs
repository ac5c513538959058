use bento::value::decode;
use bento::{
    AsString, Decoder, DecodingError, DictionaryEncoder, Encoder, FromBencode, LexError, Object,
    ToBencode, Value, ValueMap,
};

fn bytes_of(v: &Value) -> Vec<u8> {
    match v {
        Value::ByteString(b) => b.to_vec(),
        _ => panic!("not a byte string"),
    }
}

fn digits_of(v: &Value) -> Vec<u8> {
    match v {
        Value::Integer(d) => d.to_vec(),
        _ => panic!("not an integer"),
    }
}

#[test]
fn integer_grammar_rejects_bad_forms() {
    for bad in [
        &b"i-0e"[..],
        &b"i00e"[..],
        &b"i01e"[..],
        &b"i-e"[..],
        &b"ie"[..],
        &b"i1"[..],
        &b"i1ae"[..],
        &b"i--1e"[..],
    ] {
        assert_eq!(Err(LexError::Invalid), Decoder::decode_integer_raw(bad));
        assert_eq!(Err(DecodingError::Unknown), decode(bad).map(|_| ()));
    }
}

#[test]
fn integer_grammar_accepts_good_forms() {
    let big = b"i12345678901234567890e";
    assert_eq!(
        Ok((&b""[..], &b"12345678901234567890"[..])),
        Decoder::decode_integer_raw(big)
    );
    assert_eq!(Ok((&b""[..], &b"0"[..])), Decoder::decode_integer_raw(b"i0e"));
    assert_eq!(Ok((&b"rest"[..], &b"-1"[..])), Decoder::decode_integer_raw(b"i-1erest"));
    assert_eq!(digits_of(&decode(big).unwrap()), b"12345678901234567890".to_vec());
}

#[test]
fn byte_string_exactness() {
    assert_eq!(bytes_of(&decode(b"5:hello").unwrap()), b"hello".to_vec());
    assert_eq!(Err(LexError::Incomplete { needed: 1 }), Decoder::decode_byte_string_raw(b"6:hello"));
    assert_eq!(Err(DecodingError::UnexpectedEof), decode(b"6:hello").map(|_| ()));
    assert_eq!(Ok((&b"xyz"[..], &b""[..])), Decoder::decode_byte_string_raw(b"0:xyz"));
    assert_eq!(Err(LexError::Invalid), Decoder::decode_byte_string_raw(b"5hello"));
    assert_eq!(Err(LexError::Invalid), Decoder::decode_byte_string_raw(b":hello"));
    assert_eq!(
        Err(LexError::Invalid),
        Decoder::decode_byte_string_raw(b"99999999999999999999999:x")
    );
}

#[test]
fn container_termination() {
    match decode(b"le").unwrap() {
        Value::List(items) => assert!(items.is_empty()),
        _ => panic!("expected a list"),
    }
    match decode(b"de").unwrap() {
        Value::Dictionary(map) => assert_eq!(0, map.len()),
        _ => panic!("expected a dictionary"),
    }
    match decode(b"l4:spam4:eggse").unwrap() {
        Value::List(items) => {
            assert_eq!(2, items.len());
            assert_eq!(b"spam".to_vec(), bytes_of(&items[0]));
            assert_eq!(b"eggs".to_vec(), bytes_of(&items[1]));
        }
        _ => panic!("expected a list"),
    }
    match decode(b"d3:cow3:moo4:spam4:eggse").unwrap() {
        Value::Dictionary(map) => {
            assert_eq!(2, map.len());
            assert_eq!(b"moo".to_vec(), bytes_of(map.get(b"cow").unwrap()));
            assert_eq!(b"eggs".to_vec(), bytes_of(map.get(b"spam").unwrap()));
            let (k, _) = map.get_index(0).unwrap();
            assert_eq!(b"cow", k);
            assert!(map.get(b"pig").is_none());
        }
        _ => panic!("expected a dictionary"),
    }
    assert_eq!(Err(DecodingError::Unknown), decode(b"l4:spam").map(|_| ()));
    assert_eq!(Err(DecodingError::Unknown), decode(b"d3:cowe").map(|_| ()));
    assert_eq!(Err(DecodingError::Unknown), decode(b"di1ei2ee").map(|_| ()));
}

#[test]
fn duplicate_keys_keep_last_value_in_first_place() {
    match decode(b"d1:ai1e1:bi2e1:ai3ee").unwrap() {
        Value::Dictionary(map) => {
            assert_eq!(2, map.len());
            let (k0, v0) = map.get_index(0).unwrap();
            assert_eq!(b"a", k0);
            assert_eq!(b"3".to_vec(), digits_of(v0));
            let (k1, _) = map.get_index(1).unwrap();
            assert_eq!(b"b", k1);
            assert!(map.get_index(2).is_none());
        }
        _ => panic!("expected a dictionary"),
    }
}

#[test]
fn typed_decode_shape_mismatch() {
    assert_eq!(
        Err(DecodingError::UnexpectedObject {
            expected_object: "Integer",
            actual_object: "ByteString",
        }),
        u64::from_bencode(b"5:hello")
    );
    assert_eq!(
        Err(DecodingError::UnexpectedObject {
            expected_object: "List",
            actual_object: "Integer",
        }),
        Vec::<u64>::from_bencode(b"i3e")
    );
    assert_eq!(
        Err(DecodingError::UnexpectedObject {
            expected_object: "ByteString",
            actual_object: "List",
        }),
        String::from_bencode(b"le")
    );
}

#[test]
fn full_consumption() {
    assert_eq!(Err(DecodingError::Unknown), decode(b"i1ei2e").map(|_| ()));
    let mut decoder = Decoder::new(b"i1ei2e");
    match decoder.next_object() {
        Ok(Some(Object::Integer(d))) => assert_eq!(b"1", d),
        _ => panic!("expected the first integer"),
    }
    match decoder.next_object() {
        Ok(Some(Object::Integer(d))) => assert_eq!(b"2", d),
        _ => panic!("expected the second integer"),
    }
    assert!(matches!(decoder.next_object(), Ok(None)));
}

#[test]
fn canonical_key_order() {
    let mut dict = DictionaryEncoder::new();
    dict.emit_pair(b"b", &1u8);
    dict.emit_pair(b"a", &2u8);
    let mut encoder = Encoder::new();
    encoder.emit_dictionary(dict);
    assert_eq!(b"d1:ai2e1:bi1ee".to_vec(), encoder.into_bytes());

    let mut dict = DictionaryEncoder::new();
    dict.emit_pair(b"zz", &"x");
    dict.emit_pair(b"z", &"y");
    dict.emit_pair(b"a", &"w");
    dict.emit_pair(b"z", &"v");
    let mut encoder = Encoder::new();
    encoder.emit_dictionary(dict);
    assert_eq!(b"d1:a1:w1:z1:v2:zz1:xe".to_vec(), encoder.into_bytes());
}

#[test]
fn value_encoding_sorts_keys() {
    let input = b"d4:spam4:eggs3:cow3:mooe";
    let value = decode(input).unwrap();
    let out = value.to_bencode();
    assert_eq!(b"d3:cow3:moo4:spam4:eggse".to_vec(), out);
}

#[test]
fn round_trip_value() {
    let input: &[u8] = b"d4:infod6:lengthi-42e4:name5:a.txte4:listli0el1:xeee";
    let value = decode(input).unwrap();
    assert_eq!(input.to_vec(), value.to_bencode());
    let again = value.to_bencode();
    let reparsed = decode(&again).unwrap();
    assert_eq!(again, reparsed.to_bencode());
}

#[test]
fn round_trip_typed() {
    for n in [0u64, 1, 42, u64::MAX] {
        assert_eq!(Ok(n), u64::from_bencode(&n.to_bencode()));
    }
    for n in [i64::MIN, -1, 0, 7, i64::MAX] {
        assert_eq!(Ok(n), i64::from_bencode(&n.to_bencode()));
    }
    assert_eq!(b"i-170141183460469231731687303715884105728e".to_vec(), i128::MIN.to_bencode());
    assert_eq!(b"i340282366920938463463374607431768211455e".to_vec(), u128::MAX.to_bencode());
    let s = String::from("h\u{e9}llo");
    assert_eq!(b"6:h\xc3\xa9llo".to_vec(), s.to_bencode());
    assert_eq!(Ok(s.clone()), String::from_bencode(&s.to_bencode()));
    let v: Vec<u32> = vec![3, 1, 2];
    assert_eq!(b"li3ei1ei2ee".to_vec(), v.to_bencode());
    assert_eq!(Ok(v.clone()), Vec::<u32>::from_bencode(&v.to_bencode()));
    let deque: std::collections::VecDeque<i8> = vec![-1i8, 2].into_iter().collect();
    assert_eq!(b"li-1ei2ee".to_vec(), deque.to_bencode());
    let slice: &[u16] = &[7, 8];
    assert_eq!(b"li7ei8ee".to_vec(), slice.to_bencode());
    assert_eq!(b"4:spam".to_vec(), "spam".to_bencode());
    let raw = AsString(vec![0, 255, 10]);
    assert_eq!(b"3:\x00\xff\n".to_vec(), raw.to_bencode());
    assert_eq!(Ok(raw), AsString::from_bencode(b"3:\x00\xff\n"));
}

#[test]
fn integer_conversions() {
    assert_eq!(Ok(255u8), u8::from_bencode(b"i255e"));
    assert_eq!(Err(DecodingError::Unknown), u8::from_bencode(b"i256e"));
    assert_eq!(Ok(-128i8), i8::from_bencode(b"i-128e"));
    assert_eq!(Err(DecodingError::Unknown), i8::from_bencode(b"i-129e"));
    assert_eq!(Err(DecodingError::Unknown), u64::from_bencode(b"i-1e"));
    assert_eq!(Ok(12345678901234567890u64), u64::from_bencode(b"i12345678901234567890e"));
    assert_eq!(Err(DecodingError::Unknown), i64::from_bencode(b"i12345678901234567890e"));
    assert_eq!(
        Err(DecodingError::Unknown),
        u128::from_bencode(b"i340282366920938463463374607431768211456e")
    );
    assert_eq!(Ok(Some(5u16)), Option::<u16>::from_bencode(b"i5e"));
    assert_eq!(Ok(usize::MAX), usize::from_bencode(&usize::MAX.to_bencode()));
    assert_eq!(Ok(isize::MIN), isize::from_bencode(&isize::MIN.to_bencode()));
    assert_eq!(Ok(-300i16), i16::from_bencode(b"i-300e"));
    assert_eq!(Ok(70000i32), i32::from_bencode(b"i70000e"));
    assert_eq!(Ok(65535u16), u16::from_bencode(b"i65535e"));
    assert_eq!(Ok(4294967295u32), u32::from_bencode(b"i4294967295e"));
}

#[test]
fn nested_lists_and_strings() {
    assert_eq!(Ok(vec![vec![1u8, 2], vec![]]), Vec::<Vec<u8>>::from_bencode(b"lli1ei2eelee"));
    assert_eq!(
        Ok(vec![String::from("spam"), String::from("eggs")]),
        Vec::<String>::from_bencode(b"l4:spam4:eggse")
    );
    assert_eq!(Err(DecodingError::Unknown), String::from_bencode(b"2:\xff\xfe"));
    assert_eq!(
        Err(DecodingError::UnexpectedObject {
            expected_object: "Integer",
            actual_object: "ByteString",
        }),
        Vec::<u8>::from_bencode(b"li1e4:spame")
    );
    assert_eq!(Err(DecodingError::Unknown), Vec::<u8>::from_bencode(b"li1ei300ee"));
    assert_eq!(Err(DecodingError::UnexpectedEof), Vec::<u8>::from_bencode(b"li1e"));
    assert_eq!(Err(DecodingError::UnexpectedEof), u8::from_bencode(b""));
}

#[test]
fn dictionary_handle() {
    let mut decoder = Decoder::new(b"d3:cowi1e4:spamli2eee");
    let object = decoder.next_object().unwrap().unwrap();
    assert_eq!("Dictionary", object.name());
    assert!(object.is_dictionary());
    let mut dict = object.try_dictionary().ok().unwrap();
    match dict.next_pair() {
        Ok(Some((key, Object::Integer(d)))) => {
            assert_eq!(b"cow", key);
            assert_eq!(b"1", d);
        }
        _ => panic!("expected cow"),
    }
    match dict.next_pair() {
        Ok(Some((key, value))) => {
            assert_eq!(b"spam", key);
            assert_eq!(Ok(vec![2u8]), Vec::<u8>::decode(value));
        }
        _ => panic!("expected spam"),
    }
    assert!(matches!(dict.next_pair(), Ok(None)));
    assert!(matches!(decoder.next_object(), Ok(None)));
}

#[test]
fn dictionary_errors() {
    let mut decoder = Decoder::new(b"d3:cowe");
    let object = decoder.next_object().unwrap().unwrap();
    let mut dict = object.dictionary().unwrap();
    assert!(matches!(dict.next_pair(), Err(DecodingError::MissingDictionaryValue)));

    let mut decoder = Decoder::new(b"di1ei2ee");
    let mut dict = decoder.next_object().unwrap().unwrap().dictionary().unwrap();
    assert!(matches!(
        dict.next_pair(),
        Err(DecodingError::UnexpectedObject { expected_object: "ByteString", actual_object: "Integer" })
    ));

    let mut decoder = Decoder::new(b"d3:cow");
    let mut dict = decoder.next_object().unwrap().unwrap().dictionary().unwrap();
    assert!(matches!(dict.next_pair(), Err(DecodingError::MissingDictionaryValue)));

    let mut decoder = Decoder::new(b"d");
    let mut dict = decoder.next_object().unwrap().unwrap().dictionary().unwrap();
    assert!(matches!(dict.next_pair(), Err(DecodingError::UnexpectedEof)));
}

#[test]
fn list_handle() {
    let mut decoder = Decoder::new(b"li1e3:abce5:after");
    let object = decoder.next_object().unwrap().unwrap();
    assert!(object.is_list());
    assert!(!object.is_integer());
    let mut list = object.list().unwrap();
    assert!(matches!(list.next_object(), Ok(Some(Object::Integer(b"1")))));
    assert!(matches!(list.next_object(), Ok(Some(Object::ByteString(b"abc")))));
    assert!(matches!(list.next_object(), Ok(None)));
    assert_eq!(b"5:after", list.as_bytes());
    match decoder.next_object() {
        Ok(Some(o)) => assert_eq!(Some(&b"after"[..]), o.byte_string()),
        _ => panic!("expected the byte string after the list"),
    }

    let mut decoder = Decoder::new(b"l");
    let mut list = decoder.next_object().unwrap().unwrap().try_list().ok().unwrap();
    assert!(matches!(list.next_object(), Err(DecodingError::UnexpectedEof)));
}

#[test]
fn object_accessors() {
    let mut decoder = Decoder::new(b"i7e");
    let object = decoder.next_object().unwrap().unwrap();
    assert_eq!("Integer", object.name());
    assert!(!object.is_byte_string());
    assert_eq!(Some(&b"7"[..]), object.integer());
    let object = Object::ByteString(b"x");
    assert_eq!(Ok(&b"x"[..]), object.try_byte_string());
    assert_eq!(None, Object::ByteString(b"x").integer());
    assert_eq!(
        Err(DecodingError::UnexpectedObject { expected_object: "Integer", actual_object: "ByteString" }),
        Object::ByteString(b"x").try_integer()
    );
    assert!(Object::Integer(b"1").try_list().is_err());
    assert!(Object::Integer(b"1").try_dictionary().is_err());
    assert!(Object::Integer(b"1").list().is_none());
    assert_eq!(Err(DecodingError::Unknown), u8::decode(Object::Integer(b"1x")));
    assert_eq!(Ok(7u8), u8::decode(Object::Integer(b"007")));
}

#[test]
fn top_level_errors() {
    assert_eq!(Err(DecodingError::UnexpectedEof), u64::from_bencode(b"e"));
    assert_eq!(Err(DecodingError::Unknown), u64::from_bencode(b"x"));
    assert_eq!(Err(DecodingError::Unknown), decode(b"").map(|_| ()));
    let mut decoder = Decoder::new(b"");
    assert!(matches!(decoder.next_object(), Ok(None)));
    let mut decoder = Decoder::new(b"?");
    assert!(matches!(decoder.next_object(), Err(DecodingError::Unknown)));
    let mut decoder = Decoder::new(b"3:ab");
    assert!(matches!(decoder.next_object(), Err(DecodingError::UnexpectedEof)));
}

#[test]
fn error_constructors() {
    assert_eq!(
        DecodingError::MissingField { field: String::from("name") },
        DecodingError::missing_field(String::from("name"))
    );
    assert_eq!(
        DecodingError::UnexpectedField { field: String::from("x") },
        DecodingError::unexpected_field(String::from("x"))
    );
    assert_eq!(
        DecodingError::UnexpectedObject { expected_object: "List", actual_object: "Integer" },
        DecodingError::unexpected_object("List", "Integer")
    );
}

#[test]
fn value_map_building() {
    let mut map = ValueMap::new();
    map.insert(b"b", Value::Integer(b"1"));
    map.insert(b"a", Value::ByteString(b"x"));
    map.insert(b"b", Value::Integer(b"2"));
    assert_eq!(2, map.len());
    let (k, v) = map.get_index(0).unwrap();
    assert_eq!(b"b", k);
    assert_eq!(b"2".to_vec(), digits_of(v));
    let value = Value::Dictionary(map);
    assert_eq!(b"d1:a1:x1:bi2ee".to_vec(), value.to_bencode());
}

#[test]
fn tree_entry_points() {
    assert!(matches!(Decoder::decode_any(b"i5eX"), Ok((b"X", Value::Integer(b"5")))));
    assert!(matches!(Decoder::decode_list(b"lei1e"), Ok((b"i1e", Value::List(_)))));
    assert!(matches!(Decoder::decode_dictionaries(b"dee"), Ok((b"e", Value::Dictionary(_)))));
    assert!(matches!(Decoder::decode_byte_string(b"1:ab"), Ok((b"b", Value::ByteString(b"a")))));
    assert!(Decoder::decode_list(b"i1e").is_err());
    assert!(Decoder::decode(b"i1e").is_ok());
    assert!(matches!(bento::value::decode_integer(b"i3e"), Ok((b"", Value::Integer(b"3")))));
    assert!(matches!(bento::value::decode_lists(b"le"), Ok((b"", Value::List(_)))));
}
