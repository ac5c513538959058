use bento::{DecodingError, FromBencode, ToBencode, UrlText};
use indexmap::IndexMap;
use std::collections::HashMap;

#[test]
fn hash_map_conversion() {
    let m = HashMap::<String, u64>::from_bencode(b"d1:ai1e1:bi2e1:ai3ee").unwrap();
    assert_eq!(2, m.len());
    assert_eq!(Some(&3), m.get("a"));
    assert_eq!(Some(&2), m.get("b"));
    assert_eq!(
        Err(DecodingError::UnexpectedObject {
            expected_object: "Integer",
            actual_object: "ByteString",
        }),
        HashMap::<String, u8>::from_bencode(b"d1:ai1e1:b3:xyze")
    );
    assert_eq!(
        Err(DecodingError::UnexpectedObject {
            expected_object: "Dictionary",
            actual_object: "List",
        }),
        HashMap::<String, u8>::from_bencode(b"li1ee")
    );
    assert_eq!(Err(DecodingError::UnexpectedEof), HashMap::<String, u8>::from_bencode(b"d1:ai1e"));
    assert_eq!(
        Err(DecodingError::MissingDictionaryValue),
        HashMap::<String, u8>::from_bencode(b"d1:ae")
    );
    assert_eq!(Err(DecodingError::Unknown), HashMap::<String, u8>::from_bencode(b"d2:\xff\xfei1ee"));
}

#[test]
fn nested_map_conversion() {
    let m = HashMap::<String, Vec<HashMap<String, i32>>>::from_bencode(b"d1:xld1:yi-5eedeee").unwrap();
    let list = m.get("x").unwrap();
    assert_eq!(2, list.len());
    assert_eq!(Some(&-5), list[0].get("y"));
    assert!(list[1].is_empty());
}

#[test]
fn index_map_conversion() {
    let m = IndexMap::<String, u8>::from_bencode(b"d1:bi1e1:ai2e1:bi3ee").unwrap();
    let entries: Vec<(&String, &u8)> = m.iter().collect();
    assert_eq!(2, entries.len());
    assert_eq!("b", entries[0].0.as_str());
    assert_eq!(3, *entries[0].1);
    assert_eq!("a", entries[1].0.as_str());
    assert_eq!(
        Err(DecodingError::UnexpectedObject {
            expected_object: "Dictionary",
            actual_object: "Integer",
        }),
        IndexMap::<String, u8>::from_bencode(b"i1e")
    );
    assert_eq!(Err(DecodingError::Unknown), IndexMap::<String, u8>::from_bencode(b"d1:ai999ee"));
}

#[test]
fn url_conversion() {
    let u = UrlText::from_bencode(b"18:http://example.com").unwrap();
    assert_eq!("http://example.com/", u.as_str());
    assert_eq!(b"19:http://example.com/".to_vec(), u.to_bencode());
    assert_eq!(Err(DecodingError::Unknown), UrlText::from_bencode(b"3:abc").map(|u| u.as_str().to_string()));
    assert!(UrlText::parse("not a url").is_none());
    assert_eq!("https://a.b/c?d", UrlText::parse("HTTPS://A.B/c?d").unwrap().as_str());
}
