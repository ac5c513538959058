//! Typed decoding: each type says which trees it accepts and what it makes of them, and reads
//! itself from one object of a cursor.
use vstd::prelude::*;
use vstd::std_specs::hash::{builds_valid_hashers, obeys_key_model};
use vstd::utf8::{decode_utf8, valid_utf8};

use indexmap::IndexMap;
use std::collections::HashMap;
use std::hash::{BuildHasher, Hash};

use crate::decoder::{scan_digits, Decoder};
use crate::error::DecodingError;
use crate::model::{
    is_numeral, lemma_lex_bounds, lemma_parse_value_bounds, lex_byte_string, lex_token,
    numeral_value, parse_items, parse_pairs, parse_value, Failure, Lexed, Tree, MINUS,
};
use crate::object::Object;
use crate::value::{after_items, after_pairs};
use crate::AsString;

verus! {

#[verifier::external_type_specification]
#[verifier::external_body]
#[verifier::reject_recursive_types(K)]
#[verifier::reject_recursive_types(V)]
#[verifier::reject_recursive_types(S)]
pub struct ExIndexMap<K, V, S>(IndexMap<K, V, S>);

/// Relies on IndexMap's `Default`, which makes an empty map.
pub assume_specification<K, V, S: core::default::Default>[ <IndexMap<K, V, S> as core::default::Default>::default ]() -> IndexMap<K, V, S>;

/// Relies on IndexMap::insert, which sets the value of a key.
pub assume_specification<K: Hash + Eq, V, S: BuildHasher>[ IndexMap::<K, V, S>::insert ](
    map: &mut IndexMap<K, V, S>,
    key: K,
    value: V,
) -> Option<V>;

/// The tree an object stands for, and how many bytes of its container's cursor the tree takes
/// (none for a scalar).
pub open spec fn object_tree<'obj, 'de>(o: Object<'obj, 'de>) -> Result<(Tree, nat), Failure> {
    match o {
        Object::ByteString(b) => Ok((Tree::Bytes(b@), 0)),
        Object::Integer(d) => Ok((Tree::Int(d@), 0)),
        Object::List(l) => match parse_items(l@) {
            Ok((items, m)) => Ok((Tree::List(items), m)),
            Err(f) => Err(f),
        },
        Object::Dictionary(d) => match parse_pairs(d@) {
            Ok((pairs, m)) => Ok((Tree::Dict(pairs), m)),
            Err(f) => Err(f),
        },
    }
}

/// A type read from one object.
pub trait FromBencode: Sized {
    /// Whether the tree `t` converts to a value of this type.
    spec fn convertible(t: Tree) -> bool;

    /// Whether `v` is a conversion of the tree `t`.
    spec fn converts_to(t: Tree, v: Self) -> bool;

    /// Converts the object. On success a list or dictionary has been read to its end.
    fn decode<'obj, 'de>(object: Object<'obj, 'de>) -> (r: Result<Self, DecodingError>)
        ensures
            match object_tree(object) {
                Ok((t, _)) => (r is Ok <==> Self::convertible(t)) && (r is Ok ==> Self::converts_to(
                    t,
                    r->Ok_0,
                )),
                Err(_) => r is Err,
            },
            r is Ok ==> match object {
                Object::List(l) => final(l.cursor())@ == l@.subrange(
                    object_tree(object)->Ok_0.1 as int,
                    l@.len() as int,
                ),
                Object::Dictionary(d) => final(d.cursor())@ == d@.subrange(
                    object_tree(object)->Ok_0.1 as int,
                    d@.len() as int,
                ),
                _ => true,
            },
    ;

    /// Converts the first value of a buffer. An empty buffer has no value to convert.
    fn from_bencode(bytes: &[u8]) -> (r: Result<Self, DecodingError>)
        ensures
            bytes@.len() == 0 ==> r == Err::<Self, DecodingError>(DecodingError::UnexpectedEof),
            match parse_value(bytes@) {
                Ok((t, _)) => (r is Ok <==> Self::convertible(t)) && (r is Ok ==> Self::converts_to(
                    t,
                    r->Ok_0,
                )),
                Err(_) => r is Err,
            },
    {
        let mut decoder = Decoder::new(bytes);
        let object = decoder.next_object();
        proof {
            if bytes@.len() > 0 {
                if let Lexed::Token { token, len } = lex_token(bytes@) {
                    if token is ListStart || token is DictionaryStart {
                        assert(bytes@.drop_first() =~= bytes@.subrange(1, bytes@.len() as int));
                    }
                }
            }
        }
        match object {
            Err(e) => Err(e),
            Ok(None) => Err(DecodingError::UnexpectedEof),
            Ok(Some(object)) => Self::decode(object),
        }
    }
}

/// Whether the tree is an integer whose value lies in `lo..=hi`.
pub open spec fn int_convertible(t: Tree, lo: int, hi: int) -> bool {
    t matches Tree::Int(d) && is_numeral(d) && lo <= numeral_value(d) <= hi
}

/// Whether the tree is an integer of value `v`.
pub open spec fn int_converts(t: Tree, v: int) -> bool {
    t matches Tree::Int(d) && is_numeral(d) && v == numeral_value(d)
}

/// Relies on atoi::atoi::<u128>: on a numeral, its value when that fits in u128, else None.
#[verifier::external_body]
fn atoi_u128(text: &[u8]) -> (r: Option<u128>)
    requires
        is_numeral(text@),
    ensures
        match r {
            Some(n) => n as int == numeral_value(text@),
            None => !(0 <= numeral_value(text@) <= u128::MAX),
        },
{
    atoi::atoi::<u128>(text)
}

/// Relies on atoi::atoi::<i128>: on a numeral, its value when that fits in i128, else None.
#[verifier::external_body]
fn atoi_i128(text: &[u8]) -> (r: Option<i128>)
    requires
        is_numeral(text@),
    ensures
        match r {
            Some(n) => n as int == numeral_value(text@),
            None => !(i128::MIN <= numeral_value(text@) <= i128::MAX),
        },
{
    atoi::atoi::<i128>(text)
}

/// Relies on std::str::from_utf8: it succeeds exactly on valid UTF-8, with the characters that
/// the bytes encode.
#[verifier::external_body]
fn utf8_text(bytes: &[u8]) -> (r: Option<&str>)
    ensures
        r is Some <==> valid_utf8(bytes@),
        r is Some ==> r->Some_0@ == decode_utf8(bytes@),
{
    std::str::from_utf8(bytes).ok()
}

/// Whether `d` is a decimal numeral with an optional minus sign.
fn numeral_check(d: &[u8]) -> (r: bool)
    ensures
        r == is_numeral(d@),
{
    let len = d.len();
    if len == 0 {
        return false;
    }
    let start: usize = if d[0] == MINUS {
        1
    } else {
        0
    };
    let end = scan_digits(d, start);
    proof {
        let t = d@.drop_first();
        if end == len {
            assert forall|i: int| start <= i < len implies crate::model::is_digit(#[trigger] d@[i]) by {
                assert(d@.subrange(start as int, len as int)[i - start] == d@[i]);
            }
            if start == 1 {
                assert forall|i: int| 0 <= i < t.len() implies crate::model::is_digit(#[trigger] t[i]) by {
                    assert(t[i] == d@[i + 1]);
                }
            }
        } else {
            assert(!crate::model::is_digit(d@[end as int]));
            if start == 1 {
                assert(t[end - 1] == d@[end as int]);
            }
        }
        if start == 1 {
            assert(!crate::model::is_digit(d@[0]));
        }
    }
    end == len && len > start
}

/// Reads an integer object whose value lies in `0..=max`.
fn decode_unsigned<'obj, 'de>(object: Object<'obj, 'de>, max: u128) -> (r: Result<u128, DecodingError>)
    ensures
        !(object is Integer) ==> r == Err::<u128, DecodingError>(
            DecodingError::UnexpectedObject {
                expected_object: "Integer",
                actual_object: object.spec_name(),
            },
        ),
        r is Ok <==> int_convertible(object_tree(object)->Ok_0.0, 0, max as int) && object is Integer,
        r matches Ok(n) ==> int_converts(object_tree(object)->Ok_0.0, n as int),
{
    match object.try_integer() {
        Err(e) => Err(e),
        Ok(digits) => {
            if !numeral_check(digits) {
                return Err(DecodingError::Unknown);
            }
            match atoi_u128(digits) {
                Some(n) => {
                    if n <= max {
                        Ok(n)
                    } else {
                        Err(DecodingError::Unknown)
                    }
                },
                None => Err(DecodingError::Unknown),
            }
        },
    }
}

/// Reads an integer object whose value lies in `min..=max`.
fn decode_signed<'obj, 'de>(object: Object<'obj, 'de>, min: i128, max: i128) -> (r: Result<
    i128,
    DecodingError,
>)
    ensures
        !(object is Integer) ==> r == Err::<i128, DecodingError>(
            DecodingError::UnexpectedObject {
                expected_object: "Integer",
                actual_object: object.spec_name(),
            },
        ),
        r is Ok <==> int_convertible(object_tree(object)->Ok_0.0, min as int, max as int)
            && object is Integer,
        r matches Ok(n) ==> int_converts(object_tree(object)->Ok_0.0, n as int),
{
    match object.try_integer() {
        Err(e) => Err(e),
        Ok(digits) => {
            if !numeral_check(digits) {
                return Err(DecodingError::Unknown);
            }
            match atoi_i128(digits) {
                Some(n) => {
                    if min <= n && n <= max {
                        Ok(n)
                    } else {
                        Err(DecodingError::Unknown)
                    }
                },
                None => Err(DecodingError::Unknown),
            }
        },
    }
}

impl FromBencode for u8 {
    open spec fn convertible(t: Tree) -> bool {
        int_convertible(t, 0, u8::MAX as int)
    }

    open spec fn converts_to(t: Tree, v: u8) -> bool {
        int_converts(t, v as int)
    }

    /// Anything but an integer object is refused as the wrong shape.
    fn decode<'obj, 'de>(object: Object<'obj, 'de>) -> (r: Result<u8, DecodingError>)
        ensures
            !(object is Integer) ==> r == Err::<u8, DecodingError>(
                DecodingError::UnexpectedObject {
                    expected_object: "Integer",
                    actual_object: object.spec_name(),
                },
            ),
    {
        match decode_unsigned(object, u8::MAX as u128) {
            Ok(n) => Ok(n as u8),
            Err(e) => Err(e),
        }
    }
}

impl FromBencode for u16 {
    open spec fn convertible(t: Tree) -> bool {
        int_convertible(t, 0, u16::MAX as int)
    }

    open spec fn converts_to(t: Tree, v: u16) -> bool {
        int_converts(t, v as int)
    }

    /// Anything but an integer object is refused as the wrong shape.
    fn decode<'obj, 'de>(object: Object<'obj, 'de>) -> (r: Result<u16, DecodingError>)
        ensures
            !(object is Integer) ==> r == Err::<u16, DecodingError>(
                DecodingError::UnexpectedObject {
                    expected_object: "Integer",
                    actual_object: object.spec_name(),
                },
            ),
    {
        match decode_unsigned(object, u16::MAX as u128) {
            Ok(n) => Ok(n as u16),
            Err(e) => Err(e),
        }
    }
}

impl FromBencode for u32 {
    open spec fn convertible(t: Tree) -> bool {
        int_convertible(t, 0, u32::MAX as int)
    }

    open spec fn converts_to(t: Tree, v: u32) -> bool {
        int_converts(t, v as int)
    }

    /// Anything but an integer object is refused as the wrong shape.
    fn decode<'obj, 'de>(object: Object<'obj, 'de>) -> (r: Result<u32, DecodingError>)
        ensures
            !(object is Integer) ==> r == Err::<u32, DecodingError>(
                DecodingError::UnexpectedObject {
                    expected_object: "Integer",
                    actual_object: object.spec_name(),
                },
            ),
    {
        match decode_unsigned(object, u32::MAX as u128) {
            Ok(n) => Ok(n as u32),
            Err(e) => Err(e),
        }
    }
}

impl FromBencode for u64 {
    open spec fn convertible(t: Tree) -> bool {
        int_convertible(t, 0, u64::MAX as int)
    }

    open spec fn converts_to(t: Tree, v: u64) -> bool {
        int_converts(t, v as int)
    }

    /// Anything but an integer object is refused as the wrong shape.
    fn decode<'obj, 'de>(object: Object<'obj, 'de>) -> (r: Result<u64, DecodingError>)
        ensures
            !(object is Integer) ==> r == Err::<u64, DecodingError>(
                DecodingError::UnexpectedObject {
                    expected_object: "Integer",
                    actual_object: object.spec_name(),
                },
            ),
    {
        match decode_unsigned(object, u64::MAX as u128) {
            Ok(n) => Ok(n as u64),
            Err(e) => Err(e),
        }
    }
}

impl FromBencode for u128 {
    open spec fn convertible(t: Tree) -> bool {
        int_convertible(t, 0, u128::MAX as int)
    }

    open spec fn converts_to(t: Tree, v: u128) -> bool {
        int_converts(t, v as int)
    }

    /// Anything but an integer object is refused as the wrong shape.
    fn decode<'obj, 'de>(object: Object<'obj, 'de>) -> (r: Result<u128, DecodingError>)
        ensures
            !(object is Integer) ==> r == Err::<u128, DecodingError>(
                DecodingError::UnexpectedObject {
                    expected_object: "Integer",
                    actual_object: object.spec_name(),
                },
            ),
    {
        match decode_unsigned(object, u128::MAX as u128) {
            Ok(n) => Ok(n as u128),
            Err(e) => Err(e),
        }
    }
}

impl FromBencode for usize {
    open spec fn convertible(t: Tree) -> bool {
        int_convertible(t, 0, usize::MAX as int)
    }

    open spec fn converts_to(t: Tree, v: usize) -> bool {
        int_converts(t, v as int)
    }

    /// Anything but an integer object is refused as the wrong shape.
    fn decode<'obj, 'de>(object: Object<'obj, 'de>) -> (r: Result<usize, DecodingError>)
        ensures
            !(object is Integer) ==> r == Err::<usize, DecodingError>(
                DecodingError::UnexpectedObject {
                    expected_object: "Integer",
                    actual_object: object.spec_name(),
                },
            ),
    {
        match decode_unsigned(object, usize::MAX as u128) {
            Ok(n) => Ok(n as usize),
            Err(e) => Err(e),
        }
    }
}

impl FromBencode for i8 {
    open spec fn convertible(t: Tree) -> bool {
        int_convertible(t, i8::MIN as int, i8::MAX as int)
    }

    open spec fn converts_to(t: Tree, v: i8) -> bool {
        int_converts(t, v as int)
    }

    /// Anything but an integer object is refused as the wrong shape.
    fn decode<'obj, 'de>(object: Object<'obj, 'de>) -> (r: Result<i8, DecodingError>)
        ensures
            !(object is Integer) ==> r == Err::<i8, DecodingError>(
                DecodingError::UnexpectedObject {
                    expected_object: "Integer",
                    actual_object: object.spec_name(),
                },
            ),
    {
        match decode_signed(object, i8::MIN as i128, i8::MAX as i128) {
            Ok(n) => Ok(n as i8),
            Err(e) => Err(e),
        }
    }
}

impl FromBencode for i16 {
    open spec fn convertible(t: Tree) -> bool {
        int_convertible(t, i16::MIN as int, i16::MAX as int)
    }

    open spec fn converts_to(t: Tree, v: i16) -> bool {
        int_converts(t, v as int)
    }

    /// Anything but an integer object is refused as the wrong shape.
    fn decode<'obj, 'de>(object: Object<'obj, 'de>) -> (r: Result<i16, DecodingError>)
        ensures
            !(object is Integer) ==> r == Err::<i16, DecodingError>(
                DecodingError::UnexpectedObject {
                    expected_object: "Integer",
                    actual_object: object.spec_name(),
                },
            ),
    {
        match decode_signed(object, i16::MIN as i128, i16::MAX as i128) {
            Ok(n) => Ok(n as i16),
            Err(e) => Err(e),
        }
    }
}

impl FromBencode for i32 {
    open spec fn convertible(t: Tree) -> bool {
        int_convertible(t, i32::MIN as int, i32::MAX as int)
    }

    open spec fn converts_to(t: Tree, v: i32) -> bool {
        int_converts(t, v as int)
    }

    /// Anything but an integer object is refused as the wrong shape.
    fn decode<'obj, 'de>(object: Object<'obj, 'de>) -> (r: Result<i32, DecodingError>)
        ensures
            !(object is Integer) ==> r == Err::<i32, DecodingError>(
                DecodingError::UnexpectedObject {
                    expected_object: "Integer",
                    actual_object: object.spec_name(),
                },
            ),
    {
        match decode_signed(object, i32::MIN as i128, i32::MAX as i128) {
            Ok(n) => Ok(n as i32),
            Err(e) => Err(e),
        }
    }
}

impl FromBencode for i64 {
    open spec fn convertible(t: Tree) -> bool {
        int_convertible(t, i64::MIN as int, i64::MAX as int)
    }

    open spec fn converts_to(t: Tree, v: i64) -> bool {
        int_converts(t, v as int)
    }

    /// Anything but an integer object is refused as the wrong shape.
    fn decode<'obj, 'de>(object: Object<'obj, 'de>) -> (r: Result<i64, DecodingError>)
        ensures
            !(object is Integer) ==> r == Err::<i64, DecodingError>(
                DecodingError::UnexpectedObject {
                    expected_object: "Integer",
                    actual_object: object.spec_name(),
                },
            ),
    {
        match decode_signed(object, i64::MIN as i128, i64::MAX as i128) {
            Ok(n) => Ok(n as i64),
            Err(e) => Err(e),
        }
    }
}

impl FromBencode for i128 {
    open spec fn convertible(t: Tree) -> bool {
        int_convertible(t, i128::MIN as int, i128::MAX as int)
    }

    open spec fn converts_to(t: Tree, v: i128) -> bool {
        int_converts(t, v as int)
    }

    /// Anything but an integer object is refused as the wrong shape.
    fn decode<'obj, 'de>(object: Object<'obj, 'de>) -> (r: Result<i128, DecodingError>)
        ensures
            !(object is Integer) ==> r == Err::<i128, DecodingError>(
                DecodingError::UnexpectedObject {
                    expected_object: "Integer",
                    actual_object: object.spec_name(),
                },
            ),
    {
        match decode_signed(object, i128::MIN as i128, i128::MAX as i128) {
            Ok(n) => Ok(n as i128),
            Err(e) => Err(e),
        }
    }
}

impl FromBencode for isize {
    open spec fn convertible(t: Tree) -> bool {
        int_convertible(t, isize::MIN as int, isize::MAX as int)
    }

    open spec fn converts_to(t: Tree, v: isize) -> bool {
        int_converts(t, v as int)
    }

    /// Anything but an integer object is refused as the wrong shape.
    fn decode<'obj, 'de>(object: Object<'obj, 'de>) -> (r: Result<isize, DecodingError>)
        ensures
            !(object is Integer) ==> r == Err::<isize, DecodingError>(
                DecodingError::UnexpectedObject {
                    expected_object: "Integer",
                    actual_object: object.spec_name(),
                },
            ),
    {
        match decode_signed(object, isize::MIN as i128, isize::MAX as i128) {
            Ok(n) => Ok(n as isize),
            Err(e) => Err(e),
        }
    }
}

impl FromBencode for String {
    open spec fn convertible(t: Tree) -> bool {
        t matches Tree::Bytes(b) && valid_utf8(b)
    }

    open spec fn converts_to(t: Tree, v: String) -> bool {
        t matches Tree::Bytes(b) && valid_utf8(b) && v@ == decode_utf8(b)
    }

    fn decode<'obj, 'de>(object: Object<'obj, 'de>) -> (r: Result<String, DecodingError>) {
        match object.try_byte_string() {
            Err(e) => Err(e),
            Ok(bytes) => match utf8_text(bytes) {
                Some(text) => Ok(text.to_owned()),
                None => Err(DecodingError::Unknown),
            },
        }
    }
}

impl FromBencode for AsString {
    open spec fn convertible(t: Tree) -> bool {
        t is Bytes
    }

    open spec fn converts_to(t: Tree, v: AsString) -> bool {
        t matches Tree::Bytes(b) && v.0@ == b
    }

    fn decode<'obj, 'de>(object: Object<'obj, 'de>) -> (r: Result<AsString, DecodingError>) {
        match object.try_byte_string() {
            Err(e) => Err(e),
            Ok(bytes) => {
                let mut v: Vec<u8> = Vec::new();
                let mut i: usize = 0;
                while i < bytes.len()
                    invariant
                        i <= bytes@.len(),
                        v@ == bytes@.subrange(0, i as int),
                    decreases bytes@.len() - i,
                {
                    v.push(bytes[i]);
                    i = i + 1;
                    assert(v@ =~= bytes@.subrange(0, i as int));
                }
                assert(bytes@.subrange(0, bytes@.len() as int) =~= bytes@);
                Ok(AsString(v))
            },
        }
    }
}

proof fn lemma_list_not_convertible<T: FromBencode>(all: Seq<Tree>, k: int)
    requires
        0 <= k < all.len(),
        !T::convertible(all[k]),
    ensures
        !<Vec<T> as FromBencode>::convertible(Tree::List(all)),
{
    let t = Tree::List(all);
    if <Vec<T> as FromBencode>::convertible(t) {
        assert(t matches Tree::List(items) && items == all);
        assert(T::convertible(all[k]));
    }
}

impl<T: FromBencode> FromBencode for Vec<T> {
    open spec fn convertible(t: Tree) -> bool {
        t matches Tree::List(items) && forall|i: int|
            0 <= i < items.len() ==> T::convertible(#[trigger] items[i])
    }

    open spec fn converts_to(t: Tree, v: Vec<T>) -> bool {
        t matches Tree::List(items) && v@.len() == items.len() && forall|i: int|
            0 <= i < items.len() ==> T::converts_to(items[i], #[trigger] v@[i])
    }

    fn decode<'obj, 'de>(object: Object<'obj, 'de>) -> (r: Result<Vec<T>, DecodingError>) {
        let ghost whole = object;
        let mut list = match object.try_list() {
            Ok(l) => l,
            Err(e) => return Err(e),
        };
        let ghost l0 = list@;
        let mut results: Vec<T> = Vec::new();
        let ghost mut done: Seq<Tree> = Seq::empty();
        let ghost mut consumed: nat = 0;
        assert(l0.subrange(0, l0.len() as int) =~= l0);
        assert(after_items(done, parse_items(l0), 0) =~= parse_items(l0)) by {
            if let Ok((vs, m)) = parse_items(l0) {
                assert(done + vs =~= vs);
            }
        };
        loop
            invariant
                whole == object,
                whole matches Object::List(l) && l@ == l0
                    && final(l.cursor())@ == final(list.cursor())@,
                consumed <= l0.len(),
                list@ == l0.subrange(consumed as int, l0.len() as int),
                parse_items(l0) == after_items(done, parse_items(list@), consumed),
                results@.len() == done.len(),
                forall|i: int| 0 <= i < done.len() ==> T::converts_to(done[i], #[trigger] results@[i]),
                forall|i: int| 0 <= i < done.len() ==> T::convertible(#[trigger] done[i]),
            decreases list@.len(),
        {
            let ghost cur = list@;
            proof {
                lemma_parse_value_bounds(cur);
                if cur.len() > 0 {
                    assert(cur.drop_first() =~= cur.subrange(1, cur.len() as int));
                }
            }
            match list.next_object() {
                Err(e) => {
                    return Err(e);
                },
                Ok(None) => {
                    assert(done + Seq::<Tree>::empty() =~= done);
                    let _ = list.as_bytes();
                    return Ok(results);
                },
                Ok(Some(obj)) => {
                    let ghost t = parse_value(cur)->Ok_0.0;
                    let ghost n = parse_value(cur)->Ok_0.1;
                    let ghost element = obj;
                    match T::decode(obj) {
                        Err(e) => {
                            proof {
                                if let Ok((all, _)) = parse_items(l0) {
                                    let tail = parse_items(cur.subrange(n as int, cur.len() as int));
                                    let vs = tail->Ok_0.0;
                                    assert(all =~= done + (seq![t] + vs));
                                    assert(all[done.len() as int] == t);
                                    assert(object_tree(element)->Ok_0.0 == t);
                                    lemma_list_not_convertible::<T>(all, done.len() as int);
                                }
                            }
                            return Err(e);
                        },
                        Ok(x) => {
                            proof {
                                let m = object_tree(element)->Ok_0.1;
                                match element {
                                    Object::List(l2) => {
                                        assert(l2@.subrange(m as int, l2@.len() as int) =~= cur.subrange(
                                            n as int,
                                            cur.len() as int,
                                        ));
                                    },
                                    Object::Dictionary(d2) => {
                                        assert(d2@.subrange(m as int, d2@.len() as int) =~= cur.subrange(
                                            n as int,
                                            cur.len() as int,
                                        ));
                                    },
                                    _ => {},
                                }
                                assert(list@ == cur.subrange(n as int, cur.len() as int));
                                let tail = parse_items(cur.subrange(n as int, cur.len() as int));
                                if let Ok((vs, m)) = tail {
                                    assert(done + (seq![t] + vs) =~= done.push(t) + vs);
                                }
                                assert(cur.subrange(n as int, cur.len() as int) =~= l0.subrange(
                                    (consumed + n) as int,
                                    l0.len() as int,
                                ));
                            }
                            results.push(x);
                            proof {
                                done = done.push(t);
                                consumed = consumed + n;
                            }
                        },
                    }
                },
            }
        }
    }
}

/// The map that inserting each key with its value, in order, gives.
pub open spec fn insert_all<K, V>(ks: Seq<K>, vs: Seq<V>) -> Map<K, V>
    decreases ks.len(),
{
    if ks.len() == 0 || vs.len() == 0 {
        Map::empty()
    } else {
        insert_all(ks.drop_last(), vs.drop_last()).insert(ks.last(), vs.last())
    }
}

/// Whether every key and every value of a dictionary's pairs converts.
pub open spec fn pairs_convertible<K: FromBencode, V: FromBencode>(ps: Seq<(Seq<u8>, Tree)>) -> bool {
    forall|i: int|
        0 <= i < ps.len() ==> K::convertible(Tree::Bytes((#[trigger] ps[i]).0)) && V::convertible(
            ps[i].1,
        )
}

/// Whether `ks` and `vs` are conversions of the keys and values of the pairs.
pub open spec fn pairs_convert_to<K: FromBencode, V: FromBencode>(
    ps: Seq<(Seq<u8>, Tree)>,
    ks: Seq<K>,
    vs: Seq<V>,
) -> bool {
    &&& ks.len() == ps.len()
    &&& vs.len() == ps.len()
    &&& forall|i: int|
        0 <= i < ps.len() ==> K::converts_to(Tree::Bytes((#[trigger] ps[i]).0), ks[i])
            && V::converts_to(ps[i].1, vs[i])
}

proof fn lemma_pairs_not_convertible<K: FromBencode, V: FromBencode>(
    all: Seq<(Seq<u8>, Tree)>,
    k: int,
)
    requires
        0 <= k < all.len(),
        !K::convertible(Tree::Bytes(all[k].0)) || !V::convertible(all[k].1),
    ensures
        !pairs_convertible::<K, V>(all),
{
}

proof fn lemma_map_converts<K: FromBencode + Hash + Eq, V: FromBencode, H: BuildHasher + Default>(
    ps: Seq<(Seq<u8>, Tree)>,
    ks: Seq<K>,
    vs: Seq<V>,
    m: HashMap<K, V, H>,
)
    requires
        pairs_convert_to::<K, V>(ps, ks, vs),
        obeys_key_model::<K>() && builds_valid_hashers::<H>() ==> m@ == insert_all(ks, vs),
    ensures
        <HashMap<K, V, H> as FromBencode>::converts_to(Tree::Dict(ps), m),
{
    let t = Tree::Dict(ps);
    assert(t matches Tree::Dict(x) && x == ps);
}

impl<K: FromBencode + Hash + Eq, V: FromBencode, H: BuildHasher + Default> FromBencode for HashMap<
    K,
    V,
    H,
> {
    open spec fn convertible(t: Tree) -> bool {
        t matches Tree::Dict(ps) && pairs_convertible::<K, V>(ps)
    }

    /// The map holds each converted key with its converted value, a later pair overwriting an
    /// earlier one with an equal key.
    open spec fn converts_to(t: Tree, v: HashMap<K, V, H>) -> bool {
        t matches Tree::Dict(ps) && exists|ks: Seq<K>, vs: Seq<V>|
            #[trigger] pairs_convert_to::<K, V>(ps, ks, vs) && (obeys_key_model::<K>()
                && builds_valid_hashers::<H>() ==> v@ == insert_all(ks, vs))
    }

    #[verifier::rlimit(100)]
    fn decode<'obj, 'de>(object: Object<'obj, 'de>) -> (r: Result<HashMap<K, V, H>, DecodingError>) {
        let ghost whole = object;
        let mut dict = match object.try_dictionary() {
            Ok(d) => d,
            Err(e) => return Err(e),
        };
        let ghost d0 = dict@;
        let mut result: HashMap<K, V, H> = HashMap::default();
        let ghost mut done: Seq<(Seq<u8>, Tree)> = Seq::empty();
        let ghost mut ks: Seq<K> = Seq::empty();
        let ghost mut vs: Seq<V> = Seq::empty();
        let ghost mut consumed: nat = 0;
        assert(d0.subrange(0, d0.len() as int) =~= d0);
        assert(after_pairs(done, parse_pairs(d0), 0) =~= parse_pairs(d0)) by {
            if let Ok((ps, m)) = parse_pairs(d0) {
                assert(done + ps =~= ps);
            }
        };
        assert(insert_all(ks, vs) =~= Map::<K, V>::empty());
        loop
            invariant
                whole == object,
                whole matches Object::Dictionary(d) && d@ == d0
                    && final(d.cursor())@ == final(dict.cursor())@,
                consumed <= d0.len(),
                dict@ == d0.subrange(consumed as int, d0.len() as int),
                parse_pairs(d0) == after_pairs(done, parse_pairs(dict@), consumed),
                pairs_convert_to::<K, V>(done, ks, vs),
                pairs_convertible::<K, V>(done),
                obeys_key_model::<K>() && builds_valid_hashers::<H>() ==> result@ == insert_all(ks, vs),
            decreases dict@.len(),
        {
            let ghost cur = dict@;
            proof {
                lemma_lex_bounds(cur);
                if let Lexed::Token { len: n, .. } = lex_byte_string(cur) {
                    lemma_parse_value_bounds(cur.subrange(n as int, cur.len() as int));
                }
            }
            match dict.next_pair() {
                Err(e) => {
                    return Err(e);
                },
                Ok(None) => {
                    assert(done + Seq::<(Seq<u8>, Tree)>::empty() =~= done);
                    proof {
                        lemma_map_converts::<K, V, H>(done, ks, vs, result);
                    }
                    let _ = dict.as_bytes();
                    return Ok(result);
                },
                Ok(Some((key, value))) => {
                    let ghost n = lex_byte_string(cur)->len;
                    let ghost s1 = cur.subrange(n as int, cur.len() as int);
                    let ghost t = parse_value(s1)->Ok_0.0;
                    let ghost m = parse_value(s1)->Ok_0.1;
                    let ghost p = (key@, t);
                    let ghost element = value;
                    proof {
                        if s1.len() > 0 {
                            assert(s1.drop_first() =~= s1.subrange(1, s1.len() as int));
                        }
                    }
                    let k = match K::decode(Object::ByteString(key)) {
                        Ok(k) => k,
                        Err(e) => {
                            proof {
                                if let Ok((all, _)) = parse_pairs(d0) {
                                    let tail = parse_pairs(s1.subrange(m as int, s1.len() as int));
                                    let rest = tail->Ok_0.0;
                                    assert(all =~= done + (seq![p] + rest));
                                    assert(all[done.len() as int] == p);
                                    lemma_pairs_not_convertible::<K, V>(all, done.len() as int);
                                }
                            }
                            return Err(e);
                        },
                    };
                    let v = match V::decode(value) {
                        Ok(v) => v,
                        Err(e) => {
                            proof {
                                if let Ok((all, _)) = parse_pairs(d0) {
                                    let tail = parse_pairs(s1.subrange(m as int, s1.len() as int));
                                    let rest = tail->Ok_0.0;
                                    assert(all =~= done + (seq![p] + rest));
                                    assert(all[done.len() as int] == p);
                                    assert(object_tree(element)->Ok_0.0 == t);
                                    lemma_pairs_not_convertible::<K, V>(all, done.len() as int);
                                }
                            }
                            return Err(e);
                        },
                    };
                    proof {
                        let mm = object_tree(element)->Ok_0.1;
                        match element {
                            Object::List(l2) => {
                                assert(l2@.subrange(mm as int, l2@.len() as int) =~= s1.subrange(
                                    m as int,
                                    s1.len() as int,
                                ));
                            },
                            Object::Dictionary(d2) => {
                                assert(d2@.subrange(mm as int, d2@.len() as int) =~= s1.subrange(
                                    m as int,
                                    s1.len() as int,
                                ));
                            },
                            _ => {},
                        }
                        assert(dict@ == s1.subrange(m as int, s1.len() as int));
                        let tail = parse_pairs(dict@);
                        if let Ok((ps, q)) = tail {
                            assert(done + (seq![p] + ps) =~= done.push(p) + ps);
                        }
                        assert(s1.subrange(m as int, s1.len() as int) =~= d0.subrange(
                            (consumed + n + m) as int,
                            d0.len() as int,
                        ));
                    }
                    let ghost kk = k;
                    let ghost vv = v;
                    result.insert(k, v);
                    proof {
                        let ks2 = ks.push(kk);
                        let vs2 = vs.push(vv);
                        assert(ks2.drop_last() =~= ks);
                        assert(vs2.drop_last() =~= vs);
                        let done2 = done.push(p);
                        assert forall|i: int| 0 <= i < done2.len() implies K::converts_to(
                            Tree::Bytes((#[trigger] done2[i]).0),
                            ks2[i],
                        ) && V::converts_to(done2[i].1, vs2[i]) by {
                            if i < done.len() {
                                assert(done2[i] == done[i]);
                            }
                        }
                        assert forall|i: int| 0 <= i < done2.len() implies K::convertible(
                            Tree::Bytes((#[trigger] done2[i]).0),
                        ) && V::convertible(done2[i].1) by {
                            if i < done.len() {
                                assert(done2[i] == done[i]);
                            }
                        }
                        done = done2;
                        ks = ks2;
                        vs = vs2;
                        consumed = consumed + n + m;
                    }
                },
            }
        }
    }
}

proof fn lemma_index_map_converts<K: FromBencode + Hash + Eq, V: FromBencode, H: BuildHasher + Default>(
    ps: Seq<(Seq<u8>, Tree)>,
    m: IndexMap<K, V, H>,
)
    requires
        pairs_convertible::<K, V>(ps),
    ensures
        <IndexMap<K, V, H> as FromBencode>::converts_to(Tree::Dict(ps), m),
{
    let t = Tree::Dict(ps);
    assert(t matches Tree::Dict(x) && x == ps);
}

impl<K: FromBencode + Hash + Eq, V: FromBencode, H: BuildHasher + Default> FromBencode for IndexMap<
    K,
    V,
    H,
> {
    open spec fn convertible(t: Tree) -> bool {
        t matches Tree::Dict(ps) && pairs_convertible::<K, V>(ps)
    }

    /// Every key and value converts; the contents of the outside map have no model here.
    open spec fn converts_to(t: Tree, v: IndexMap<K, V, H>) -> bool {
        t matches Tree::Dict(ps) && pairs_convertible::<K, V>(ps)
    }

    #[verifier::rlimit(100)]
    fn decode<'obj, 'de>(object: Object<'obj, 'de>) -> (r: Result<IndexMap<K, V, H>, DecodingError>) {
        let ghost whole = object;
        let mut dict = match object.try_dictionary() {
            Ok(d) => d,
            Err(e) => return Err(e),
        };
        let ghost d0 = dict@;
        let mut result: IndexMap<K, V, H> = IndexMap::default();
        let ghost mut done: Seq<(Seq<u8>, Tree)> = Seq::empty();
        let ghost mut consumed: nat = 0;
        assert(d0.subrange(0, d0.len() as int) =~= d0);
        assert(after_pairs(done, parse_pairs(d0), 0) =~= parse_pairs(d0)) by {
            if let Ok((ps, m)) = parse_pairs(d0) {
                assert(done + ps =~= ps);
            }
        };
        loop
            invariant
                whole == object,
                whole matches Object::Dictionary(d) && d@ == d0
                    && final(d.cursor())@ == final(dict.cursor())@,
                consumed <= d0.len(),
                dict@ == d0.subrange(consumed as int, d0.len() as int),
                parse_pairs(d0) == after_pairs(done, parse_pairs(dict@), consumed),
                pairs_convertible::<K, V>(done),
            decreases dict@.len(),
        {
            let ghost cur = dict@;
            proof {
                lemma_lex_bounds(cur);
                if let Lexed::Token { len: n, .. } = lex_byte_string(cur) {
                    lemma_parse_value_bounds(cur.subrange(n as int, cur.len() as int));
                }
            }
            match dict.next_pair() {
                Err(e) => {
                    return Err(e);
                },
                Ok(None) => {
                    assert(done + Seq::<(Seq<u8>, Tree)>::empty() =~= done);
                    proof {
                        lemma_index_map_converts::<K, V, H>(done, result);
                    }
                    let _ = dict.as_bytes();
                    return Ok(result);
                },
                Ok(Some((key, value))) => {
                    let ghost n = lex_byte_string(cur)->len;
                    let ghost s1 = cur.subrange(n as int, cur.len() as int);
                    let ghost t = parse_value(s1)->Ok_0.0;
                    let ghost m = parse_value(s1)->Ok_0.1;
                    let ghost p = (key@, t);
                    let ghost element = value;
                    proof {
                        if s1.len() > 0 {
                            assert(s1.drop_first() =~= s1.subrange(1, s1.len() as int));
                        }
                    }
                    let k = match K::decode(Object::ByteString(key)) {
                        Ok(k) => k,
                        Err(e) => {
                            proof {
                                if let Ok((all, _)) = parse_pairs(d0) {
                                    let tail = parse_pairs(s1.subrange(m as int, s1.len() as int));
                                    let rest = tail->Ok_0.0;
                                    assert(all =~= done + (seq![p] + rest));
                                    assert(all[done.len() as int] == p);
                                    lemma_pairs_not_convertible::<K, V>(all, done.len() as int);
                                }
                            }
                            return Err(e);
                        },
                    };
                    let v = match V::decode(value) {
                        Ok(v) => v,
                        Err(e) => {
                            proof {
                                if let Ok((all, _)) = parse_pairs(d0) {
                                    let tail = parse_pairs(s1.subrange(m as int, s1.len() as int));
                                    let rest = tail->Ok_0.0;
                                    assert(all =~= done + (seq![p] + rest));
                                    assert(all[done.len() as int] == p);
                                    assert(object_tree(element)->Ok_0.0 == t);
                                    lemma_pairs_not_convertible::<K, V>(all, done.len() as int);
                                }
                            }
                            return Err(e);
                        },
                    };
                    proof {
                        let mm = object_tree(element)->Ok_0.1;
                        match element {
                            Object::List(l2) => {
                                assert(l2@.subrange(mm as int, l2@.len() as int) =~= s1.subrange(
                                    m as int,
                                    s1.len() as int,
                                ));
                            },
                            Object::Dictionary(d2) => {
                                assert(d2@.subrange(mm as int, d2@.len() as int) =~= s1.subrange(
                                    m as int,
                                    s1.len() as int,
                                ));
                            },
                            _ => {},
                        }
                        assert(dict@ == s1.subrange(m as int, s1.len() as int));
                        let tail = parse_pairs(dict@);
                        if let Ok((ps, q)) = tail {
                            assert(done + (seq![p] + ps) =~= done.push(p) + ps);
                        }
                        assert(s1.subrange(m as int, s1.len() as int) =~= d0.subrange(
                            (consumed + n + m) as int,
                            d0.len() as int,
                        ));
                    }
                    result.insert(k, v);
                    proof {
                        let done2 = done.push(p);
                        assert forall|i: int| 0 <= i < done2.len() implies K::convertible(
                            Tree::Bytes((#[trigger] done2[i]).0),
                        ) && V::convertible(done2[i].1) by {
                            if i < done.len() {
                                assert(done2[i] == done[i]);
                            }
                        }
                        done = done2;
                        consumed = consumed + n + m;
                    }
                },
            }
        }
    }
}

impl<T: FromBencode> FromBencode for Option<T> {
    open spec fn convertible(t: Tree) -> bool {
        T::convertible(t)
    }

    open spec fn converts_to(t: Tree, v: Option<T>) -> bool {
        v matches Some(x) && T::converts_to(t, x)
    }

    fn decode<'obj, 'de>(object: Object<'obj, 'de>) -> (r: Result<Option<T>, DecodingError>) {
        match T::decode(object) {
            Ok(v) => Ok(Some(v)),
            Err(e) => Err(e),
        }
    }
}

} // verus!
