//! The eager form of a document: a tree built in one pass over the whole buffer.
use vstd::prelude::*;

use crate::decoder::Decoder;
use crate::error::{failure_error, DecodingError};
use crate::model::{
    collect, dedup, dedup_entries, dedup_items, lemma_lex_bounds, lemma_parse_value_bounds,
    lex_byte_string, lex_integer, parse_dict, parse_document, parse_items, parse_list, parse_pairs,
    parse_value, upsert, Failure, Lexed, TokenModel, Tree, DICT_START, END, INT_START, LIST_START,
    NINE, ZERO,
};
use crate::LexError;

verus! {

/// A decoded document whose scalars borrow from the input.
#[derive(Debug)]
pub enum Value<'a> {
    ByteString(&'a [u8]),
    Integer(&'a [u8]),
    List(Vec<Value<'a>>),
    Dictionary(ValueMap<'a>),
}

/// The entries of a dictionary in a value tree, in the order their keys first appeared.
#[verifier::external_body]
#[derive(Debug)]
pub struct ValueMap<'a> {
    map: indexmap::IndexMap<&'a [u8], Value<'a>>,
}

/// What a dictionary of a value tree holds, in its order.
pub uninterp spec fn map_entries(m: ValueMap) -> Seq<(Seq<u8>, Tree)>;

impl<'a> Value<'a> {
    pub open spec fn tree(&self) -> Tree
        decreases self,
    {
        match self {
            Value::ByteString(b) => Tree::Bytes(b@),
            Value::Integer(d) => Tree::Int(d@),
            Value::List(items) => Tree::List(trees(items@)),
            Value::Dictionary(m) => Tree::Dict(map_entries(*m)),
        }
    }
}

/// The trees of a sequence of values.
pub open spec fn trees<'a>(vs: Seq<Value<'a>>) -> Seq<Tree>
    decreases vs,
{
    if vs.len() == 0 {
        Seq::empty()
    } else {
        trees(vs.drop_last()).push(vs.last().tree())
    }
}

pub proof fn lemma_trees<'a>(vs: Seq<Value<'a>>)
    ensures
        trees(vs).len() == vs.len(),
        forall|i: int| 0 <= i < vs.len() ==> #[trigger] trees(vs)[i] == vs[i].tree(),
    decreases vs.len(),
{
    if vs.len() > 0 {
        lemma_trees(vs.drop_last());
    }
}

impl<'a> ValueMap<'a> {
    /// Relies on IndexMap::new: a new map holds no entry.
    #[verifier::external_body]
    fn empty() -> (r: Self)
        ensures
            map_entries(r) == Seq::<(Seq<u8>, Tree)>::empty(),
    {
        ValueMap { map: indexmap::IndexMap::new() }
    }

    /// Relies on IndexMap::insert: a key already present keeps its position and takes the new
    /// value; a new key is appended last.
    #[verifier::external_body]
    fn insert_entry(&mut self, key: &'a [u8], value: Value<'a>)
        ensures
            map_entries(*final(self)) == upsert(map_entries(*old(self)), key@, value.tree()),
    {
        self.map.insert(key, value);
    }

    /// Relies on IndexMap::len: the number of entries.
    #[verifier::external_body]
    fn count(&self) -> (r: usize)
        ensures
            r == map_entries(*self).len(),
    {
        self.map.len()
    }

    /// Relies on IndexMap::get_index: the entry at a position in the map's order.
    #[verifier::external_body]
    fn entry_at(&self, i: usize) -> (r: Option<(&'a [u8], &Value<'a>)>)
        ensures
            i < map_entries(*self).len() ==> r is Some && r.unwrap().0@ == map_entries(*self)[i as int].0
                && r.unwrap().1.tree() == map_entries(*self)[i as int].1,
            i >= map_entries(*self).len() ==> r is None,
    {
        self.map.get_index(i).map(|(k, v)| (*k, v))
    }

    pub fn new() -> (r: Self)
        ensures
            map_entries(r) == Seq::<(Seq<u8>, Tree)>::empty(),
    {
        Self::empty()
    }

    /// Sets the value of `key`; a key already present keeps its position.
    pub fn insert(&mut self, key: &'a [u8], value: Value<'a>)
        ensures
            map_entries(*final(self)) == upsert(map_entries(*old(self)), key@, value.tree()),
    {
        self.insert_entry(key, value)
    }

    pub fn len(&self) -> (r: usize)
        ensures
            r == map_entries(*self).len(),
    {
        self.count()
    }

    /// The entry at position `i`.
    pub fn get_index(&self, i: usize) -> (r: Option<(&'a [u8], &Value<'a>)>)
        ensures
            i < map_entries(*self).len() ==> r is Some && r.unwrap().0@ == map_entries(*self)[i as int].0
                && r.unwrap().1.tree() == map_entries(*self)[i as int].1,
            i >= map_entries(*self).len() ==> r is None,
    {
        self.entry_at(i)
    }

    /// The value of `key`, if present.
    pub fn get(&self, key: &[u8]) -> (r: Option<&Value<'a>>)
        ensures
            match r {
                Some(v) => exists|i: int|
                    0 <= i < map_entries(*self).len() && (#[trigger] map_entries(*self)[i]).0 == key@
                        && map_entries(*self)[i].1 == v.tree(),
                None => forall|i: int|
                    0 <= i < map_entries(*self).len() ==> (#[trigger] map_entries(*self)[i]).0
                        != key@,
            },
    {
        let n = self.count();
        let mut i: usize = 0;
        while i < n
            invariant
                n == map_entries(*self).len(),
                i <= n,
                forall|j: int| 0 <= j < i ==> (#[trigger] map_entries(*self)[j]).0 != key@,
            decreases n - i,
        {
            match self.entry_at(i) {
                Some((k, v)) => {
                    if bytes_equal(k, key) {
                        return Some(v);
                    }
                },
                None => {},
            }
            i = i + 1;
        }
        None
    }
}

/// Whether two byte strings are equal.
pub fn bytes_equal(a: &[u8], b: &[u8]) -> (r: bool)
    ensures
        r == (a@ == b@),
{
    if a.len() != b.len() {
        return false;
    }
    let mut i: usize = 0;
    while i < a.len()
        invariant
            a@.len() == b@.len(),
            i <= a@.len(),
            forall|j: int| 0 <= j < i ==> a@[j] == b@[j],
        decreases a@.len() - i,
    {
        if a[i] != b[i] {
            return false;
        }
        i = i + 1;
    }
    assert(a@ =~= b@);
    true
}

/// `r` is what reading a value off the front of `s` gives, when `p` is that value's grammar; a
/// value tree applies the rule for repeated keys.
pub open spec fn is_tree_result<'a>(
    p: Result<(Tree, nat), Failure>,
    s: Seq<u8>,
    r: Result<(&'a [u8], Value<'a>), LexError>,
) -> bool {
    match p {
        Ok((t, n)) => r matches Ok((rest, v)) && v.tree() == dedup(t) && n <= s.len() && rest@ == s.subrange(
            n as int,
            s.len() as int,
        ),
        Err(f) => r matches Err(e) && e@ == f,
    }
}

/// The tree of a scalar token.
pub open spec fn scalar_tree(l: Lexed) -> Result<(Tree, nat), Failure> {
    match l {
        Lexed::Token { token: TokenModel::ByteString(b), len } => Ok((Tree::Bytes(b), len)),
        Lexed::Token { token: TokenModel::Integer(d), len } => Ok((Tree::Int(d), len)),
        Lexed::Token { .. } => Err(Failure::Invalid),
        Lexed::Failed(f) => Err(f),
    }
}

/// Values already read, followed by what the rest of a list gives.
pub open spec fn after_items(
    done: Seq<Tree>,
    r: Result<(Seq<Tree>, nat), Failure>,
    consumed: nat,
) -> Result<(Seq<Tree>, nat), Failure> {
    match r {
        Ok((vs, m)) => Ok((done + vs, consumed + m)),
        Err(f) => Err(f),
    }
}

/// Pairs already read, followed by what the rest of a dictionary gives.
pub open spec fn after_pairs(
    done: Seq<(Seq<u8>, Tree)>,
    r: Result<(Seq<(Seq<u8>, Tree)>, nat), Failure>,
    consumed: nat,
) -> Result<(Seq<(Seq<u8>, Tree)>, nat), Failure> {
    match r {
        Ok((ps, m)) => Ok((done + ps, consumed + m)),
        Err(f) => Err(f),
    }
}

/// Reads a whole document; bytes left after its one value are an error.
pub fn decode(bytes: &[u8]) -> (r: Result<Value, DecodingError>)
    ensures
        match parse_document(bytes@) {
            Ok(t) => r matches Ok(v) && v.tree() == dedup(t),
            Err(f) => r == Err::<Value, DecodingError>(failure_error(f)),
        },
{
    match decode_any(bytes) {
        Ok((rest, value)) => {
            if rest.len() == 0 {
                Ok(value)
            } else {
                Err(DecodingError::Unknown)
            }
        },
        Err(LexError::Incomplete { .. }) => Err(DecodingError::UnexpectedEof),
        Err(LexError::Invalid) => Err(DecodingError::Unknown),
    }
}

/// Reads the value at the front of `bytes`, returning the rest and the value.
pub fn decode_any(bytes: &[u8]) -> (r: Result<(&[u8], Value), LexError>)
    ensures
        is_tree_result(parse_value(bytes@), bytes@, r),
    decreases bytes@.len(), 1int,
{
    if bytes.len() == 0 {
        return Err(LexError::Invalid);
    }
    let b = bytes[0];
    if ZERO <= b && b <= NINE {
        decode_byte_string(bytes)
    } else if b == INT_START {
        decode_integer(bytes)
    } else if b == LIST_START {
        decode_lists(bytes)
    } else if b == DICT_START {
        decode_dictionaries(bytes)
    } else {
        Err(LexError::Invalid)
    }
}

/// Reads the byte string at the front of `bytes`, returning the rest and its contents.
pub fn decode_byte_string_raw(bytes: &[u8]) -> (r: Result<(&[u8], &[u8]), LexError>)
    ensures
        crate::decoder::is_raw_result(lex_byte_string(bytes@), bytes@, r),
        lex_byte_string(bytes@) matches Lexed::Token { token, .. } ==> token is ByteString,
{
    Decoder::decode_byte_string_raw(bytes)
}

/// Reads the byte string at the front of `bytes` as a value.
pub fn decode_byte_string(bytes: &[u8]) -> (r: Result<(&[u8], Value), LexError>)
    ensures
        is_tree_result(scalar_tree(lex_byte_string(bytes@)), bytes@, r),
{
    match Decoder::decode_byte_string_raw(bytes) {
        Ok((rest, b)) => Ok((rest, Value::ByteString(b))),
        Err(e) => Err(e),
    }
}

/// Reads the integer at the front of `bytes` as a value.
pub fn decode_integer(bytes: &[u8]) -> (r: Result<(&[u8], Value), LexError>)
    ensures
        is_tree_result(scalar_tree(lex_integer(bytes@)), bytes@, r),
{
    match Decoder::decode_integer_raw(bytes) {
        Ok((rest, d)) => Ok((rest, Value::Integer(d))),
        Err(e) => Err(e),
    }
}

/// Reads the list at the front of `bytes`.
pub fn decode_lists(bytes: &[u8]) -> (r: Result<(&[u8], Value), LexError>)
    ensures
        is_tree_result(parse_list(bytes@), bytes@, r),
    decreases bytes@.len(), 0int,
{
    if bytes.len() == 0 || bytes[0] != LIST_START {
        return Err(LexError::Invalid);
    }
    let ghost s0 = bytes@.drop_first();
    let mut rest = vstd::slice::slice_subrange(bytes, 1, bytes.len());
    let mut items: Vec<Value> = Vec::new();
    let ghost mut done: Seq<Tree> = Seq::empty();
    let ghost mut consumed: nat = 0;
    assert(rest@ =~= s0.subrange(0, s0.len() as int));
    assert(after_items(done, parse_items(s0), 0) =~= parse_items(s0)) by {
        if let Ok((vs, m)) = parse_items(s0) {
            assert(done + vs =~= vs);
        }
    };
    loop
        invariant
            bytes@.len() > 0,
            bytes@[0] == LIST_START,
            s0 == bytes@.drop_first(),
            consumed <= s0.len(),
            rest@ == s0.subrange(consumed as int, s0.len() as int),
            parse_items(s0) == after_items(done, parse_items(rest@), consumed),
            trees(items@) == dedup_items(done),
        decreases rest@.len(),
    {
        if rest.len() > 0 && rest[0] == END {
            let after = vstd::slice::slice_subrange(rest, 1, rest.len());
            proof {
                assert(done + Seq::<Tree>::empty() =~= done);
                assert(after@ =~= bytes@.subrange((consumed + 2) as int, bytes@.len() as int));
            }
            return Ok((after, Value::List(items)));
        }
        proof {
            lemma_parse_value_bounds(rest@);
        }
        match decode_any(rest) {
            Err(e) => {
                return Err(e);
            },
            Ok((next, v)) => {
                let ghost t = parse_value(rest@)->Ok_0.0;
                let ghost n = parse_value(rest@)->Ok_0.1;
                let ghost tail = parse_items(next@);
                proof {
                    match tail {
                        Ok((vs, m)) => {
                            assert(done + (seq![t] + vs) =~= done.push(t) + vs);
                        },
                        Err(_) => {},
                    }
                }
                let ghost prev = items@;
                items.push(v);
                proof {
                    assert(items@.drop_last() =~= prev);
                    assert(done.push(t).drop_last() =~= done);
                    done = done.push(t);
                    assert(trees(items@) == dedup_items(done));
                    assert(next@ =~= s0.subrange((consumed + n) as int, s0.len() as int));
                    consumed = consumed + n;
                }
                rest = next;
            },
        }
    }
}

/// Reads the dictionary at the front of `bytes`. A later duplicate key overwrites the value of
/// an earlier one and keeps its position.
pub fn decode_dictionaries(bytes: &[u8]) -> (r: Result<(&[u8], Value), LexError>)
    ensures
        is_tree_result(parse_dict(bytes@), bytes@, r),
    decreases bytes@.len(), 0int,
{
    if bytes.len() == 0 || bytes[0] != DICT_START {
        return Err(LexError::Invalid);
    }
    let ghost s0 = bytes@.drop_first();
    let mut rest = vstd::slice::slice_subrange(bytes, 1, bytes.len());
    let mut map = ValueMap::new();
    let ghost mut pairs: Seq<(Seq<u8>, Tree)> = Seq::empty();
    let ghost mut consumed: nat = 0;
    assert(rest@ =~= s0.subrange(0, s0.len() as int));
    loop
        invariant
            bytes@.len() > 0,
            bytes@[0] == DICT_START,
            s0 == bytes@.drop_first(),
            consumed <= s0.len(),
            rest@ == s0.subrange(consumed as int, s0.len() as int),
            parse_pairs(s0) == after_pairs(pairs, parse_pairs(rest@), consumed),
            map_entries(map) == collect(dedup_entries(pairs)),
        decreases rest@.len(),
    {
        if rest.len() > 0 && rest[0] == END {
            let after = vstd::slice::slice_subrange(rest, 1, rest.len());
            proof {
                assert(pairs + Seq::<(Seq<u8>, Tree)>::empty() =~= pairs);
                assert(after@ =~= bytes@.subrange((consumed + 2) as int, bytes@.len() as int));
            }
            return Ok((after, Value::Dictionary(map)));
        }
        proof {
            lemma_lex_bounds(rest@);
        }
        match Decoder::decode_byte_string_raw(rest) {
            Err(e) => {
                return Err(e);
            },
            Ok((after_key, key)) => {
                let ghost n = lex_byte_string(rest@)->len;
                proof {
                    lemma_parse_value_bounds(after_key@);
                }
                match decode_any(after_key) {
                    Err(e) => {
                        return Err(e);
                    },
                    Ok((next, v)) => {
                        let ghost m = parse_value(after_key@)->Ok_0.1;
                        let ghost p = (key@, parse_value(after_key@)->Ok_0.0);
                        let ghost tail = parse_pairs(next@);
                        proof {
                            assert(after_key@.subrange(m as int, after_key@.len() as int) =~= next@);
                            match tail {
                                Ok((ps, q)) => {
                                    assert(pairs + (seq![p] + ps) =~= pairs.push(p) + ps);
                                },
                                Err(_) => {},
                            }
                        }
                        map.insert(key, v);
                        proof {
                            assert(pairs.push(p).drop_last() =~= pairs);
                            assert(dedup_entries(pairs.push(p)).drop_last() =~= dedup_entries(pairs));
                            pairs = pairs.push(p);
                            assert(next@ =~= s0.subrange((consumed + n + m) as int, s0.len() as int));
                            consumed = consumed + n + m;
                        }
                        rest = next;
                    },
                }
            },
        }
    }
}

/// A type read from a value tree rather than from a cursor.
pub trait Bencode: Sized {
    fn from_value(value: Value) -> Result<Self, DecodingError>;

    /// Reads a whole document and converts its tree.
    fn bdecode(bytes: &[u8]) -> Result<Self, DecodingError> {
        match decode(bytes) {
            Ok(value) => Self::from_value(value),
            Err(e) => Err(e),
        }
    }
}

} // verus!
