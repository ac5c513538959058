//! The encodings of std types, of the library's own types, and of value trees.
use vstd::prelude::*;
use vstd::utf8::encode_utf8;

use crate::encoder::{bencodings, DictionaryEncoder, Encoder, ToBencode};
use crate::model::{
    arrange, byte_string_encoding, canonical, canonical_entries, canonical_items, concat,
    encode_items, encode_tree, encoded_entries, height, integer_encoding, lemma_arrange_encoded,
    lemma_canonical_entries, lemma_entries_height, lemma_items_height, lemma_pairs_encoding_encoded,
    list_encoding, Tree, END, INT_START, LIST_START,
};
use crate::value::{lemma_trees, map_entries, trees, Value};
use crate::AsString;

use std::collections::VecDeque;

verus! {

impl<'a, E: ToBencode> ToBencode for &'a E {
    open spec fn bencoded(&self) -> Seq<u8> {
        (**self).bencoded()
    }

    fn encode(&self, encoder: &mut Encoder) {
        (**self).encode(encoder)
    }
}

impl<'a> ToBencode for &'a str {
    open spec fn bencoded(&self) -> Seq<u8> {
        byte_string_encoding(encode_utf8((**self)@))
    }

    fn encode(&self, encoder: &mut Encoder) {
        encoder.emit_byte_string(self)
    }
}

impl ToBencode for String {
    open spec fn bencoded(&self) -> Seq<u8> {
        byte_string_encoding(encode_utf8(self@))
    }

    fn encode(&self, encoder: &mut Encoder) {
        encoder.emit_byte_string(self.as_str())
    }
}

impl ToBencode for AsString {
    open spec fn bencoded(&self) -> Seq<u8> {
        byte_string_encoding(self.0@)
    }

    fn encode(&self, encoder: &mut Encoder) {
        encoder.emit_byte_array(self.0.as_slice())
    }
}

impl<T: ToBencode> ToBencode for Vec<T> {
    open spec fn bencoded(&self) -> Seq<u8> {
        list_encoding(bencodings(self@))
    }

    fn encode(&self, encoder: &mut Encoder) {
        encoder.emit_list(self.as_slice())
    }
}

impl<T: ToBencode> ToBencode for VecDeque<T> {
    open spec fn bencoded(&self) -> Seq<u8> {
        list_encoding(bencodings(self@))
    }

    fn encode(&self, encoder: &mut Encoder) {
        encoder.push(LIST_START);
        let mut i: usize = 0;
        while i < self.len()
            invariant
                i <= self@.len(),
                encoder@ == old(encoder)@.push(LIST_START) + concat(
                    bencodings(self@.subrange(0, i as int)),
                ),
            decreases self@.len() - i,
        {
            self[i].encode(encoder);
            proof {
                let parts = bencodings(self@.subrange(0, i + 1));
                assert(parts.drop_last() =~= bencodings(self@.subrange(0, i as int)));
                assert(parts.last() == self@[i as int].bencoded());
            }
            i = i + 1;
            assert(encoder@ =~= old(encoder)@.push(LIST_START) + concat(
                bencodings(self@.subrange(0, i as int)),
            ));
        }
        encoder.push(END);
        assert(self@.subrange(0, self@.len() as int) =~= self@);
        assert(encoder@ =~= old(encoder)@ + list_encoding(bencodings(self@)));
    }
}

impl<'a, T: ToBencode> ToBencode for &'a [T] {
    open spec fn bencoded(&self) -> Seq<u8> {
        list_encoding(bencodings((**self)@))
    }

    fn encode(&self, encoder: &mut Encoder) {
        encoder.emit_list(self)
    }
}

impl ToBencode for u8 {
    open spec fn bencoded(&self) -> Seq<u8> {
        integer_encoding(*self as int)
    }

    fn encode(&self, encoder: &mut Encoder) {
        encoder.emit_unsigned(*self as u128)
    }
}

impl ToBencode for u16 {
    open spec fn bencoded(&self) -> Seq<u8> {
        integer_encoding(*self as int)
    }

    fn encode(&self, encoder: &mut Encoder) {
        encoder.emit_unsigned(*self as u128)
    }
}

impl ToBencode for u32 {
    open spec fn bencoded(&self) -> Seq<u8> {
        integer_encoding(*self as int)
    }

    fn encode(&self, encoder: &mut Encoder) {
        encoder.emit_unsigned(*self as u128)
    }
}

impl ToBencode for u64 {
    open spec fn bencoded(&self) -> Seq<u8> {
        integer_encoding(*self as int)
    }

    fn encode(&self, encoder: &mut Encoder) {
        encoder.emit_unsigned(*self as u128)
    }
}

impl ToBencode for u128 {
    open spec fn bencoded(&self) -> Seq<u8> {
        integer_encoding(*self as int)
    }

    fn encode(&self, encoder: &mut Encoder) {
        encoder.emit_unsigned(*self as u128)
    }
}

impl ToBencode for usize {
    open spec fn bencoded(&self) -> Seq<u8> {
        integer_encoding(*self as int)
    }

    fn encode(&self, encoder: &mut Encoder) {
        encoder.emit_unsigned(*self as u128)
    }
}

impl ToBencode for i8 {
    open spec fn bencoded(&self) -> Seq<u8> {
        integer_encoding(*self as int)
    }

    fn encode(&self, encoder: &mut Encoder) {
        encoder.emit_integer(*self as i128)
    }
}

impl ToBencode for i16 {
    open spec fn bencoded(&self) -> Seq<u8> {
        integer_encoding(*self as int)
    }

    fn encode(&self, encoder: &mut Encoder) {
        encoder.emit_integer(*self as i128)
    }
}

impl ToBencode for i32 {
    open spec fn bencoded(&self) -> Seq<u8> {
        integer_encoding(*self as int)
    }

    fn encode(&self, encoder: &mut Encoder) {
        encoder.emit_integer(*self as i128)
    }
}

impl ToBencode for i64 {
    open spec fn bencoded(&self) -> Seq<u8> {
        integer_encoding(*self as int)
    }

    fn encode(&self, encoder: &mut Encoder) {
        encoder.emit_integer(*self as i128)
    }
}

impl ToBencode for i128 {
    open spec fn bencoded(&self) -> Seq<u8> {
        integer_encoding(*self as int)
    }

    fn encode(&self, encoder: &mut Encoder) {
        encoder.emit_integer(*self as i128)
    }
}

impl ToBencode for isize {
    open spec fn bencoded(&self) -> Seq<u8> {
        integer_encoding(*self as int)
    }

    fn encode(&self, encoder: &mut Encoder) {
        encoder.emit_integer(*self as i128)
    }
}

/// Appends the canonical encoding of a value tree: every dictionary's keys in ascending order.
fn encode_value(value: &Value, encoder: &mut Encoder)
    ensures
        final(encoder)@ == old(encoder)@ + encode_tree(canonical(value.tree())),
    decreases height(value.tree()),
{
    match value {
        Value::ByteString(b) => encoder.emit_byte_array(b),
        Value::Integer(d) => {
            encoder.push(INT_START);
            encoder.append(d);
            encoder.push(END);
            assert(encoder@ =~= old(encoder)@ + encode_tree(canonical(value.tree())));
        },
        Value::List(items) => {
            let ghost ts = trees(items@);
            proof {
                lemma_trees(items@);
            }
            encoder.push(LIST_START);
            let mut i: usize = 0;
            while i < items.len()
                invariant
                    i <= items@.len(),
                    ts == trees(items@),
                    ts.len() == items@.len(),
                    forall|j: int| 0 <= j < items@.len() ==> #[trigger] ts[j] == items@[j].tree(),
                    value.tree() == Tree::List(ts),
                    encoder@ == old(encoder)@.push(LIST_START) + encode_items(
                        canonical_items(ts.subrange(0, i as int)),
                    ),
                decreases items@.len() - i,
            {
                proof {
                    lemma_items_height(ts, i as int);
                }
                encode_value(&items[i], encoder);
                proof {
                    let pre = ts.subrange(0, i as int);
                    assert(ts.subrange(0, i + 1).drop_last() =~= pre);
                    assert(ts.subrange(0, i + 1).last() == ts[i as int]);
                    assert(canonical_items(ts.subrange(0, i + 1)).drop_last() =~= canonical_items(pre));
                }
                i = i + 1;
                assert(encoder@ =~= old(encoder)@.push(LIST_START) + encode_items(
                    canonical_items(ts.subrange(0, i as int)),
                ));
            }
            encoder.push(END);
            assert(ts.subrange(0, items@.len() as int) =~= ts);
            assert(encoder@ =~= old(encoder)@ + encode_tree(canonical(value.tree())));
        },
        Value::Dictionary(map) => {
            let ghost es = map_entries(*map);
            let ghost ces = canonical_entries(es);
            let ghost xs = encoded_entries(ces);
            proof {
                lemma_canonical_entries(es);
            }
            let mut dictionary = DictionaryEncoder::new();
            let n = map.len();
            let mut i: usize = 0;
            assert(xs.subrange(0, 0) =~= Seq::<(Seq<u8>, Seq<u8>)>::empty());
            while i < n
                invariant
                    n == es.len(),
                    i <= n,
                    es == map_entries(*map),
                    ces == canonical_entries(es),
                    xs == encoded_entries(ces),
                    ces.len() == es.len(),
                    forall|j: int|
                        0 <= j < es.len() ==> #[trigger] ces[j] == (es[j].0, canonical(es[j].1)),
                    value.tree() == Tree::Dict(es),
                    dictionary@ == arrange(xs.subrange(0, i as int)),
                decreases n - i,
            {
                match map.get_index(i) {
                    Some((key, child)) => {
                        proof {
                            lemma_entries_height(es, i as int);
                        }
                        let mut sub = Encoder::new();
                        encode_value(child, &mut sub);
                        assert(sub@ =~= encode_tree(canonical(es[i as int].1)));
                        dictionary.emit_encoded_pair(key, sub.into_bytes());
                        proof {
                            assert(xs.subrange(0, i + 1).drop_last() =~= xs.subrange(0, i as int));
                            assert(xs[i as int] == (key@, encode_tree(canonical(es[i as int].1))));
                        }
                    },
                    None => {},
                }
                i = i + 1;
            }
            proof {
                assert(xs.subrange(0, n as int) =~= xs);
                lemma_arrange_encoded(ces);
                lemma_pairs_encoding_encoded(arrange(ces));
            }
            encoder.emit_dictionary(dictionary);
            assert(encoder@ =~= old(encoder)@ + encode_tree(canonical(value.tree())));
        },
    }
}

impl<'a> ToBencode for Value<'a> {
    open spec fn bencoded(&self) -> Seq<u8> {
        encode_tree(canonical(self.tree()))
    }

    fn encode(&self, encoder: &mut Encoder) {
        encode_value(self, encoder)
    }
}

} // verus!
