//! Writing bencode: an append-only output buffer, and a dictionary builder that keeps its keys
//! in ascending byte order whatever order they are given in.
use vstd::prelude::*;
use vstd::utf8::encode_utf8;

use crate::model::{
    byte_string_encoding, concat, decimal, dict_encoding, integer_encoding, keys_ascending, lex_lt,
    list_encoding, lower_bound, pairs_encoding, place, COLON, DICT_START, END, INT_START,
    LIST_START, MINUS, ZERO,
};
use crate::laws::lemma_place;
use crate::value::bytes_equal;

verus! {

/// The output of one encode call.
pub struct Encoder {
    bytes: Vec<u8>,
}

/// Key/value pairs waiting to be written as one dictionary, held in ascending key order.
pub struct DictionaryEncoder {
    entries: Vec<(Vec<u8>, Vec<u8>)>,
}

/// A type that knows its own bencode form.
pub trait ToBencode {
    /// The bytes that encode this value.
    spec fn bencoded(&self) -> Seq<u8>;

    /// Appends this value's encoding.
    fn encode(&self, encoder: &mut Encoder)
        ensures
            final(encoder)@ == old(encoder)@ + self.bencoded(),
    ;

    /// This value's encoding as a buffer of its own.
    fn to_bencode(&self) -> (r: Vec<u8>)
        where Self: Sized,
        ensures
            r@ == self.bencoded(),
    {
        let mut encoder = Encoder::new();
        self.encode(&mut encoder);
        assert(encoder@ =~= self.bencoded());
        encoder.into_bytes()
    }
}

/// The encodings of a sequence of values.
pub open spec fn bencodings<T: ToBencode>(items: Seq<T>) -> Seq<Seq<u8>> {
    Seq::new(items.len(), |i: int| items[i].bencoded())
}

impl View for Encoder {
    type V = Seq<u8>;

    closed spec fn view(&self) -> Seq<u8> {
        self.bytes@
    }
}

/// The decimal digits of `n`.
fn decimal_digits(n: u128) -> (r: Vec<u8>)
    ensures
        r@ == decimal(n as nat),
    decreases n,
{
    if n < 10 {
        let mut v = Vec::new();
        v.push(ZERO + n as u8);
        assert(v@ =~= decimal(n as nat));
        v
    } else {
        let mut v = decimal_digits(n / 10);
        v.push(ZERO + (n % 10) as u8);
        v
    }
}

/// Whether `a` sorts strictly before `b`, byte by byte.
pub fn lex_less(a: &[u8], b: &[u8]) -> (r: bool)
    ensures
        r == lex_lt(a@, b@),
{
    let mut i: usize = 0;
    assert(a@.subrange(0, a@.len() as int) =~= a@);
    assert(b@.subrange(0, b@.len() as int) =~= b@);
    while i < a.len() && i < b.len()
        invariant
            i <= a@.len(),
            i <= b@.len(),
            lex_lt(a@, b@) == lex_lt(
                a@.subrange(i as int, a@.len() as int),
                b@.subrange(i as int, b@.len() as int),
            ),
        decreases a@.len() - i,
    {
        let ghost sa = a@.subrange(i as int, a@.len() as int);
        let ghost sb = b@.subrange(i as int, b@.len() as int);
        assert(sa[0] == a@[i as int] && sb[0] == b@[i as int]);
        if a[i] != b[i] {
            return a[i] < b[i];
        }
        assert(sa.drop_first() =~= a@.subrange(i + 1, a@.len() as int));
        assert(sb.drop_first() =~= b@.subrange(i + 1, b@.len() as int));
        i = i + 1;
    }
    a.len() < b.len()
}

fn copy_bytes(b: &[u8]) -> (r: Vec<u8>)
    ensures
        r@ == b@,
{
    let mut v: Vec<u8> = Vec::new();
    let mut i: usize = 0;
    while i < b.len()
        invariant
            i <= b@.len(),
            v@ == b@.subrange(0, i as int),
        decreases b@.len() - i,
    {
        v.push(b[i]);
        i = i + 1;
        assert(v@ =~= b@.subrange(0, i as int));
    }
    assert(b@.subrange(0, b@.len() as int) =~= b@);
    v
}

impl Encoder {
    pub fn new() -> (r: Self)
        ensures
            r@ == Seq::<u8>::empty(),
    {
        Encoder { bytes: Vec::new() }
    }

    /// Everything written so far.
    pub fn into_bytes(self) -> (r: Vec<u8>)
        ensures
            r@ == self@,
    {
        self.bytes
    }

    pub(crate) fn push(&mut self, b: u8)
        ensures
            final(self)@ == old(self)@.push(b),
    {
        self.bytes.push(b);
    }

    pub(crate) fn append(&mut self, b: &[u8])
        ensures
            final(self)@ == old(self)@ + b@,
    {
        let mut i: usize = 0;
        while i < b.len()
            invariant
                i <= b@.len(),
                self@ == old(self)@ + b@.subrange(0, i as int),
            decreases b@.len() - i,
        {
            self.push(b[i]);
            i = i + 1;
            assert(self@ =~= old(self)@ + b@.subrange(0, i as int));
        }
        assert(b@.subrange(0, b@.len() as int) =~= b@);
    }

    /// Writes arbitrary bytes as a byte string.
    pub fn emit_byte_array(&mut self, bytes: &[u8])
        ensures
            final(self)@ == old(self)@ + byte_string_encoding(bytes@),
    {
        let digits = decimal_digits(bytes.len() as u128);
        self.append(digits.as_slice());
        self.push(COLON);
        self.append(bytes);
        assert(self@ =~= old(self)@ + byte_string_encoding(bytes@));
    }

    /// Writes the UTF-8 bytes of a string as a byte string.
    pub fn emit_byte_string(&mut self, s: &str)
        ensures
            final(self)@ == old(self)@ + byte_string_encoding(encode_utf8(s@)),
    {
        self.emit_byte_array(s.as_bytes())
    }

    /// Writes a signed integer.
    pub fn emit_integer(&mut self, value: i128)
        ensures
            final(self)@ == old(self)@ + integer_encoding(value as int),
    {
        self.push(INT_START);
        let digits = if value < 0 {
            self.push(MINUS);
            let magnitude: u128 = (-(value + 1)) as u128 + 1;
            decimal_digits(magnitude)
        } else {
            decimal_digits(value as u128)
        };
        self.append(digits.as_slice());
        self.push(END);
        assert(self@ =~= old(self)@ + integer_encoding(value as int));
    }

    /// Writes an unsigned integer.
    pub fn emit_unsigned(&mut self, value: u128)
        ensures
            final(self)@ == old(self)@ + integer_encoding(value as int),
    {
        self.push(INT_START);
        let digits = decimal_digits(value);
        self.append(digits.as_slice());
        self.push(END);
        assert(self@ =~= old(self)@ + integer_encoding(value as int));
    }

    /// Writes any encodable value.
    pub fn emit<T: ToBencode>(&mut self, value: &T)
        ensures
            final(self)@ == old(self)@ + value.bencoded(),
    {
        value.encode(self)
    }

    /// Writes a list of the given values, in order.
    pub fn emit_list<T: ToBencode>(&mut self, items: &[T])
        ensures
            final(self)@ == old(self)@ + list_encoding(bencodings(items@)),
    {
        self.push(LIST_START);
        let mut i: usize = 0;
        while i < items.len()
            invariant
                i <= items@.len(),
                self@ == old(self)@.push(LIST_START) + concat(bencodings(items@.subrange(0, i as int))),
            decreases items@.len() - i,
        {
            let ghost before = self@;
            items[i].encode(self);
            proof {
                let parts = bencodings(items@.subrange(0, i + 1));
                assert(parts.drop_last() =~= bencodings(items@.subrange(0, i as int)));
                assert(parts.last() == items@[i as int].bencoded());
            }
            i = i + 1;
            assert(self@ =~= old(self)@.push(LIST_START) + concat(bencodings(items@.subrange(0, i as int))));
        }
        self.push(END);
        assert(items@.subrange(0, items@.len() as int) =~= items@);
        assert(self@ =~= old(self)@ + list_encoding(bencodings(items@)));
    }

    /// Writes a dictionary; its keys come out in ascending byte order.
    pub fn emit_dictionary(&mut self, dictionary: DictionaryEncoder)
        ensures
            final(self)@ == old(self)@ + dict_encoding(dictionary@),
    {
        self.push(DICT_START);
        let entries = dictionary.entries;
        let mut i: usize = 0;
        while i < entries.len()
            invariant
                i <= entries@.len(),
                dictionary@ == entries_view(entries@),
                self@ == old(self)@.push(DICT_START) + pairs_encoding(
                    entries_view(entries@).subrange(0, i as int),
                ),
            decreases entries@.len() - i,
        {
            let ghost es = entries_view(entries@);
            let ghost before = self@;
            self.emit_byte_array(entries[i].0.as_slice());
            self.append(entries[i].1.as_slice());
            proof {
                assert(es.subrange(0, i + 1).drop_last() =~= es.subrange(0, i as int));
                assert(es[i as int] == (entries@[i as int].0@, entries@[i as int].1@));
            }
            i = i + 1;
            assert(self@ =~= old(self)@.push(DICT_START) + pairs_encoding(es.subrange(0, i as int)));
        }
        self.push(END);
        assert(entries_view(entries@).subrange(0, entries@.len() as int) =~= entries_view(entries@));
        assert(self@ =~= old(self)@ + dict_encoding(dictionary@));
    }
}

/// The keys and encoded values of the held pairs.
pub open spec fn entries_view(entries: Seq<(Vec<u8>, Vec<u8>)>) -> Seq<(Seq<u8>, Seq<u8>)> {
    Seq::new(entries.len(), |i: int| (entries[i].0@, entries[i].1@))
}

impl View for DictionaryEncoder {
    type V = Seq<(Seq<u8>, Seq<u8>)>;

    closed spec fn view(&self) -> Seq<(Seq<u8>, Seq<u8>)> {
        entries_view(self.entries@)
    }
}

impl DictionaryEncoder {
    pub fn new() -> (r: Self)
        ensures
            r@ == Seq::<(Seq<u8>, Seq<u8>)>::empty(),
            keys_ascending(r@),
    {
        let r = DictionaryEncoder { entries: Vec::new() };
        assert(r@ =~= Seq::<(Seq<u8>, Seq<u8>)>::empty());
        r
    }

    /// Adds a key with its already encoded value. A key already present takes the new value.
    pub fn emit_encoded_pair(&mut self, key: &[u8], encoded: Vec<u8>)
        ensures
            final(self)@ == place(old(self)@, key@, encoded@),
            keys_ascending(old(self)@) ==> keys_ascending(final(self)@),
    {
        proof {
            if keys_ascending(self@) {
                lemma_place(self@, key@, encoded@);
            }
        }
        let n = self.entries.len();
        let mut p: usize = 0;
        assert(self@.subrange(0, n as int) =~= self@);
        while p < n && lex_less(self.entries[p].0.as_slice(), key)
            invariant
                n == self.entries@.len(),
                p <= n,
                self@ == old(self)@,
                lower_bound(self@, key@) == p + lower_bound(
                    self@.subrange(p as int, n as int),
                    key@,
                ),
            decreases n - p,
        {
            proof {
                let rest = self@.subrange(p as int, n as int);
                assert(rest[0] == self@[p as int]);
                assert(rest.drop_first() =~= self@.subrange(p + 1, n as int));
            }
            p = p + 1;
        }
        proof {
            if p < n {
                assert(self@.subrange(p as int, n as int)[0] == self@[p as int]);
            }
        }
        let k = copy_bytes(key);
        if p < n && bytes_equal(self.entries[p].0.as_slice(), key) {
            self.entries.set(p, (k, encoded));
        } else {
            self.entries.insert(p, (k, encoded));
        }
        assert(self@ =~= place(old(self)@, key@, encoded@));
    }

    /// Adds a key and the encoding of its value. A key already present takes the new value.
    pub fn emit_pair<T: ToBencode>(&mut self, key: &[u8], value: &T)
        ensures
            final(self)@ == place(old(self)@, key@, value.bencoded()),
            keys_ascending(old(self)@) ==> keys_ascending(final(self)@),
    {
        let mut encoder = Encoder::new();
        value.encode(&mut encoder);
        assert(encoder@ =~= value.bencoded());
        self.emit_encoded_pair(key, encoder.into_bytes());
    }
}

} // verus!
