//! What holds across encoding and decoding.
use vstd::prelude::*;
use vstd::utf8::{
    decode_utf8, encode_utf8, encode_utf8_decode_utf8, encode_utf8_valid_utf8, valid_utf8,
};

use crate::model::{
    arrange, byte_string_encoding, canonical, canonical_entries, canonical_items, collect, decimal,
    dedup, dedup_entries, dedup_items, digits_value, encode_entries, encode_items, encode_tree,
    int_text, integer_body_end, integer_encoding, is_canonical_integer, is_canonical_magnitude,
    is_digit, is_numeral, key_position, keys_ascending, lemma_canonical_entries,
    lemma_canonical_items, lemma_digit_run, lex_byte_string, lex_lt, lex_token, lower_bound,
    numeral_value, parse_document, parse_items, parse_pairs, parse_value, place, upsert, Failure,
    Lexed, TokenModel, Tree, COLON, END, INT_START, MINUS, ZERO,
};

verus! {

/// The decimal text of a number is canonical and reads back as the number.
pub proof fn lemma_decimal(n: nat)
    ensures
        is_canonical_magnitude(decimal(n)),
        digits_value(decimal(n)) == n,
    decreases n,
{
    let s = decimal(n);
    if n >= 10 {
        let q = n / 10;
        let r = n % 10;
        lemma_decimal(q);
        let d = decimal(q);
        assert(s == d.push((ZERO + r) as u8));
        assert(s.drop_last() =~= d);
        assert(s[0] == d[0]);
        if d[0] == ZERO {
            assert(d.len() == 1);
            assert(d.drop_last() =~= Seq::<u8>::empty());
            assert(digits_value(d) == digits_value(d.drop_last()) * 10 + (d.last() - ZERO) as nat);
        }
        assert forall|i: int| 0 <= i < s.len() implies is_digit(#[trigger] s[i]) by {
            if i < d.len() {
                assert(s[i] == d[i]);
            }
        }
        assert(s.last() == (ZERO + r) as u8);
        assert((s.last() - ZERO) as nat == r);
        assert(n == q * 10 + r) by (nonlinear_arith)
            requires
                q == n / 10,
                r == n % 10,
        ;
        assert(digits_value(s) == digits_value(d) * 10 + r);
    } else {
        assert(s == seq![(ZERO + n) as u8]);
        assert(s.drop_last() =~= Seq::<u8>::empty());
        assert(s.last() == (ZERO + n) as u8);
        assert(digits_value(s) == digits_value(s.drop_last()) * 10 + (s.last() - ZERO) as nat);
    }
}

/// Canonical integer text is a numeral of the same value.
pub proof fn lemma_int_text(i: int)
    ensures
        is_canonical_integer(int_text(i)),
        is_numeral(int_text(i)),
        numeral_value(int_text(i)) == i,
{
    if i < 0 {
        let m = decimal((-i) as nat);
        lemma_decimal((-i) as nat);
        let s = int_text(i);
        assert(s.drop_first() =~= m);
        assert(s[1] == m[0]);
        if m[0] == ZERO {
            assert(m.len() == 1);
            assert(m.drop_last() =~= Seq::<u8>::empty());
            assert(digits_value(m) == digits_value(m.drop_last()) * 10 + (m.last() - ZERO) as nat);
        }
    } else {
        lemma_decimal(i as nat);
        assert(is_digit(int_text(i)[0]));
    }
}

/// Byte-wise order never holds between a sequence and itself.
pub proof fn lemma_lex_irreflexive(a: Seq<u8>)
    ensures
        !lex_lt(a, a),
    decreases a.len(),
{
    if a.len() > 0 {
        lemma_lex_irreflexive(a.drop_first());
    }
}

/// Byte-wise order is transitive.
pub proof fn lemma_lex_transitive(a: Seq<u8>, b: Seq<u8>, c: Seq<u8>)
    requires
        lex_lt(a, b),
        lex_lt(b, c),
    ensures
        lex_lt(a, c),
    decreases a.len(),
{
    if a.len() > 0 && b.len() > 0 && c.len() > 0 && a[0] == b[0] && b[0] == c[0] {
        lemma_lex_transitive(a.drop_first(), b.drop_first(), c.drop_first());
    }
}

/// Of two different sequences, one sorts before the other.
pub proof fn lemma_lex_total(a: Seq<u8>, b: Seq<u8>)
    requires
        a != b,
    ensures
        lex_lt(a, b) || lex_lt(b, a),
    decreases a.len(),
{
    if a.len() > 0 && b.len() > 0 && a[0] == b[0] {
        if a.drop_first() == b.drop_first() {
            assert(a =~= seq![a[0]] + a.drop_first());
            assert(b =~= seq![b[0]] + b.drop_first());
        }
        lemma_lex_total(a.drop_first(), b.drop_first());
    } else if a.len() == 0 && b.len() == 0 {
        assert(a =~= b);
    }
}

/// Keys that occur once each.
pub open spec fn keys_unique<V>(es: Seq<(Seq<u8>, V)>) -> bool {
    forall|i: int, j: int| 0 <= i < j < es.len() ==> #[trigger] es[i].0 != #[trigger] es[j].0
}

/// Whether some entry has key `k`.
pub open spec fn has_key<V>(es: Seq<(Seq<u8>, V)>, k: Seq<u8>) -> bool {
    exists|i: int| 0 <= i < es.len() && (#[trigger] es[i]).0 == k
}

pub proof fn lemma_lower_bound<V>(es: Seq<(Seq<u8>, V)>, k: Seq<u8>)
    ensures
        lower_bound(es, k) <= es.len(),
        forall|j: int| 0 <= j < lower_bound(es, k) ==> lex_lt(#[trigger] es[j].0, k),
        lower_bound(es, k) < es.len() ==> !lex_lt(es[lower_bound(es, k) as int].0, k),
    decreases es.len(),
{
    if es.len() > 0 && lex_lt(es[0].0, k) {
        let t = es.drop_first();
        lemma_lower_bound(t, k);
        assert forall|j: int| 0 <= j < lower_bound(es, k) implies lex_lt(#[trigger] es[j].0, k) by {
            if j > 0 {
                assert(es[j] == t[j - 1]);
            }
        }
        if lower_bound(es, k) < es.len() {
            assert(es[lower_bound(es, k) as int] == t[lower_bound(t, k) as int]);
        }
    }
}

pub proof fn lemma_ascending_unique<V>(es: Seq<(Seq<u8>, V)>)
    requires
        keys_ascending(es),
    ensures
        keys_unique(es),
{
    assert forall|i: int, j: int| 0 <= i < j < es.len() implies #[trigger] es[i].0 != #[trigger] es[j].0 by {
        assert(lex_lt(es[i].0, es[j].0));
        lemma_lex_irreflexive(es[i].0);
    }
}

/// Placing a key into entries with ascending keys keeps them ascending, puts the key there
/// with the new value, and keeps every other entry.
pub proof fn lemma_place<V>(es: Seq<(Seq<u8>, V)>, k: Seq<u8>, v: V)
    requires
        keys_ascending(es),
    ensures
        keys_ascending(place(es, k, v)),
        forall|e: (Seq<u8>, V)|
            place(es, k, v).contains(e) <==> (e == (k, v) || (es.contains(e) && e.0 != k)),
{
    lemma_lower_bound(es, k);
    lemma_ascending_unique(es);
    let p = lower_bound(es, k) as int;
    let r = place(es, k, v);
    if p < es.len() && es[p].0 == k {
        assert(r == es.update(p, (k, v)));
        assert forall|i: int, j: int| 0 <= i < j < r.len() implies lex_lt(
            #[trigger] r[i].0,
            #[trigger] r[j].0,
        ) by {
            assert(r[i].0 == es[i].0 && r[j].0 == es[j].0);
        }
        assert forall|e: (Seq<u8>, V)| r.contains(e) <==> (e == (k, v) || (es.contains(e) && e.0 != k)) by {
            if r.contains(e) {
                let i = choose|i: int| 0 <= i < r.len() && r[i] == e;
                if i != p {
                    assert(es[i] == e);
                    assert(es[i].0 != es[p].0);
                }
            }
            if e == (k, v) {
                assert(r[p] == e);
            } else if es.contains(e) && e.0 != k {
                let i = choose|i: int| 0 <= i < es.len() && es[i] == e;
                assert(i != p);
                assert(r[i] == e);
            }
        }
    } else {
        assert(r == es.insert(p, (k, v)));
        if p < es.len() {
            lemma_lex_total(es[p].0, k);
        }
        assert forall|i: int, j: int| 0 <= i < j < r.len() implies lex_lt(
            #[trigger] r[i].0,
            #[trigger] r[j].0,
        ) by {
            if j < p {
                assert(r[i] == es[i] && r[j] == es[j]);
            } else if j == p {
                assert(r[i] == es[i]);
            } else if i < p {
                assert(r[i] == es[i] && r[j] == es[j - 1]);
            } else if i == p {
                assert(r[j] == es[j - 1]);
                if j - 1 > p {
                    assert(lex_lt(es[p].0, es[j - 1].0));
                    lemma_lex_transitive(k, es[p].0, es[j - 1].0);
                }
            } else {
                assert(r[i] == es[i - 1] && r[j] == es[j - 1]);
            }
        }
        assert forall|e: (Seq<u8>, V)| r.contains(e) <==> (e == (k, v) || (es.contains(e) && e.0 != k)) by {
            if r.contains(e) {
                let i = choose|i: int| 0 <= i < r.len() && r[i] == e;
                if i < p {
                    assert(es[i] == e);
                    lemma_lex_irreflexive(k);
                } else if i > p {
                    assert(es[i - 1] == e);
                    if i - 1 > p {
                        assert(lex_lt(es[p].0, es[i - 1].0));
                        lemma_lex_transitive(k, es[p].0, es[i - 1].0);
                    }
                    lemma_lex_irreflexive(k);
                }
            }
            if e == (k, v) {
                assert(r[p] == e);
            } else if es.contains(e) && e.0 != k {
                let i = choose|i: int| 0 <= i < es.len() && es[i] == e;
                if i < p {
                    assert(r[i] == e);
                } else {
                    assert(r[i + 1] == e);
                }
            }
        }
    }
}

pub proof fn lemma_key_position<V>(es: Seq<(Seq<u8>, V)>, k: Seq<u8>)
    ensures
        -1 <= key_position(es, k) < es.len(),
        key_position(es, k) >= 0 ==> es[key_position(es, k)].0 == k,
        key_position(es, k) < 0 ==> !has_key(es, k),
    decreases es.len(),
{
    if es.len() > 0 && es.last().0 != k {
        lemma_key_position(es.drop_last(), k);
        if key_position(es, k) < 0 && has_key(es, k) {
            let i = choose|i: int| 0 <= i < es.len() && (#[trigger] es[i]).0 == k;
            assert(es.drop_last()[i] == es[i]);
        }
    }
}

/// Setting a key in entries whose keys are unique keeps them unique, puts the key there with
/// the new value, and keeps every other entry.
pub proof fn lemma_upsert<V>(es: Seq<(Seq<u8>, V)>, k: Seq<u8>, v: V)
    requires
        keys_unique(es),
    ensures
        keys_unique(upsert(es, k, v)),
        forall|e: (Seq<u8>, V)|
            upsert(es, k, v).contains(e) <==> (e == (k, v) || (es.contains(e) && e.0 != k)),
{
    lemma_key_position(es, k);
    let p = key_position(es, k);
    let r = upsert(es, k, v);
    if p >= 0 {
        assert forall|i: int, j: int| 0 <= i < j < r.len() implies #[trigger] r[i].0 != #[trigger] r[j].0 by {
            assert(r[i].0 == es[i].0 && r[j].0 == es[j].0);
        }
        assert forall|e: (Seq<u8>, V)| r.contains(e) <==> (e == (k, v) || (es.contains(e) && e.0 != k)) by {
            if r.contains(e) {
                let i = choose|i: int| 0 <= i < r.len() && r[i] == e;
                if i != p {
                    assert(es[i] == e);
                }
            }
            if e == (k, v) {
                assert(r[p] == e);
            } else if es.contains(e) && e.0 != k {
                let i = choose|i: int| 0 <= i < es.len() && es[i] == e;
                assert(r[i] == e);
            }
        }
    } else {
        assert forall|i: int, j: int| 0 <= i < j < r.len() implies #[trigger] r[i].0 != #[trigger] r[j].0 by {
            if j == es.len() {
                assert(r[i] == es[i]);
            } else {
                assert(r[i] == es[i] && r[j] == es[j]);
            }
        }
        assert forall|e: (Seq<u8>, V)| r.contains(e) <==> (e == (k, v) || (es.contains(e) && e.0 != k)) by {
            if r.contains(e) {
                let i = choose|i: int| 0 <= i < r.len() && r[i] == e;
                if i < es.len() {
                    assert(es[i] == e);
                }
            }
            if e == (k, v) {
                assert(r[es.len() as int] == e);
            } else if es.contains(e) && e.0 != k {
                let i = choose|i: int| 0 <= i < es.len() && es[i] == e;
                assert(r[i] == e);
            }
        }
    }
}

/// Whatever order key/value pairs are given in, a dictionary built from them (as the
/// dictionary encoder builds it) holds its keys in strictly ascending byte order, and holds
/// exactly the entries that the decoder's rule gives: each key once, with the last value given
/// for it.
pub proof fn lemma_canonical_key_order<V>(pairs: Seq<(Seq<u8>, V)>)
    ensures
        keys_ascending(arrange(pairs)),
        keys_unique(collect(pairs)),
        forall|e: (Seq<u8>, V)| arrange(pairs).contains(e) <==> collect(pairs).contains(e),
    decreases pairs.len(),
{
    if pairs.len() > 0 {
        let ps = pairs.drop_last();
        let (k, v) = pairs.last();
        lemma_canonical_key_order(ps);
        lemma_place(arrange(ps), k, v);
        lemma_upsert(collect(ps), k, v);
        assert forall|e: (Seq<u8>, V)| arrange(pairs).contains(e) <==> collect(pairs).contains(e) by {
            assert(arrange(ps).contains(e) <==> collect(ps).contains(e));
            assert(arrange(pairs).contains(e) <==> (e == (k, v) || (arrange(ps).contains(e) && e.0
                != k)));
            assert(collect(pairs).contains(e) <==> (e == (k, v) || (collect(ps).contains(e) && e.0
                != k)));
        }
    }
}

/// A tree that an encoder can write and a decoder read back unchanged: integers in canonical
/// text, byte strings whose length fits the length field, each dictionary key once.
pub open spec fn well_formed(t: Tree) -> bool
    decreases t,
{
    match t {
        Tree::Bytes(b) => b.len() <= u64::MAX,
        Tree::Int(d) => is_canonical_integer(d),
        Tree::List(vs) => forall|i: int| 0 <= i < vs.len() ==> well_formed(#[trigger] vs[i]),
        Tree::Dict(es) => keys_unique(es) && forall|i: int|
            0 <= i < es.len() ==> (#[trigger] es[i]).0.len() <= u64::MAX && well_formed(es[i].1),
    }
}

/// How a byte string's encoding lexes, whatever follows it.
pub proof fn lemma_lex_encoded_bytes(b: Seq<u8>, rest: Seq<u8>)
    requires
        b.len() <= u64::MAX,
    ensures
        lex_byte_string(byte_string_encoding(b) + rest) == (Lexed::Token {
            token: TokenModel::ByteString(b),
            len: byte_string_encoding(b).len(),
        }),
        lex_token(byte_string_encoding(b) + rest) == lex_byte_string(byte_string_encoding(b) + rest),
{
    let m = decimal(b.len());
    lemma_decimal(b.len());
    let s = byte_string_encoding(b) + rest;
    let k = m.len() as int;
    assert(s =~= m + (seq![COLON] + b + rest));
    assert forall|i: int| 0 <= i < k implies is_digit(#[trigger] s[i]) by {
        assert(s[i] == m[i]);
    }
    assert(s[k] == COLON);
    lemma_digit_run(s, k);
    assert(s.subrange(0, k) =~= m);
    assert(s.subrange(k + 1, k + 1 + b.len()) =~= b);
    assert(is_digit(s[0]));
}

/// How an integer's encoding lexes, whatever follows it.
pub proof fn lemma_lex_encoded_int(d: Seq<u8>, rest: Seq<u8>)
    requires
        is_canonical_integer(d),
    ensures
        lex_token(seq![INT_START] + d + seq![END] + rest) == (Lexed::Token {
            token: TokenModel::Integer(d),
            len: d.len() + 2,
        }),
{
    let s = seq![INT_START] + d + seq![END] + rest;
    let sign: int = if d[0] == MINUS {
        1
    } else {
        0
    };
    assert(s.len() > 1 && s[1] == d[0]);
    let t = s.subrange(1 + sign, s.len() as int);
    let run = d.len() - sign;
    if sign == 1 {
        assert forall|i: int| 0 <= i < run implies is_digit(#[trigger] t[i]) by {
            assert(t[i] == d.drop_first()[i]);
        }
    } else {
        assert forall|i: int| 0 <= i < run implies is_digit(#[trigger] t[i]) by {
            assert(t[i] == d[i]);
        }
    }
    assert(t[run] == END);
    lemma_digit_run(t, run);
    assert(integer_body_end(s) == 1 + d.len());
    assert(s.subrange(1, 1 + d.len() as int) =~= d);
    assert(s[1 + d.len() as int] == END);
}

/// Every encoding is non-empty and starts with something other than an end marker.
pub proof fn lemma_encoded_start(t: Tree)
    ensures
        encode_tree(t).len() >= 1,
        encode_tree(t)[0] != END,
        t is Bytes ==> is_digit(encode_tree(t)[0]),
{
    if let Tree::Bytes(b) = t {
        lemma_decimal(b.len());
        assert(encode_tree(t)[0] == decimal(b.len())[0]);
    }
}

pub proof fn lemma_encode_items_front(vs: Seq<Tree>)
    requires
        vs.len() > 0,
    ensures
        encode_items(vs) == encode_tree(vs[0]) + encode_items(vs.drop_first()),
    decreases vs.len(),
{
    if vs.len() > 1 {
        lemma_encode_items_front(vs.drop_last());
        assert(vs.drop_last().drop_first() =~= vs.drop_first().drop_last());
        assert(encode_items(vs) =~= encode_tree(vs[0]) + encode_items(vs.drop_first()));
    } else {
        assert(vs.drop_last() =~= Seq::<Tree>::empty());
        assert(vs.drop_first() =~= Seq::<Tree>::empty());
        assert(encode_items(vs) =~= encode_tree(vs[0]) + encode_items(vs.drop_first()));
    }
}

pub proof fn lemma_encode_entries_front(es: Seq<(Seq<u8>, Tree)>)
    requires
        es.len() > 0,
    ensures
        encode_entries(es) == byte_string_encoding(es[0].0) + encode_tree(es[0].1) + encode_entries(
            es.drop_first(),
        ),
    decreases es.len(),
{
    if es.len() > 1 {
        lemma_encode_entries_front(es.drop_last());
        assert(es.drop_last().drop_first() =~= es.drop_first().drop_last());
        assert(encode_entries(es) =~= byte_string_encoding(es[0].0) + encode_tree(es[0].1)
            + encode_entries(es.drop_first()));
    } else {
        assert(es.drop_last() =~= Seq::<(Seq<u8>, Tree)>::empty());
        assert(es.drop_first() =~= Seq::<(Seq<u8>, Tree)>::empty());
        assert(encode_entries(es) =~= byte_string_encoding(es[0].0) + encode_tree(es[0].1)
            + encode_entries(es.drop_first()));
    }
}

/// Entries whose keys are unique are their own collection.
pub proof fn lemma_collect_unique<V>(es: Seq<(Seq<u8>, V)>)
    requires
        keys_unique(es),
    ensures
        collect(es) == es,
    decreases es.len(),
{
    if es.len() > 0 {
        let init = es.drop_last();
        assert(keys_unique(init)) by {
            assert forall|i: int, j: int| 0 <= i < j < init.len() implies #[trigger] init[i].0
                != #[trigger] init[j].0 by {
                assert(init[i] == es[i] && init[j] == es[j]);
            }
        }
        lemma_collect_unique(init);
        lemma_key_position(init, es.last().0);
        if key_position(init, es.last().0) >= 0 {
            let p = key_position(init, es.last().0);
            assert(init[p] == es[p]);
        }
        assert(init.push(es.last()) =~= es);
    }
}

/// A well-formed tree's encoding, followed by anything, reads back as the tree.
pub proof fn lemma_parse_encoded(t: Tree, rest: Seq<u8>)
    requires
        well_formed(t),
    ensures
        parse_value(encode_tree(t) + rest) == Ok::<(Tree, nat), Failure>((t, encode_tree(t).len())),
    decreases t,
{
    let s = encode_tree(t) + rest;
    match t {
        Tree::Bytes(b) => {
            lemma_lex_encoded_bytes(b, rest);
        },
        Tree::Int(d) => {
            lemma_lex_encoded_int(d, rest);
        },
        Tree::List(vs) => {
            lemma_parse_items_encoded(vs, rest);
            assert(s.drop_first() =~= encode_items(vs) + seq![END] + rest);
        },
        Tree::Dict(es) => {
            lemma_parse_pairs_encoded(es, rest);
            assert(s.drop_first() =~= encode_entries(es) + seq![END] + rest);
        },
    }
}

pub proof fn lemma_parse_items_encoded(vs: Seq<Tree>, rest: Seq<u8>)
    requires
        forall|i: int| 0 <= i < vs.len() ==> well_formed(#[trigger] vs[i]),
    ensures
        parse_items(encode_items(vs) + seq![END] + rest) == Ok::<(Seq<Tree>, nat), Failure>(
            (vs, encode_items(vs).len() + 1),
        ),
    decreases vs,
{
    let s = encode_items(vs) + seq![END] + rest;
    if vs.len() == 0 {
        assert(s[0] == END);
        assert(vs =~= Seq::<Tree>::empty());
    } else {
        let v0 = vs[0];
        let tail = vs.drop_first();
        lemma_encode_items_front(vs);
        lemma_encoded_start(v0);
        let after = encode_items(tail) + seq![END] + rest;
        assert(s =~= encode_tree(v0) + after);
        assert(s[0] == encode_tree(v0)[0]);
        lemma_parse_encoded(v0, after);
        let n = encode_tree(v0).len();
        assert(s.subrange(n as int, s.len() as int) =~= after);
        assert forall|i: int| 0 <= i < tail.len() implies well_formed(#[trigger] tail[i]) by {
            assert(tail[i] == vs[i + 1]);
        }
        lemma_parse_items_encoded(tail, rest);
        assert(seq![v0] + tail =~= vs);
    }
}

#[verifier::rlimit(40)]
pub proof fn lemma_parse_pairs_encoded(es: Seq<(Seq<u8>, Tree)>, rest: Seq<u8>)
    requires
        forall|i: int|
            0 <= i < es.len() ==> (#[trigger] es[i]).0.len() <= u64::MAX && well_formed(es[i].1),
    ensures
        parse_pairs(encode_entries(es) + seq![END] + rest) == Ok::<
            (Seq<(Seq<u8>, Tree)>, nat),
            Failure,
        >((es, encode_entries(es).len() + 1)),
    decreases es,
{
    let s = encode_entries(es) + seq![END] + rest;
    if es.len() == 0 {
        assert(s[0] == END);
        assert(es =~= Seq::<(Seq<u8>, Tree)>::empty());
    } else {
        let (k0, v0) = es[0];
        let tail = es.drop_first();
        lemma_encode_entries_front(es);
        let after = encode_entries(tail) + seq![END] + rest;
        let value_and_after = encode_tree(v0) + after;
        assert(s =~= byte_string_encoding(k0) + value_and_after);
        lemma_lex_encoded_bytes(k0, value_and_after);
        lemma_decimal(k0.len());
        assert(s[0] == decimal(k0.len())[0]);
        let n = byte_string_encoding(k0).len();
        assert(s.subrange(n as int, s.len() as int) =~= value_and_after);
        lemma_encoded_start(v0);
        lemma_parse_encoded(v0, after);
        let m = encode_tree(v0).len();
        assert(value_and_after.subrange(m as int, value_and_after.len() as int) =~= after);
        assert forall|i: int|
            0 <= i < tail.len() implies (#[trigger] tail[i]).0.len() <= u64::MAX && well_formed(
                tail[i].1,
            ) by {
            assert(tail[i] == es[i + 1]);
        }
        lemma_parse_pairs_encoded(tail, rest);
        let r = encode_entries(tail).len() + 1;
        assert(s[0] != END);
        assert(lex_byte_string(s) == (Lexed::Token { token: TokenModel::ByteString(k0), len: n }));
        assert(parse_value(value_and_after) == Ok::<(Tree, nat), Failure>((v0, m)));
        assert(parse_pairs(after) == Ok::<(Seq<(Seq<u8>, Tree)>, nat), Failure>((tail, r)));
        assert(seq![(k0, v0)] + tail =~= es);
        assert(n + m + r == encode_entries(es).len() + 1);
    }
}

/// Encoding a well-formed tree and decoding the bytes as a whole document gives the tree back.
pub proof fn lemma_round_trip(t: Tree)
    requires
        well_formed(t),
    ensures
        parse_document(encode_tree(t)) == Ok::<Tree, Failure>(t),
{
    lemma_parse_encoded(t, Seq::empty());
    assert(encode_tree(t) + Seq::<u8>::empty() =~= encode_tree(t));
}

/// An integer's encoding reads back as its canonical text, whose value is the integer.
pub proof fn lemma_integer_round_trip(i: int)
    ensures
        parse_value(integer_encoding(i)) == Ok::<(Tree, nat), Failure>(
            (Tree::Int(int_text(i)), integer_encoding(i).len()),
        ),
        is_numeral(int_text(i)),
        numeral_value(int_text(i)) == i,
{
    lemma_int_text(i);
    lemma_lex_encoded_int(int_text(i), Seq::empty());
    assert(integer_encoding(i) + Seq::<u8>::empty() =~= integer_encoding(i));
}

/// Sorting every dictionary's keys keeps a tree well formed.
pub proof fn lemma_canonical_well_formed(t: Tree)
    requires
        well_formed(t),
    ensures
        well_formed(canonical(t)),
    decreases t,
{
    match t {
        Tree::List(vs) => {
            lemma_canonical_items(vs);
            let cs = canonical_items(vs);
            assert forall|i: int| 0 <= i < cs.len() implies well_formed(#[trigger] cs[i]) by {
                lemma_canonical_well_formed(vs[i]);
            }
        },
        Tree::Dict(es) => {
            lemma_canonical_entries(es);
            let ces = canonical_entries(es);
            assert(keys_unique(ces)) by {
                assert forall|i: int, j: int| 0 <= i < j < ces.len() implies #[trigger] ces[i].0
                    != #[trigger] ces[j].0 by {
                    assert(ces[i].0 == es[i].0 && ces[j].0 == es[j].0);
                }
            }
            lemma_collect_unique(ces);
            lemma_canonical_key_order(ces);
            let a = arrange(ces);
            lemma_ascending_unique(a);
            assert forall|i: int|
                0 <= i < a.len() implies (#[trigger] a[i]).0.len() <= u64::MAX && well_formed(
                    a[i].1,
                ) by {
                assert(a.contains(a[i]));
                assert(ces.contains(a[i]));
                let j = choose|j: int| 0 <= j < ces.len() && ces[j] == a[i];
                lemma_canonical_well_formed(es[j].1);
            }
        },
        _ => {},
    }
}

/// The bytes the encoder writes for a well-formed tree (its dictionaries' keys sorted) decode
/// as a whole document to that sorted tree.
pub proof fn lemma_canonical_round_trip(t: Tree)
    requires
        well_formed(t),
    ensures
        parse_document(encode_tree(canonical(t))) == Ok::<Tree, Failure>(canonical(t)),
{
    lemma_canonical_well_formed(t);
    lemma_round_trip(canonical(t));
}

pub proof fn lemma_dedup_items(vs: Seq<Tree>)
    ensures
        dedup_items(vs).len() == vs.len(),
        forall|i: int| 0 <= i < vs.len() ==> #[trigger] dedup_items(vs)[i] == dedup(vs[i]),
    decreases vs.len(),
{
    if vs.len() > 0 {
        lemma_dedup_items(vs.drop_last());
    }
}

pub proof fn lemma_dedup_entries(es: Seq<(Seq<u8>, Tree)>)
    ensures
        dedup_entries(es).len() == es.len(),
        forall|i: int|
            0 <= i < es.len() ==> #[trigger] dedup_entries(es)[i] == (es[i].0, dedup(es[i].1)),
    decreases es.len(),
{
    if es.len() > 0 {
        lemma_dedup_entries(es.drop_last());
    }
}

/// A well-formed tree has no repeated key to drop.
pub proof fn lemma_dedup_well_formed(t: Tree)
    requires
        well_formed(t),
    ensures
        dedup(t) == t,
    decreases t,
{
    match t {
        Tree::List(vs) => {
            lemma_dedup_items(vs);
            assert forall|i: int| 0 <= i < vs.len() implies #[trigger] dedup_items(vs)[i] == vs[i] by {
                lemma_dedup_well_formed(vs[i]);
            }
            assert(dedup_items(vs) =~= vs);
        },
        Tree::Dict(es) => {
            lemma_dedup_entries(es);
            assert forall|i: int| 0 <= i < es.len() implies #[trigger] dedup_entries(es)[i] == es[i] by {
                lemma_dedup_well_formed(es[i].1);
            }
            assert(dedup_entries(es) =~= es);
            lemma_collect_unique(es);
        },
        _ => {},
    }
}

/// Decoding what the encoder writes for a well-formed value tree gives back that tree with its
/// dictionaries' keys sorted, the entries otherwise unchanged; no key is repeated, so the value
/// tree read back is that same tree.
pub proof fn lemma_value_round_trip(t: Tree)
    requires
        well_formed(t),
    ensures
        parse_document(encode_tree(canonical(t))) == Ok::<Tree, Failure>(canonical(t)),
        dedup(canonical(t)) == canonical(t),
{
    lemma_canonical_round_trip(t);
    lemma_canonical_well_formed(t);
    lemma_dedup_well_formed(canonical(t));
}

/// A string's encoding reads back as its UTF-8 bytes, which are valid and decode to the string.
pub proof fn lemma_string_round_trip(s: Seq<char>)
    requires
        encode_utf8(s).len() <= u64::MAX,
    ensures
        parse_value(byte_string_encoding(encode_utf8(s))) == Ok::<(Tree, nat), Failure>(
            (Tree::Bytes(encode_utf8(s)), byte_string_encoding(encode_utf8(s)).len()),
        ),
        valid_utf8(encode_utf8(s)),
        decode_utf8(encode_utf8(s)) == s,
{
    encode_utf8_valid_utf8(s);
    encode_utf8_decode_utf8(s);
    lemma_lex_encoded_bytes(encode_utf8(s), Seq::empty());
    assert(byte_string_encoding(encode_utf8(s)) + Seq::<u8>::empty() =~= byte_string_encoding(
        encode_utf8(s),
    ));
}

/// Entries already in ascending key order are left as they are when built into a dictionary.
pub proof fn lemma_arrange_sorted<V>(es: Seq<(Seq<u8>, V)>)
    requires
        keys_ascending(es),
    ensures
        arrange(es) == es,
    decreases es.len(),
{
    if es.len() > 0 {
        let init = es.drop_last();
        let (k, v) = es.last();
        assert(keys_ascending(init)) by {
            assert forall|i: int, j: int| 0 <= i < j < init.len() implies lex_lt(
                #[trigger] init[i].0,
                #[trigger] init[j].0,
            ) by {
                assert(init[i] == es[i] && init[j] == es[j]);
            }
        }
        lemma_arrange_sorted(init);
        lemma_lower_bound(init, k);
        let p = lower_bound(init, k);
        if p < init.len() {
            assert(init[p as int] == es[p as int]);
            assert(lex_lt(es[p as int].0, es[es.len() - 1].0));
        }
        assert(init.insert(init.len() as int, (k, v)) =~= es);
    }
}

/// Putting a tree in the encoder's form twice is the same as once.
pub proof fn lemma_canonical_idempotent(t: Tree)
    requires
        well_formed(t),
    ensures
        canonical(canonical(t)) == canonical(t),
    decreases t,
{
    match t {
        Tree::List(vs) => {
            let cs = canonical_items(vs);
            lemma_canonical_items(vs);
            lemma_canonical_items(cs);
            assert forall|i: int| 0 <= i < cs.len() implies #[trigger] canonical_items(cs)[i]
                == cs[i] by {
                lemma_canonical_idempotent(vs[i]);
            }
            assert(canonical_items(cs) =~= cs);
        },
        Tree::Dict(es) => {
            lemma_canonical_entries(es);
            let ces = canonical_entries(es);
            assert(keys_unique(ces)) by {
                assert forall|i: int, j: int| 0 <= i < j < ces.len() implies #[trigger] ces[i].0
                    != #[trigger] ces[j].0 by {
                    assert(ces[i].0 == es[i].0 && ces[j].0 == es[j].0);
                }
            }
            lemma_collect_unique(ces);
            lemma_canonical_key_order(ces);
            let c = arrange(ces);
            lemma_canonical_entries(c);
            assert forall|i: int| 0 <= i < c.len() implies #[trigger] canonical_entries(c)[i]
                == c[i] by {
                assert(c.contains(c[i]));
                assert(ces.contains(c[i]));
                let j = choose|j: int| 0 <= j < ces.len() && ces[j] == c[i];
                lemma_canonical_idempotent(es[j].1);
            }
            assert(canonical_entries(c) =~= c);
            lemma_arrange_sorted(c);
        },
        _ => {},
    }
}

/// The encoder's output for a well-formed tree, decoded and encoded again, comes out byte for
/// byte the same: input already in the encoder's form is reproduced exactly (input that is not,
/// such as a dictionary with unsorted keys, comes out in that form instead).
pub proof fn lemma_reencode_canonical(t: Tree)
    requires
        well_formed(t),
    ensures
        parse_document(encode_tree(canonical(t))) == Ok::<Tree, Failure>(canonical(t)),
        encode_tree(canonical(dedup(canonical(t)))) == encode_tree(canonical(t)),
{
    lemma_value_round_trip(t);
    lemma_canonical_idempotent(t);
}

} // verus!
