//! The bencode wire format, stated as mathematical functions over byte sequences.
use vstd::prelude::*;

verus! {

pub const ZERO: u8 = 48;
pub const NINE: u8 = 57;
pub const COLON: u8 = 58;
pub const MINUS: u8 = 45;
/// Opens an integer.
pub const INT_START: u8 = 105;
/// Opens a list.
pub const LIST_START: u8 = 108;
/// Opens a dictionary.
pub const DICT_START: u8 = 100;
/// Closes an integer, a list or a dictionary.
pub const END: u8 = 101;

pub open spec fn is_digit(b: u8) -> bool {
    ZERO <= b <= NINE
}

pub open spec fn all_digits(s: Seq<u8>) -> bool {
    forall|i: int| 0 <= i < s.len() ==> is_digit(#[trigger] s[i])
}

/// The number written by a run of decimal digits (most significant first).
pub open spec fn digits_value(s: Seq<u8>) -> nat
    decreases s.len(),
{
    if s.len() == 0 {
        0
    } else {
        digits_value(s.drop_last()) * 10 + (s.last() - ZERO) as nat
    }
}

/// Length of the run of digits at the front of `s`.
pub open spec fn digit_run(s: Seq<u8>) -> nat
    decreases s.len(),
{
    if s.len() > 0 && is_digit(s[0]) {
        1 + digit_run(s.drop_first())
    } else {
        0
    }
}

/// Digits without a superfluous leading zero: `0`, or a run starting with `1`..`9`.
pub open spec fn is_canonical_magnitude(m: Seq<u8>) -> bool {
    &&& m.len() >= 1
    &&& all_digits(m)
    &&& (m[0] == ZERO ==> m.len() == 1)
}

/// The text of a bencode integer: an optional `-`, canonical digits, and no `-0`.
pub open spec fn is_canonical_integer(s: Seq<u8>) -> bool {
    ||| is_canonical_magnitude(s)
    ||| (s.len() >= 2 && s[0] == MINUS && is_canonical_magnitude(s.drop_first()) && s[1] != ZERO)
}

/// A decimal numeral with an optional minus sign; leading zeros allowed.
pub open spec fn is_numeral(s: Seq<u8>) -> bool {
    ||| (s.len() >= 1 && all_digits(s))
    ||| (s.len() >= 2 && s[0] == MINUS && all_digits(s.drop_first()))
}

/// The value of a numeral.
pub open spec fn numeral_value(s: Seq<u8>) -> int {
    if s.len() > 0 && s[0] == MINUS {
        -(digits_value(s.drop_first()) as int)
    } else {
        digits_value(s) as int
    }
}

/// One lexical unit of the wire format.
pub enum TokenModel {
    ByteString(Seq<u8>),
    Integer(Seq<u8>),
    ListStart,
    DictionaryStart,
    End,
}

/// Why the front of an input is not a token (or not a value).
pub enum Failure {
    /// A byte string declares more bytes than remain; `needed` more are missing.
    Incomplete { needed: nat },
    /// The input matches none of the grammar's rules.
    Invalid,
}

/// What the lexer makes of the front of an input.
pub enum Lexed {
    Token { token: TokenModel, len: nat },
    Failed(Failure),
}

/// A byte string: decimal length, `:`, then exactly that many bytes.
pub open spec fn lex_byte_string(s: Seq<u8>) -> Lexed {
    let k = digit_run(s);
    if k == 0 || k >= s.len() || s[k as int] != COLON {
        Lexed::Failed(Failure::Invalid)
    } else {
        let n = digits_value(s.subrange(0, k as int));
        let avail = s.len() - (k + 1);
        if n > u64::MAX {
            Lexed::Failed(Failure::Invalid)
        } else if avail < n {
            Lexed::Failed(Failure::Incomplete { needed: (n - avail) as nat })
        } else {
            Lexed::Token {
                token: TokenModel::ByteString(s.subrange((k + 1) as int, (k + 1 + n) as int)),
                len: (k + 1 + n) as nat,
            }
        }
    }
}

/// Position just past the digits of an integer token that starts at the front of `s`.
pub open spec fn integer_body_end(s: Seq<u8>) -> int {
    let sign: int = if s.len() > 1 && s[1] == MINUS {
        1
    } else {
        0
    };
    1 + sign + digit_run(s.subrange(1 + sign, s.len() as int))
}

/// An integer: `i`, canonical integer text, `e`.
pub open spec fn lex_integer(s: Seq<u8>) -> Lexed {
    let end = integer_body_end(s);
    if s.len() > 0 && s[0] == INT_START && end < s.len() && s[end] == END && is_canonical_integer(
        s.subrange(1, end),
    ) {
        Lexed::Token { token: TokenModel::Integer(s.subrange(1, end)), len: (end + 1) as nat }
    } else {
        Lexed::Failed(Failure::Invalid)
    }
}

/// The token at the front of a non-empty input, tried in the order byte string, integer,
/// list start, dictionary start, end.
pub open spec fn lex_token(s: Seq<u8>) -> Lexed {
    if s.len() == 0 {
        Lexed::Failed(Failure::Invalid)
    } else if is_digit(s[0]) {
        lex_byte_string(s)
    } else if s[0] == INT_START {
        lex_integer(s)
    } else if s[0] == LIST_START {
        Lexed::Token { token: TokenModel::ListStart, len: 1 }
    } else if s[0] == DICT_START {
        Lexed::Token { token: TokenModel::DictionaryStart, len: 1 }
    } else if s[0] == END {
        Lexed::Token { token: TokenModel::End, len: 1 }
    } else {
        Lexed::Failed(Failure::Invalid)
    }
}

/// A decoded document. A dictionary lists its pairs in the order they appear, a repeated key as
/// often as it appears.
pub enum Tree {
    Bytes(Seq<u8>),
    Int(Seq<u8>),
    List(Seq<Tree>),
    Dict(Seq<(Seq<u8>, Tree)>),
}

/// Position of key `k` among the entries, or -1.
pub open spec fn key_position<V>(es: Seq<(Seq<u8>, V)>, k: Seq<u8>) -> int
    decreases es.len(),
{
    if es.len() == 0 {
        -1
    } else if es.last().0 == k {
        es.len() - 1
    } else {
        key_position(es.drop_last(), k)
    }
}

/// Sets the value of `k`: in place when `k` is present, else as a new last entry.
pub open spec fn upsert<V>(es: Seq<(Seq<u8>, V)>, k: Seq<u8>, v: V) -> Seq<(Seq<u8>, V)> {
    let i = key_position(es, k);
    if i >= 0 {
        es.update(i, (k, v))
    } else {
        es.push((k, v))
    }
}

/// The entries that result from setting each pair in turn; a later duplicate key overwrites
/// the value of an earlier one.
pub open spec fn collect<V>(pairs: Seq<(Seq<u8>, V)>) -> Seq<(Seq<u8>, V)>
    decreases pairs.len(),
{
    if pairs.len() == 0 {
        Seq::empty()
    } else {
        upsert(collect(pairs.drop_last()), pairs.last().0, pairs.last().1)
    }
}

/// A tree with the rule for repeated keys applied: each dictionary keeps a key once, in the
/// place where it first appeared, with the value it was given last.
pub open spec fn dedup(t: Tree) -> Tree
    decreases t,
{
    match t {
        Tree::Bytes(b) => Tree::Bytes(b),
        Tree::Int(d) => Tree::Int(d),
        Tree::List(vs) => Tree::List(dedup_items(vs)),
        Tree::Dict(ps) => Tree::Dict(collect(dedup_entries(ps))),
    }
}

pub open spec fn dedup_items(vs: Seq<Tree>) -> Seq<Tree>
    decreases vs,
{
    if vs.len() == 0 {
        Seq::empty()
    } else {
        dedup_items(vs.drop_last()).push(dedup(vs.last()))
    }
}

pub open spec fn dedup_entries(ps: Seq<(Seq<u8>, Tree)>) -> Seq<(Seq<u8>, Tree)>
    decreases ps,
{
    if ps.len() == 0 {
        Seq::empty()
    } else {
        dedup_entries(ps.drop_last()).push((ps.last().0, dedup(ps.last().1)))
    }
}

/// The value at the front of `s`, and how many bytes it takes.
pub open spec fn parse_value(s: Seq<u8>) -> Result<(Tree, nat), Failure>
    decreases s.len(), 1int,
{
    match lex_token(s) {
        Lexed::Failed(f) => Err(f),
        Lexed::Token { token, len } => match token {
            TokenModel::ByteString(b) => Ok((Tree::Bytes(b), len)),
            TokenModel::Integer(d) => Ok((Tree::Int(d), len)),
            TokenModel::ListStart => parse_list(s),
            TokenModel::DictionaryStart => parse_dict(s),
            TokenModel::End => Err(Failure::Invalid),
        },
    }
}

/// A list at the front of `s`: `l`, values, `e`.
pub open spec fn parse_list(s: Seq<u8>) -> Result<(Tree, nat), Failure>
    decreases s.len(), 0int,
{
    if s.len() > 0 && s[0] == LIST_START {
        match parse_items(s.drop_first()) {
            Ok((items, m)) => Ok((Tree::List(items), m + 1)),
            Err(f) => Err(f),
        }
    } else {
        Err(Failure::Invalid)
    }
}

/// A dictionary at the front of `s`: `d`, byte-string keys each followed by a value, `e`.
pub open spec fn parse_dict(s: Seq<u8>) -> Result<(Tree, nat), Failure>
    decreases s.len(), 0int,
{
    if s.len() > 0 && s[0] == DICT_START {
        match parse_pairs(s.drop_first()) {
            Ok((pairs, m)) => Ok((Tree::Dict(pairs), m + 1)),
            Err(f) => Err(f),
        }
    } else {
        Err(Failure::Invalid)
    }
}

/// The values of a list up to and including its end marker.
pub open spec fn parse_items(s: Seq<u8>) -> Result<(Seq<Tree>, nat), Failure>
    decreases s.len(), 2int,
{
    if s.len() > 0 && s[0] == END {
        Ok((Seq::empty(), 1))
    } else {
        match parse_value(s) {
            Err(f) => Err(f),
            Ok((v, n)) => if 0 < n <= s.len() {
                match parse_items(s.subrange(n as int, s.len() as int)) {
                    Ok((vs, m)) => Ok((seq![v] + vs, n + m)),
                    Err(f) => Err(f),
                }
            } else {
                Err(Failure::Invalid)
            },
        }
    }
}

/// The key/value pairs of a dictionary, in encounter order, up to and including its end marker.
pub open spec fn parse_pairs(s: Seq<u8>) -> Result<(Seq<(Seq<u8>, Tree)>, nat), Failure>
    decreases s.len(), 2int,
{
    if s.len() > 0 && s[0] == END {
        Ok((Seq::empty(), 1))
    } else {
        match lex_byte_string(s) {
            Lexed::Failed(f) => Err(f),
            Lexed::Token { token, len: n } => if 0 < n <= s.len() && token is ByteString {
                let k = token->ByteString_0;
                let s1 = s.subrange(n as int, s.len() as int);
                match parse_value(s1) {
                    Err(f) => Err(f),
                    Ok((v, m)) => if 0 < m <= s1.len() {
                        match parse_pairs(s1.subrange(m as int, s1.len() as int)) {
                            Ok((ps, r)) => Ok((seq![(k, v)] + ps, n + m + r)),
                            Err(f) => Err(f),
                        }
                    } else {
                        Err(Failure::Invalid)
                    },
                }
            } else {
                Err(Failure::Invalid)
            },
        }
    }
}

/// A whole document: one value and nothing after it.
pub open spec fn parse_document(s: Seq<u8>) -> Result<Tree, Failure> {
    match parse_value(s) {
        Ok((t, n)) => if n == s.len() {
            Ok(t)
        } else {
            Err(Failure::Invalid)
        },
        Err(f) => Err(f),
    }
}

/// The decimal digits of `n`, without leading zeros.
pub open spec fn decimal(n: nat) -> Seq<u8>
    decreases n,
{
    if n < 10 {
        seq![(ZERO + n) as u8]
    } else {
        decimal(n / 10).push((ZERO + n % 10) as u8)
    }
}

/// The canonical text of an integer.
pub open spec fn int_text(i: int) -> Seq<u8> {
    if i < 0 {
        seq![MINUS] + decimal((-i) as nat)
    } else {
        decimal(i as nat)
    }
}

/// A byte string on the wire: decimal length, `:`, the bytes.
pub open spec fn byte_string_encoding(b: Seq<u8>) -> Seq<u8> {
    decimal(b.len()) + seq![COLON] + b
}

/// An integer on the wire.
pub open spec fn integer_encoding(i: int) -> Seq<u8> {
    seq![INT_START] + int_text(i) + seq![END]
}

/// The concatenation of the parts.
pub open spec fn concat(parts: Seq<Seq<u8>>) -> Seq<u8>
    decreases parts.len(),
{
    if parts.len() == 0 {
        Seq::empty()
    } else {
        concat(parts.drop_last()) + parts.last()
    }
}

/// A list on the wire, from its encoded elements.
pub open spec fn list_encoding(items: Seq<Seq<u8>>) -> Seq<u8> {
    seq![LIST_START] + concat(items) + seq![END]
}

/// The key and the encoded value of each entry, one after the other.
pub open spec fn pairs_encoding(es: Seq<(Seq<u8>, Seq<u8>)>) -> Seq<u8>
    decreases es.len(),
{
    if es.len() == 0 {
        Seq::empty()
    } else {
        pairs_encoding(es.drop_last()) + byte_string_encoding(es.last().0) + es.last().1
    }
}

/// A dictionary on the wire, from its keys and encoded values, in the order given.
pub open spec fn dict_encoding(es: Seq<(Seq<u8>, Seq<u8>)>) -> Seq<u8> {
    seq![DICT_START] + pairs_encoding(es) + seq![END]
}

/// Byte-wise lexicographic order: `a` sorts strictly before `b`.
pub open spec fn lex_lt(a: Seq<u8>, b: Seq<u8>) -> bool
    decreases a.len(),
{
    if a.len() == 0 {
        b.len() > 0
    } else if b.len() == 0 {
        false
    } else if a[0] != b[0] {
        a[0] < b[0]
    } else {
        lex_lt(a.drop_first(), b.drop_first())
    }
}

/// Keys in strictly ascending order.
pub open spec fn keys_ascending<V>(es: Seq<(Seq<u8>, V)>) -> bool {
    forall|i: int, j: int| 0 <= i < j < es.len() ==> lex_lt(#[trigger] es[i].0, #[trigger] es[j].0)
}

/// The first position whose key does not sort before `k`.
pub open spec fn lower_bound<V>(es: Seq<(Seq<u8>, V)>, k: Seq<u8>) -> nat
    decreases es.len(),
{
    if es.len() == 0 || !lex_lt(es[0].0, k) {
        0
    } else {
        1 + lower_bound(es.drop_first(), k)
    }
}

/// Sets the value of `k` in entries kept in key order: in place when `k` is present, else
/// inserted where it sorts.
pub open spec fn place<V>(es: Seq<(Seq<u8>, V)>, k: Seq<u8>, v: V) -> Seq<(Seq<u8>, V)> {
    let p = lower_bound(es, k);
    if p < es.len() && es[p as int].0 == k {
        es.update(p as int, (k, v))
    } else {
        es.insert(p as int, (k, v))
    }
}

/// The entries that result from placing each pair in turn into an empty dictionary.
pub open spec fn arrange<V>(pairs: Seq<(Seq<u8>, V)>) -> Seq<(Seq<u8>, V)>
    decreases pairs.len(),
{
    if pairs.len() == 0 {
        Seq::empty()
    } else {
        place(arrange(pairs.drop_last()), pairs.last().0, pairs.last().1)
    }
}

/// A tree in the form the encoder writes: every dictionary's keys sorted.
pub open spec fn canonical(t: Tree) -> Tree
    decreases t,
{
    match t {
        Tree::Bytes(b) => Tree::Bytes(b),
        Tree::Int(d) => Tree::Int(d),
        Tree::List(vs) => Tree::List(canonical_items(vs)),
        Tree::Dict(es) => Tree::Dict(arrange(canonical_entries(es))),
    }
}

pub open spec fn canonical_items(vs: Seq<Tree>) -> Seq<Tree>
    decreases vs,
{
    if vs.len() == 0 {
        Seq::empty()
    } else {
        canonical_items(vs.drop_last()).push(canonical(vs.last()))
    }
}

pub open spec fn canonical_entries(es: Seq<(Seq<u8>, Tree)>) -> Seq<(Seq<u8>, Tree)>
    decreases es,
{
    if es.len() == 0 {
        Seq::empty()
    } else {
        canonical_entries(es.drop_last()).push((es.last().0, canonical(es.last().1)))
    }
}

/// The bytes of a tree, dictionaries written in the order of their entries.
pub open spec fn encode_tree(t: Tree) -> Seq<u8>
    decreases t,
{
    match t {
        Tree::Bytes(b) => byte_string_encoding(b),
        Tree::Int(d) => seq![INT_START] + d + seq![END],
        Tree::List(vs) => seq![LIST_START] + encode_items(vs) + seq![END],
        Tree::Dict(es) => seq![DICT_START] + encode_entries(es) + seq![END],
    }
}

pub open spec fn encode_items(vs: Seq<Tree>) -> Seq<u8>
    decreases vs,
{
    if vs.len() == 0 {
        Seq::empty()
    } else {
        encode_items(vs.drop_last()) + encode_tree(vs.last())
    }
}

pub open spec fn encode_entries(es: Seq<(Seq<u8>, Tree)>) -> Seq<u8>
    decreases es,
{
    if es.len() == 0 {
        Seq::empty()
    } else {
        encode_entries(es.drop_last()) + byte_string_encoding(es.last().0) + encode_tree(
            es.last().1,
        )
    }
}

/// How deeply containers nest in a tree.
pub open spec fn height(t: Tree) -> nat
    decreases t,
{
    match t {
        Tree::List(vs) => 1 + items_height(vs),
        Tree::Dict(es) => 1 + entries_height(es),
        _ => 0,
    }
}

pub open spec fn items_height(vs: Seq<Tree>) -> nat
    decreases vs,
{
    if vs.len() == 0 {
        0
    } else {
        let a = items_height(vs.drop_last());
        let b = height(vs.last());
        if a >= b {
            a
        } else {
            b
        }
    }
}

pub open spec fn entries_height(es: Seq<(Seq<u8>, Tree)>) -> nat
    decreases es,
{
    if es.len() == 0 {
        0
    } else {
        let a = entries_height(es.drop_last());
        let b = height(es.last().1);
        if a >= b {
            a
        } else {
            b
        }
    }
}

/// Each entry with its value encoded.
pub open spec fn encoded_entries(es: Seq<(Seq<u8>, Tree)>) -> Seq<(Seq<u8>, Seq<u8>)> {
    Seq::new(es.len(), |i: int| (es[i].0, encode_tree(es[i].1)))
}

pub proof fn lemma_items_height(vs: Seq<Tree>, i: int)
    requires
        0 <= i < vs.len(),
    ensures
        height(vs[i]) <= items_height(vs),
    decreases vs.len(),
{
    if i < vs.len() - 1 {
        lemma_items_height(vs.drop_last(), i);
    }
}

pub proof fn lemma_entries_height(es: Seq<(Seq<u8>, Tree)>, i: int)
    requires
        0 <= i < es.len(),
    ensures
        height(es[i].1) <= entries_height(es),
    decreases es.len(),
{
    if i < es.len() - 1 {
        lemma_entries_height(es.drop_last(), i);
    }
}

pub proof fn lemma_canonical_items(vs: Seq<Tree>)
    ensures
        canonical_items(vs).len() == vs.len(),
        forall|i: int| 0 <= i < vs.len() ==> #[trigger] canonical_items(vs)[i] == canonical(vs[i]),
    decreases vs.len(),
{
    if vs.len() > 0 {
        lemma_canonical_items(vs.drop_last());
    }
}

pub proof fn lemma_canonical_entries(es: Seq<(Seq<u8>, Tree)>)
    ensures
        canonical_entries(es).len() == es.len(),
        forall|i: int|
            0 <= i < es.len() ==> #[trigger] canonical_entries(es)[i] == (es[i].0, canonical(es[i].1)),
    decreases es.len(),
{
    if es.len() > 0 {
        lemma_canonical_entries(es.drop_last());
    }
}

pub proof fn lemma_lower_bound_encoded(es: Seq<(Seq<u8>, Tree)>, k: Seq<u8>)
    ensures
        lower_bound(encoded_entries(es), k) == lower_bound(es, k),
    decreases es.len(),
{
    if es.len() > 0 {
        assert(encoded_entries(es).drop_first() =~= encoded_entries(es.drop_first()));
        lemma_lower_bound_encoded(es.drop_first(), k);
    }
}

pub proof fn lemma_lower_bound_le<V>(es: Seq<(Seq<u8>, V)>, k: Seq<u8>)
    ensures
        lower_bound(es, k) <= es.len(),
    decreases es.len(),
{
    if es.len() > 0 {
        lemma_lower_bound_le(es.drop_first(), k);
    }
}

pub proof fn lemma_place_encoded(es: Seq<(Seq<u8>, Tree)>, k: Seq<u8>, t: Tree)
    ensures
        place(encoded_entries(es), k, encode_tree(t)) == encoded_entries(place(es, k, t)),
{
    lemma_lower_bound_encoded(es, k);
    lemma_lower_bound_le(es, k);
    let p = lower_bound(es, k);
    if p < es.len() && es[p as int].0 == k {
        assert(place(encoded_entries(es), k, encode_tree(t)) =~= encoded_entries(place(es, k, t)));
    } else {
        assert(place(encoded_entries(es), k, encode_tree(t)) =~= encoded_entries(place(es, k, t)));
    }
}

pub proof fn lemma_arrange_encoded(es: Seq<(Seq<u8>, Tree)>)
    ensures
        arrange(encoded_entries(es)) == encoded_entries(arrange(es)),
    decreases es.len(),
{
    if es.len() > 0 {
        assert(encoded_entries(es).drop_last() =~= encoded_entries(es.drop_last()));
        lemma_arrange_encoded(es.drop_last());
        lemma_place_encoded(arrange(es.drop_last()), es.last().0, es.last().1);
    } else {
        assert(encoded_entries(es) =~= Seq::empty());
        assert(encoded_entries(arrange(es)) =~= Seq::empty());
    }
}

pub proof fn lemma_pairs_encoding_encoded(es: Seq<(Seq<u8>, Tree)>)
    ensures
        pairs_encoding(encoded_entries(es)) == encode_entries(es),
    decreases es.len(),
{
    if es.len() > 0 {
        assert(encoded_entries(es).drop_last() =~= encoded_entries(es.drop_last()));
        lemma_pairs_encoding_encoded(es.drop_last());
    }
}

pub proof fn lemma_lex_bounds(s: Seq<u8>)
    ensures
        lex_token(s) matches Lexed::Token { len, .. } ==> 0 < len <= s.len(),
        lex_byte_string(s) matches Lexed::Token { len, .. } ==> 0 < len <= s.len(),
{
}

pub proof fn lemma_parse_value_bounds(s: Seq<u8>)
    ensures
        parse_value(s) matches Ok((_, n)) ==> 0 < n <= s.len(),
    decreases s.len(), 1int,
{
    lemma_lex_bounds(s);
    lemma_parse_list_bounds(s);
    lemma_parse_dict_bounds(s);
}

pub proof fn lemma_parse_list_bounds(s: Seq<u8>)
    ensures
        parse_list(s) matches Ok((_, n)) ==> 0 < n <= s.len(),
    decreases s.len(), 0int,
{
    if s.len() > 0 {
        lemma_parse_items_bounds(s.drop_first());
    }
}

pub proof fn lemma_parse_dict_bounds(s: Seq<u8>)
    ensures
        parse_dict(s) matches Ok((_, n)) ==> 0 < n <= s.len(),
    decreases s.len(), 0int,
{
    if s.len() > 0 {
        lemma_parse_pairs_bounds(s.drop_first());
    }
}

pub proof fn lemma_parse_items_bounds(s: Seq<u8>)
    ensures
        parse_items(s) matches Ok((_, n)) ==> 0 < n <= s.len(),
    decreases s.len(), 2int,
{
    if !(s.len() > 0 && s[0] == END) {
        if let Ok((_, n)) = parse_value(s) {
            if 0 < n <= s.len() {
                lemma_parse_items_bounds(s.subrange(n as int, s.len() as int));
            }
        }
    }
}

pub proof fn lemma_parse_pairs_bounds(s: Seq<u8>)
    ensures
        parse_pairs(s) matches Ok((_, n)) ==> 0 < n <= s.len(),
    decreases s.len(), 2int,
{
    if !(s.len() > 0 && s[0] == END) {
        if let Lexed::Token { len: n, .. } = lex_byte_string(s) {
            if 0 < n <= s.len() {
                let s1 = s.subrange(n as int, s.len() as int);
                if let Ok((_, m)) = parse_value(s1) {
                    if 0 < m <= s1.len() {
                        lemma_parse_pairs_bounds(s1.subrange(m as int, s1.len() as int));
                    }
                }
            }
        }
    }
}

pub proof fn lemma_digit_run(s: Seq<u8>, k: int)
    requires
        0 <= k <= s.len(),
        forall|i: int| 0 <= i < k ==> is_digit(#[trigger] s[i]),
        k == s.len() || !is_digit(s[k]),
    ensures
        digit_run(s) == k,
    decreases k,
{
    if k > 0 {
        let t = s.drop_first();
        assert forall|i: int| 0 <= i < k - 1 implies is_digit(#[trigger] t[i]) by {
            assert(t[i] == s[i + 1]);
        }
        if k - 1 < t.len() {
            assert(t[k - 1] == s[k]);
        }
        lemma_digit_run(t, k - 1);
    }
}

pub proof fn lemma_digits_value_step(s: Seq<u8>, i: int)
    requires
        0 <= i < s.len(),
    ensures
        digits_value(s.subrange(0, i + 1)) == digits_value(s.subrange(0, i)) * 10 + (s[i] - ZERO) as nat,
{
    assert(s.subrange(0, i + 1).drop_last() =~= s.subrange(0, i));
}

/// Extending a run of digits never lowers its value.
pub proof fn lemma_digits_value_mono(s: Seq<u8>, i: int, j: int)
    requires
        0 <= i <= j <= s.len(),
        all_digits(s.subrange(0, j)),
    ensures
        digits_value(s.subrange(0, i)) <= digits_value(s.subrange(0, j)),
    decreases j - i,
{
    if i < j {
        lemma_digits_value_mono(s, i, j - 1);
        lemma_digits_value_step(s, j - 1);
        assert(s.subrange(0, j)[j - 1] == s[j - 1]);
    }
}

} // verus!
