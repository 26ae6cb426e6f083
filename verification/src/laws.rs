//! The two directions that tie the parse and the encoding together: parsing
//! an encoded node yields the node back (round trip), and a successfully
//! parsed prefix re-encodes to exactly the bytes it consumed (canonicity).

use vstd::prelude::*;

use crate::digits::{
    lemma_digits_form, lemma_parse_uint_canon, lemma_parse_uint_of_digits,
};
use crate::grammar::{
    encodable, encodable_items, encodable_pairs, is_digit, spec_decode, spec_digits,
    spec_encode_bytes, spec_encode_int, spec_encode_items, spec_encode_node, spec_encode_pairs,
    spec_parse_int, spec_parse_items, spec_parse_node, spec_parse_pairs, spec_parse_string,
    spec_parse_uint, NodeView, DICT_OPEN, END_MARK, INT_OPEN, LEN_SEP, LIST_OPEN,
};
use crate::Error;

verus! {

/// The first byte of an encoded node identifies its kind and is never the
/// end marker, and every encoded node is at least two bytes long.
pub(crate) proof fn lemma_encode_node_head(v: NodeView)
    ensures
        spec_encode_node(v).len() >= 2,
        spec_encode_node(v)[0] != END_MARK,
        v is Int ==> spec_encode_node(v)[0] == INT_OPEN,
        v is Bytes ==> is_digit(spec_encode_node(v)[0]),
        v is List ==> spec_encode_node(v)[0] == LIST_OPEN,
        v is Dict ==> spec_encode_node(v)[0] == DICT_OPEN,
{
    match v {
        NodeView::Int(n) => {
            lemma_digits_form(n as nat);
        },
        NodeView::Bytes(b) => {
            lemma_digits_form(b.len());
            assert(spec_encode_node(v)[0] == spec_digits(b.len())[0]);
        },
        NodeView::List(items) => {},
        NodeView::Dict(pairs) => {},
    }
}

/// Parsing the encoding of a byte string from the front of any buffer
/// succeeds, yields the byte string, and consumes exactly its encoding.
pub(crate) proof fn lemma_parse_string_of_encode(b: Seq<u8>, rest: Seq<u8>)
    requires
        b.len() <= u64::MAX,
    ensures
        spec_parse_string(spec_encode_bytes(b) + rest) == Ok::<(Seq<u8>, int), Error>(
            (b, spec_encode_bytes(b).len() as int),
        ),
{
    let ds = spec_digits(b.len());
    let s = spec_encode_bytes(b) + rest;
    let tail = seq![LEN_SEP] + b + rest;
    assert(s =~= ds + tail);
    lemma_parse_uint_of_digits(b.len() as u64, tail);
    lemma_digits_form(b.len());
    let k = ds.len() as int;
    assert(s[k] == LEN_SEP);
    assert(s.subrange(k + 1, k + 1 + b.len()) =~= b);
}

/// Parsing the encoding of an integer from the front of any buffer
/// succeeds, yields the integer, and consumes exactly its encoding.
pub(crate) proof fn lemma_parse_int_of_encode(n: u64, rest: Seq<u8>)
    ensures
        spec_parse_int(spec_encode_int(n) + rest) == Ok::<(u64, int), Error>(
            (n, spec_encode_int(n).len() as int),
        ),
{
    let ds = spec_digits(n as nat);
    let s = spec_encode_int(n) + rest;
    let t = s.subrange(1, s.len() as int);
    assert(t =~= ds + (seq![END_MARK] + rest));
    lemma_parse_uint_of_digits(n, seq![END_MARK] + rest);
    lemma_digits_form(n as nat);
    let k = ds.len() as int;
    assert(t[k] == END_MARK);
}

/// Round trip for one node at the front of any buffer: parsing the
/// encoding of `v` followed by anything yields `v` back and consumes
/// exactly the encoding. Holds for every node whose byte-string lengths
/// fit the unsigned 64-bit range.
pub proof fn lemma_parse_encoded_node(v: NodeView, rest: Seq<u8>)
    requires
        encodable(v),
    ensures
        spec_parse_node(spec_encode_node(v) + rest) == Ok::<(NodeView, int), Error>(
            (v, spec_encode_node(v).len() as int),
        ),
    decreases v, 1int,
{
    let s = spec_encode_node(v) + rest;
    lemma_encode_node_head(v);
    match v {
        NodeView::Int(n) => {
            assert(s =~= spec_encode_int(n) + rest);
            lemma_parse_int_of_encode(n, rest);
        },
        NodeView::Bytes(b) => {
            assert(s =~= spec_encode_bytes(b) + rest);
            lemma_parse_string_of_encode(b, rest);
        },
        NodeView::List(items) => {
            assert(s.subrange(1, s.len() as int) =~= spec_encode_items(items) + seq![END_MARK]
                + rest);
            lemma_parse_encoded_items(items, rest);
        },
        NodeView::Dict(pairs) => {
            assert(s.subrange(1, s.len() as int) =~= spec_encode_pairs(pairs) + seq![END_MARK]
                + rest);
            lemma_parse_encoded_pairs(pairs, rest);
        },
    }
}

/// Round trip for a run of list elements up to the end marker.
pub(crate) proof fn lemma_parse_encoded_items(items: Seq<NodeView>, rest: Seq<u8>)
    requires
        encodable_items(items),
    ensures
        spec_parse_items(spec_encode_items(items) + seq![END_MARK] + rest) == Ok::<
            (Seq<NodeView>, int),
            Error,
        >((items, (spec_encode_items(items).len() + 1) as int)),
    decreases items, 0int,
{
    let s = spec_encode_items(items) + seq![END_MARK] + rest;
    if items.len() == 0 {
        assert(s =~= seq![END_MARK] + rest);
        assert(s[0] == END_MARK);
        assert(Seq::<NodeView>::empty() =~= items);
    } else {
        let v0 = items[0];
        let tl = items.subrange(1, items.len() as int);
        assert(encodable(v0));
        assert(encodable_items(tl)) by {
            assert(forall|i: int| 0 <= i < tl.len() ==> #[trigger] tl[i] == items[i + 1]);
        }
        let rest1 = spec_encode_items(tl) + seq![END_MARK] + rest;
        assert(s =~= spec_encode_node(v0) + rest1);
        lemma_parse_encoded_node(v0, rest1);
        lemma_encode_node_head(v0);
        let n0 = spec_encode_node(v0).len() as int;
        assert(s[0] == spec_encode_node(v0)[0]);
        assert(s.subrange(n0, s.len() as int) =~= rest1);
        lemma_parse_encoded_items(tl, rest);
        assert(seq![v0] + tl =~= items);
    }
}

/// Round trip for a run of dictionary entries up to the end marker.
pub(crate) proof fn lemma_parse_encoded_pairs(pairs: Seq<(Seq<u8>, NodeView)>, rest: Seq<u8>)
    requires
        encodable_pairs(pairs),
    ensures
        spec_parse_pairs(spec_encode_pairs(pairs) + seq![END_MARK] + rest) == Ok::<
            (Seq<(Seq<u8>, NodeView)>, int),
            Error,
        >((pairs, (spec_encode_pairs(pairs).len() + 1) as int)),
    decreases pairs, 0int,
{
    let s = spec_encode_pairs(pairs) + seq![END_MARK] + rest;
    if pairs.len() == 0 {
        assert(s =~= seq![END_MARK] + rest);
        assert(s[0] == END_MARK);
        assert(Seq::<(Seq<u8>, NodeView)>::empty() =~= pairs);
    } else {
        let key = pairs[0].0;
        let v0 = pairs[0].1;
        let tl = pairs.subrange(1, pairs.len() as int);
        assert(key.len() <= u64::MAX && encodable(v0));
        assert(encodable_pairs(tl)) by {
            assert(forall|i: int| 0 <= i < tl.len() ==> #[trigger] tl[i] == pairs[i + 1]);
        }
        let rest_key = spec_encode_node(v0) + spec_encode_pairs(tl) + seq![END_MARK] + rest;
        assert(s =~= spec_encode_bytes(key) + rest_key);
        lemma_parse_string_of_encode(key, rest_key);
        lemma_digits_form(key.len());
        assert(s[0] == spec_digits(key.len())[0]);
        assert(is_digit(s[0]) && s[0] != END_MARK);
        let nk = spec_encode_bytes(key).len() as int;
        let t = s.subrange(nk, s.len() as int);
        let rest1 = spec_encode_pairs(tl) + seq![END_MARK] + rest;
        assert(t =~= spec_encode_node(v0) + rest1);
        lemma_parse_encoded_node(v0, rest1);
        lemma_encode_node_head(v0);
        let n0 = spec_encode_node(v0).len() as int;
        assert(t.subrange(n0, t.len() as int) =~= rest1);
        lemma_parse_encoded_pairs(tl, rest);
        assert(seq![(key, v0)] + tl =~= pairs);
    }
}

/// Canonicity for one node: whatever a successful parse consumed is
/// exactly the encoding of the node it returned, and that node is
/// encodable.
pub proof fn lemma_encode_parsed_node(s: Seq<u8>)
    ensures
        spec_parse_node(s) matches Ok((v, n)) ==> {
            &&& 1 <= n <= s.len()
            &&& encodable(v)
            &&& spec_encode_node(v) == s.subrange(0, n)
        },
    decreases s.len(), 0int,
{
    if s.len() == 0 {
    } else if s[0] == INT_OPEN {
        if spec_parse_node(s) is Ok {
            let t = s.subrange(1, s.len() as int);
            lemma_parse_uint_canon(t);
            let (num, used) = spec_parse_int(s)->Ok_0;
            let k = used - 2;
            assert(spec_encode_int(num) =~= s.subrange(0, used)) by {
                assert(t.subrange(0, k) == spec_digits(num as nat));
                assert(forall|i: int| 0 <= i < k ==> t.subrange(0, k)[i] == s[i + 1]);
            }
        }
    } else if is_digit(s[0]) {
        if spec_parse_node(s) is Ok {
            lemma_parse_uint_canon(s);
            let (b, used) = spec_parse_string(s)->Ok_0;
            let (num, k) = spec_parse_uint(s)->Ok_0;
            assert(b.len() == num);
            assert(spec_encode_bytes(b) =~= s.subrange(0, used)) by {
                assert(s.subrange(0, k) == spec_digits(num as nat));
                assert(forall|i: int| 0 <= i < k ==> s.subrange(0, k)[i] == s[i]);
            }
        }
    } else if s[0] == LIST_OPEN {
        let t = s.subrange(1, s.len() as int);
        lemma_encode_parsed_items(t);
        if spec_parse_node(s) is Ok {
            let (items, m) = spec_parse_items(t)->Ok_0;
            assert(spec_encode_node(NodeView::List(items)) == s.subrange(0, 1 + m)) by {
                assert(spec_encode_items(items) + seq![END_MARK] == t.subrange(0, m));
                assert(seq![LIST_OPEN] + spec_encode_items(items) + seq![END_MARK]
                    =~= seq![LIST_OPEN] + (spec_encode_items(items) + seq![END_MARK]));
                assert(seq![LIST_OPEN] + t.subrange(0, m) =~= s.subrange(0, 1 + m));
            }
        }
    } else if s[0] == DICT_OPEN {
        let t = s.subrange(1, s.len() as int);
        lemma_encode_parsed_pairs(t);
        if spec_parse_node(s) is Ok {
            let (pairs, m) = spec_parse_pairs(t)->Ok_0;
            assert(spec_encode_node(NodeView::Dict(pairs)) == s.subrange(0, 1 + m)) by {
                assert(spec_encode_pairs(pairs) + seq![END_MARK] == t.subrange(0, m));
                assert(seq![DICT_OPEN] + spec_encode_pairs(pairs) + seq![END_MARK]
                    =~= seq![DICT_OPEN] + (spec_encode_pairs(pairs) + seq![END_MARK]));
                assert(seq![DICT_OPEN] + t.subrange(0, m) =~= s.subrange(0, 1 + m));
            }
        }
    } else {
    }
}

/// Canonicity for a run of list elements up to the end marker.
pub(crate) proof fn lemma_encode_parsed_items(s: Seq<u8>)
    ensures
        spec_parse_items(s) matches Ok((items, n)) ==> {
            &&& 1 <= n <= s.len()
            &&& encodable_items(items)
            &&& spec_encode_items(items) + seq![END_MARK] == s.subrange(0, n)
        },
    decreases s.len(), 1int,
{
    if s.len() == 0 {
    } else if s[0] == END_MARK {
        assert(spec_encode_items(Seq::<NodeView>::empty()) + seq![END_MARK] =~= s.subrange(0, 1));
    } else {
        lemma_encode_parsed_node(s);
        if spec_parse_node(s) is Ok {
            let (v, n0) = spec_parse_node(s)->Ok_0;
            let t = s.subrange(n0, s.len() as int);
            lemma_encode_parsed_items(t);
            if spec_parse_items(t) is Ok {
                let (items2, m) = spec_parse_items(t)->Ok_0;
                let items = seq![v] + items2;
                assert((seq![v] + items2)[0] == v);
                assert((seq![v] + items2).subrange(1, items.len() as int) =~= items2);
                assert(encodable_items(items)) by {
                    assert(forall|i: int|
                        1 <= i < items.len() ==> #[trigger] items[i] == items2[i - 1]);
                }
                assert(spec_encode_items(items) + seq![END_MARK] == s.subrange(0, n0 + m)) by {
                    assert(spec_encode_items(items) == spec_encode_node(v) + spec_encode_items(
                        items2,
                    ));
                    assert(spec_encode_node(v) == s.subrange(0, n0));
                    assert(spec_encode_items(items2) + seq![END_MARK] == t.subrange(0, m));
                    assert(spec_encode_node(v) + spec_encode_items(items2) + seq![END_MARK]
                        =~= spec_encode_node(v) + (spec_encode_items(items2) + seq![END_MARK]));
                    assert(s.subrange(0, n0) + t.subrange(0, m) =~= s.subrange(0, n0 + m));
                }
            }
        }
    }
}

/// Canonicity for a run of dictionary entries up to the end marker.
pub(crate) proof fn lemma_encode_parsed_pairs(s: Seq<u8>)
    ensures
        spec_parse_pairs(s) matches Ok((pairs, n)) ==> {
            &&& 1 <= n <= s.len()
            &&& encodable_pairs(pairs)
            &&& spec_encode_pairs(pairs) + seq![END_MARK] == s.subrange(0, n)
        },
    decreases s.len(), 1int,
{
    if s.len() == 0 {
    } else if s[0] == END_MARK {
        assert(spec_encode_pairs(Seq::<(Seq<u8>, NodeView)>::empty()) + seq![END_MARK]
            =~= s.subrange(0, 1));
    } else if !is_digit(s[0]) {
    } else {
        lemma_parse_uint_canon(s);
        if spec_parse_string(s) is Ok {
            let (key, nk) = spec_parse_string(s)->Ok_0;
            let (num, k) = spec_parse_uint(s)->Ok_0;
            assert(key.len() == num);
            assert(spec_encode_bytes(key) =~= s.subrange(0, nk)) by {
                assert(s.subrange(0, k) == spec_digits(num as nat));
                assert(forall|i: int| 0 <= i < k ==> s.subrange(0, k)[i] == s[i]);
            }
            let t = s.subrange(nk, s.len() as int);
            lemma_encode_parsed_node(t);
            if spec_parse_node(t) is Ok {
                let (v, m) = spec_parse_node(t)->Ok_0;
                let u = t.subrange(m, t.len() as int);
                lemma_encode_parsed_pairs(u);
                if spec_parse_pairs(u) is Ok {
                    let (pairs2, p) = spec_parse_pairs(u)->Ok_0;
                    let pairs = seq![(key, v)] + pairs2;
                    assert((seq![(key, v)] + pairs2)[0] == (key, v));
                    assert(pairs.subrange(1, pairs.len() as int) =~= pairs2);
                    assert(encodable_pairs(pairs)) by {
                        assert(forall|i: int|
                            1 <= i < pairs.len() ==> #[trigger] pairs[i] == pairs2[i - 1]);
                    }
                    assert(spec_encode_pairs(pairs) + seq![END_MARK] == s.subrange(
                        0,
                        nk + m + p,
                    )) by {
                        assert(spec_encode_pairs(pairs) == spec_encode_bytes(key)
                            + spec_encode_node(v) + spec_encode_pairs(pairs2));
                        assert(spec_encode_node(v) == t.subrange(0, m));
                        assert(spec_encode_pairs(pairs2) + seq![END_MARK] == u.subrange(0, p));
                        assert(spec_encode_bytes(key) + spec_encode_node(v) + spec_encode_pairs(
                            pairs2,
                        ) + seq![END_MARK] =~= spec_encode_bytes(key) + (spec_encode_node(v) + (
                        spec_encode_pairs(pairs2) + seq![END_MARK])));
                        assert(t.subrange(0, m) + u.subrange(0, p) =~= t.subrange(0, m + p));
                        assert(s.subrange(0, nk) + t.subrange(0, m + p) =~= s.subrange(
                            0,
                            nk + m + p,
                        ));
                    }
                }
            }
        }
    }
}

/// The encoding of concatenated element runs is the concatenation of their
/// encodings.
pub(crate) proof fn lemma_encode_items_append(xs: Seq<NodeView>, ys: Seq<NodeView>)
    ensures
        spec_encode_items(xs + ys) == spec_encode_items(xs) + spec_encode_items(ys),
    decreases xs.len(),
{
    let s = xs + ys;
    if xs.len() == 0 {
        assert(s =~= ys);
        assert(Seq::<u8>::empty() + spec_encode_items(ys) =~= spec_encode_items(ys));
    } else {
        assert(s[0] == xs[0]);
        assert(s.subrange(1, s.len() as int) =~= xs.subrange(1, xs.len() as int) + ys);
        lemma_encode_items_append(xs.subrange(1, xs.len() as int), ys);
        assert(spec_encode_node(xs[0]) + (spec_encode_items(xs.subrange(1, xs.len() as int))
            + spec_encode_items(ys)) =~= (spec_encode_node(xs[0]) + spec_encode_items(
            xs.subrange(1, xs.len() as int),
        )) + spec_encode_items(ys));
    }
}

/// A single element's run encodes to just the element's encoding.
pub(crate) proof fn lemma_encode_items_one(v: NodeView)
    ensures
        spec_encode_items(seq![v]) == spec_encode_node(v),
{
    assert(seq![v][0] == v);
    assert(seq![v].subrange(1, 1) =~= Seq::<NodeView>::empty());
    assert(spec_encode_items(Seq::<NodeView>::empty()) == Seq::<u8>::empty());
    assert(spec_encode_items(seq![v]) == spec_encode_node(v) + Seq::<u8>::empty());
    assert(spec_encode_node(v) + Seq::<u8>::empty() =~= spec_encode_node(v));
}

/// The encoding of concatenated entry runs is the concatenation of their
/// encodings.
pub(crate) proof fn lemma_encode_pairs_append(
    xs: Seq<(Seq<u8>, NodeView)>,
    ys: Seq<(Seq<u8>, NodeView)>,
)
    ensures
        spec_encode_pairs(xs + ys) == spec_encode_pairs(xs) + spec_encode_pairs(ys),
    decreases xs.len(),
{
    let s = xs + ys;
    if xs.len() == 0 {
        assert(s =~= ys);
        assert(Seq::<u8>::empty() + spec_encode_pairs(ys) =~= spec_encode_pairs(ys));
    } else {
        assert(s[0] == xs[0]);
        assert(s.subrange(1, s.len() as int) =~= xs.subrange(1, xs.len() as int) + ys);
        lemma_encode_pairs_append(xs.subrange(1, xs.len() as int), ys);
        assert((spec_encode_bytes(xs[0].0) + spec_encode_node(xs[0].1)) + (spec_encode_pairs(
            xs.subrange(1, xs.len() as int),
        ) + spec_encode_pairs(ys)) =~= ((spec_encode_bytes(xs[0].0) + spec_encode_node(xs[0].1))
            + spec_encode_pairs(xs.subrange(1, xs.len() as int))) + spec_encode_pairs(ys));
    }
}

/// A single entry's run encodes to its key's encoding then its value's.
pub(crate) proof fn lemma_encode_pairs_one(kv: (Seq<u8>, NodeView))
    ensures
        spec_encode_pairs(seq![kv]) == spec_encode_bytes(kv.0) + spec_encode_node(kv.1),
{
    assert(seq![kv][0] == kv);
    assert(seq![kv].subrange(1, 1) =~= Seq::<(Seq<u8>, NodeView)>::empty());
    assert(spec_encode_pairs(Seq::<(Seq<u8>, NodeView)>::empty()) == Seq::<u8>::empty());
    assert(spec_encode_pairs(seq![kv]) == spec_encode_bytes(kv.0) + spec_encode_node(kv.1)
        + Seq::<u8>::empty());
    assert((spec_encode_bytes(kv.0) + spec_encode_node(kv.1)) + Seq::<u8>::empty()
        =~= spec_encode_bytes(kv.0) + spec_encode_node(kv.1));
}

/// Round trip for a whole buffer: decoding the encoding of any node whose
/// byte-string lengths fit the unsigned 64-bit range yields the node back.
pub proof fn lemma_decode_of_encode(v: NodeView)
    requires
        encodable(v),
    ensures
        spec_decode(spec_encode_node(v)) == Ok::<NodeView, Error>(v),
{
    lemma_parse_encoded_node(v, Seq::<u8>::empty());
    assert(spec_encode_node(v) + Seq::<u8>::empty() =~= spec_encode_node(v));
}

/// Round trip for every in-memory value, with nothing required of it:
/// encoding a structured value and decoding the result yields a value that
/// stands for the same node.
pub proof fn lemma_value_round_trip(v: crate::value::Value)
    ensures
        spec_decode(spec_encode_node(crate::value::node_of(v))) == Ok::<NodeView, Error>(
            crate::value::node_of(v),
        ),
{
    crate::value::lemma_value_encodable(v);
    lemma_decode_of_encode(crate::value::node_of(v));
}

/// Idempotent re-encode: whatever a whole-buffer decode accepted,
/// re-encoding its result reproduces the input byte for byte.
pub proof fn lemma_encode_of_decode(s: Seq<u8>)
    ensures
        spec_decode(s) matches Ok(v) ==> encodable(v) && spec_encode_node(v) == s,
{
    lemma_encode_parsed_node(s);
    if spec_decode(s) is Ok {
        assert(s.subrange(0, s.len() as int) =~= s);
    }
}

} // verus!
