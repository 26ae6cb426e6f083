//! The encode engine: a recursive writer that walks a structured value
//! depth first and appends its wire form to one growable output buffer.
//! Every function is proved to emit exactly the grammar's encoding.

use vstd::prelude::*;

use crate::grammar::{
    spec_digits, spec_encode_bytes, spec_encode_int, spec_encode_items, spec_encode_node,
    spec_encode_pairs, NodeView, DICT_OPEN, END_MARK, INT_OPEN, LEN_SEP, LIST_OPEN,
};
use crate::laws::{
    lemma_encode_items_append, lemma_encode_items_one, lemma_encode_pairs_append,
    lemma_encode_pairs_one,
};
use crate::value::{entries_of, lemma_entries_of, lemma_nodes_of, node_of, nodes_of, Value};

verus! {

/// Appends the decimal digit run for `n`, most significant digit first.
fn push_digits(out: &mut Vec<u8>, n: u64)
    ensures
        final(out)@ == old(out)@ + spec_digits(n as nat),
    decreases n,
{
    if n < 10 {
        out.push(48 + (n as u8));
        proof {
            assert(old(out)@.push((48 + n as nat) as u8) =~= old(out)@ + spec_digits(n as nat));
        }
    } else {
        push_digits(out, n / 10);
        out.push(48 + ((n % 10) as u8));
        proof {
            assert((old(out)@ + spec_digits((n / 10) as nat)).push((48 + (n as nat) % 10) as u8)
                =~= old(out)@ + spec_digits(n as nat));
        }
    }
}

/// The encode engine's state: one append-only output buffer, created empty
/// and handed to the caller when the value is written. Its view is the
/// bytes written so far.
pub struct Serializer {
    output: Vec<u8>,
}

impl View for Serializer {
    type V = Seq<u8>;

    closed spec fn view(&self) -> Seq<u8> {
        self.output@
    }
}

impl Serializer {
    /// A fresh engine with an empty output buffer.
    pub fn new() -> (s: Serializer)
        ensures
            s@ == Seq::<u8>::empty(),
    {
        Serializer { output: Vec::new() }
    }

    /// Hands the accumulated buffer to the caller.
    pub fn into_bytes(self) -> (out: Vec<u8>)
        ensures
            out@ == self@,
    {
        self.output
    }

    /// Writes an integer node: open marker, decimal digits, end marker.
    pub fn write_int(&mut self, n: u64)
        ensures
            final(self)@ == old(self)@ + spec_encode_int(n),
    {
        self.output.push(INT_OPEN);
        push_digits(&mut self.output, n);
        self.output.push(END_MARK);
        proof {
            assert(self.output@ =~= old(self)@ + spec_encode_int(n));
        }
    }

    /// Writes a byte-string node: decimal length, separator, then the raw
    /// bytes verbatim. Nothing is escaped; the format is length-prefixed.
    pub fn write_byte_string(&mut self, b: &[u8])
        ensures
            final(self)@ == old(self)@ + spec_encode_bytes(b@),
    {
        push_digits(&mut self.output, b.len() as u64);
        self.output.push(LEN_SEP);
        let ghost base = self.output@;
        let mut i: usize = 0;
        proof {
            assert(b@.subrange(0, 0) =~= Seq::<u8>::empty());
            assert(base + b@.subrange(0, 0) =~= base);
        }
        while i < b.len()
            invariant
                i <= b@.len(),
                self.output@ == base + b@.subrange(0, i as int),
            decreases b@.len() - i,
        {
            self.output.push(b[i]);
            proof {
                assert((base + b@.subrange(0, i as int)).push(b@[i as int]) =~= base
                    + b@.subrange(0, i + 1));
            }
            i = i + 1;
        }
        proof {
            assert(b@.subrange(0, b@.len() as int) =~= b@);
            assert(self.output@ =~= old(self)@ + spec_encode_bytes(b@));
        }
    }

    /// Writes the list-open marker.
    pub fn begin_list(&mut self)
        ensures
            final(self)@ == old(self)@ + seq![LIST_OPEN],
    {
        self.output.push(LIST_OPEN);
        proof {
            assert(old(self)@.push(LIST_OPEN) =~= old(self)@ + seq![LIST_OPEN]);
        }
    }

    /// Writes the dictionary-open marker.
    pub fn begin_dict(&mut self)
        ensures
            final(self)@ == old(self)@ + seq![DICT_OPEN],
    {
        self.output.push(DICT_OPEN);
        proof {
            assert(old(self)@.push(DICT_OPEN) =~= old(self)@ + seq![DICT_OPEN]);
        }
    }

    /// Writes the end marker that closes a list or a dictionary.
    pub fn end_aggregate(&mut self)
        ensures
            final(self)@ == old(self)@ + seq![END_MARK],
    {
        self.output.push(END_MARK);
        proof {
            assert(old(self)@.push(END_MARK) =~= old(self)@ + seq![END_MARK]);
        }
    }

    /// Writes one whole value depth first, in the order its lists and
    /// dictionaries hold their elements; no reordering, no sorting.
    pub fn write_value<'a>(&mut self, v: &Value<'a>)
        ensures
            final(self)@ == old(self)@ + spec_encode_node(v@),
        decreases *v,
    {
        match v {
            Value::Int(n) => {
                self.write_int(*n);
            },
            Value::Bytes(b) => {
                self.write_byte_string(b);
            },
            Value::List(items) => {
                self.begin_list();
                let ghost ns = nodes_of(items@);
                let ghost base = self@;
                proof {
                    lemma_nodes_of(items@);
                    assert(ns.subrange(0, 0) =~= Seq::<NodeView>::empty());
                    assert(base + spec_encode_items(ns.subrange(0, 0)) =~= base);
                }
                let mut idx: usize = 0;
                while idx < items.len()
                    invariant
                        idx <= items@.len(),
                        *v == Value::List(*items),
                        ns == nodes_of(items@),
                        ns.len() == items@.len(),
                        forall|j: int|
                            0 <= j < items@.len() ==> ns[j] == node_of(#[trigger] items@[j]),
                        self@ == base + spec_encode_items(ns.subrange(0, idx as int)),
                    decreases items@.len() - idx,
                {
                    let item = &items[idx];
                    proof {
                        assert(v->List_0 == *items);
                        assert(decreases_to!(*v => v->List_0));
                        assert(decreases_to!(*items => items@));
                        assert(decreases_to!(items@ => items@[idx as int]));
                    }
                    self.write_value(item);
                    proof {
                        assert(ns.subrange(0, idx + 1) =~= ns.subrange(0, idx as int) + seq![
                            ns[idx as int],
                        ]);
                        lemma_encode_items_append(ns.subrange(0, idx as int), seq![ns[idx as int]]);
                        lemma_encode_items_one(ns[idx as int]);
                        assert((base + spec_encode_items(ns.subrange(0, idx as int)))
                            + spec_encode_node(ns[idx as int]) =~= base + spec_encode_items(
                            ns.subrange(0, idx + 1),
                        ));
                    }
                    idx = idx + 1;
                }
                self.end_aggregate();
                proof {
                    assert(ns.subrange(0, ns.len() as int) =~= ns);
                    assert((base + spec_encode_items(ns)) + seq![END_MARK] =~= old(self)@
                        + spec_encode_node(v@));
                }
            },
            Value::Dict(pairs) => {
                self.begin_dict();
                let ghost es = entries_of(pairs@);
                let ghost base = self@;
                proof {
                    lemma_entries_of(pairs@);
                    assert(es.subrange(0, 0) =~= Seq::<(Seq<u8>, NodeView)>::empty());
                    assert(base + spec_encode_pairs(es.subrange(0, 0)) =~= base);
                }
                let mut idx: usize = 0;
                while idx < pairs.len()
                    invariant
                        idx <= pairs@.len(),
                        *v == Value::Dict(*pairs),
                        es == entries_of(pairs@),
                        es.len() == pairs@.len(),
                        forall|j: int|
                            0 <= j < pairs@.len() ==> es[j] == ((#[trigger] pairs@[j]).0@, node_of(
                                pairs@[j].1,
                            )),
                        self@ == base + spec_encode_pairs(es.subrange(0, idx as int)),
                    decreases pairs@.len() - idx,
                {
                    let entry = &pairs[idx];
                    self.write_byte_string(entry.0);
                    proof {
                        assert(v->Dict_0 == *pairs);
                        assert(decreases_to!(*v => v->Dict_0));
                        assert(decreases_to!(*pairs => pairs@));
                        assert(decreases_to!(pairs@ => pairs@[idx as int]));
                        assert(decreases_to!(pairs@[idx as int] => pairs@[idx as int].1));
                    }
                    self.write_value(&entry.1);
                    proof {
                        assert(es.subrange(0, idx + 1) =~= es.subrange(0, idx as int) + seq![
                            es[idx as int],
                        ]);
                        lemma_encode_pairs_append(es.subrange(0, idx as int), seq![es[idx as int]]);
                        lemma_encode_pairs_one(es[idx as int]);
                        assert(((base + spec_encode_pairs(es.subrange(0, idx as int)))
                            + spec_encode_bytes(pairs@[idx as int].0@)) + spec_encode_node(
                            node_of(pairs@[idx as int].1),
                        ) =~= base + spec_encode_pairs(es.subrange(0, idx + 1)));
                    }
                    idx = idx + 1;
                }
                self.end_aggregate();
                proof {
                    assert(es.subrange(0, es.len() as int) =~= es);
                    assert((base + spec_encode_pairs(es)) + seq![END_MARK] =~= old(self)@
                        + spec_encode_node(v@));
                }
            },
        }
    }
}

/// Encodes one whole value into a fresh buffer and returns it. This cannot
/// fail: every value the structured type can hold has a wire form.
pub fn encode_value<'a>(v: &Value<'a>) -> (out: Vec<u8>)
    ensures
        out@ == spec_encode_node(v@),
{
    let mut s = Serializer::new();
    s.write_value(v);
    proof {
        assert(Seq::<u8>::empty() + spec_encode_node(v@) =~= spec_encode_node(v@));
    }
    s.into_bytes()
}

} // verus!
