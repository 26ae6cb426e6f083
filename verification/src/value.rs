//! The structured value that the engines read and write: one enum with the
//! four node kinds. Byte strings are borrowed slices, so a decoded value
//! holds views into the decode input and never copies string data.

use vstd::prelude::*;

use vstd::slice::spec_slice_len;

use crate::grammar::{encodable, encodable_items, encodable_pairs, NodeView};

verus! {

/// One structured value in the four-kind data model. Lists and
/// dictionaries keep their order; dictionary entries are not deduplicated.
/// Byte strings borrow from the buffer the value was decoded from, or from
/// whatever the caller built the value out of.
#[derive(Debug, PartialEq, Eq)]
pub enum Value<'a> {
    Int(u64),
    Bytes(&'a [u8]),
    List(Vec<Value<'a>>),
    Dict(Vec<(&'a [u8], Value<'a>)>),
}

/// The ghost node that a value stands for.
pub open spec fn node_of(v: Value) -> NodeView
    decreases v, 1int,
    via node_of_decreases
{
    match v {
        Value::Int(n) => NodeView::Int(n),
        Value::Bytes(b) => NodeView::Bytes(b@),
        Value::List(items) => NodeView::List(nodes_of(items@)),
        Value::Dict(pairs) => NodeView::Dict(entries_of(pairs@)),
    }
}

#[via_fn]
proof fn node_of_decreases(v: Value) {
    match v {
        Value::Int(n) => {},
        Value::Bytes(b) => {},
        Value::List(items) => {
            assert(decreases_to!(v => items));
            assert(decreases_to!(items => items@));
        },
        Value::Dict(pairs) => {
            assert(decreases_to!(v => pairs));
            assert(decreases_to!(pairs => pairs@));
        },
    }
}

/// The ghost nodes of a run of values, in order.
pub open spec fn nodes_of(items: Seq<Value>) -> Seq<NodeView>
    decreases items, 0int,
{
    if items.len() == 0 {
        Seq::empty()
    } else {
        seq![node_of(items[0])] + nodes_of(items.subrange(1, items.len() as int))
    }
}

/// The ghost entries of a run of key/value pairs, in order.
pub open spec fn entries_of<'a>(pairs: Seq<(&'a [u8], Value<'a>)>) -> Seq<(Seq<u8>, NodeView)>
    decreases pairs, 0int,
{
    if pairs.len() == 0 {
        Seq::empty()
    } else {
        seq![(pairs[0].0@, node_of(pairs[0].1))] + entries_of(
            pairs.subrange(1, pairs.len() as int),
        )
    }
}

/// How `nodes_of` indexes: element by element.
pub proof fn lemma_nodes_of(items: Seq<Value>)
    ensures
        nodes_of(items).len() == items.len(),
        forall|i: int| 0 <= i < items.len() ==> nodes_of(items)[i] == node_of(#[trigger] items[i]),
    decreases items.len(),
{
    if items.len() > 0 {
        let tl = items.subrange(1, items.len() as int);
        lemma_nodes_of(tl);
        assert forall|i: int| 0 <= i < items.len() implies nodes_of(items)[i] == node_of(
            #[trigger] items[i],
        ) by {
            if i > 0 {
                assert(tl[i - 1] == items[i]);
                assert(nodes_of(items)[i] == nodes_of(tl)[i - 1]);
            }
        }
    }
}

/// How `entries_of` indexes: entry by entry.
pub proof fn lemma_entries_of<'a>(pairs: Seq<(&'a [u8], Value<'a>)>)
    ensures
        entries_of(pairs).len() == pairs.len(),
        forall|i: int|
            0 <= i < pairs.len() ==> entries_of(pairs)[i] == ((#[trigger] pairs[i]).0@, node_of(
                pairs[i].1,
            )),
    decreases pairs.len(),
{
    if pairs.len() > 0 {
        let tl = pairs.subrange(1, pairs.len() as int);
        lemma_entries_of(tl);
        assert forall|i: int| 0 <= i < pairs.len() implies entries_of(pairs)[i] == ((
        #[trigger] pairs[i]).0@, node_of(pairs[i].1)) by {
            if i > 0 {
                assert(tl[i - 1] == pairs[i]);
                assert(entries_of(pairs)[i] == entries_of(tl)[i - 1]);
            }
        }
    }
}

/// Appending a value appends its node.
pub proof fn lemma_nodes_of_push(items: Seq<Value>, v: Value)
    ensures
        nodes_of(items.push(v)) == nodes_of(items).push(node_of(v)),
{
    lemma_nodes_of(items);
    lemma_nodes_of(items.push(v));
    assert forall|i: int| 0 <= i < items.len() + 1 implies nodes_of(items.push(v))[i] == nodes_of(
        items,
    ).push(node_of(v))[i] by {
        assert(nodes_of(items.push(v))[i] == node_of(items.push(v)[i]));
        if i < items.len() {
            assert(items.push(v)[i] == items[i]);
        } else {
            assert(items.push(v)[i] == v);
        }
    }
    assert(nodes_of(items.push(v)) =~= nodes_of(items).push(node_of(v)));
}

/// Appending a pair appends its entry.
pub proof fn lemma_entries_of_push<'a>(pairs: Seq<(&'a [u8], Value<'a>)>, k: &'a [u8], v: Value<'a>)
    ensures
        entries_of(pairs.push((k, v))) == entries_of(pairs).push((k@, node_of(v))),
{
    lemma_entries_of(pairs);
    lemma_entries_of(pairs.push((k, v)));
    assert forall|i: int| 0 <= i < pairs.len() + 1 implies entries_of(pairs.push((k, v)))[i]
        == entries_of(pairs).push((k@, node_of(v)))[i] by {
        assert(entries_of(pairs.push((k, v)))[i] == (pairs.push((k, v))[i].0@, node_of(
            pairs.push((k, v))[i].1,
        )));
        if i < pairs.len() {
            assert(pairs.push((k, v))[i] == pairs[i]);
        } else {
            assert(pairs.push((k, v))[i] == (k, v));
        }
    }
    assert(entries_of(pairs.push((k, v))) =~= entries_of(pairs).push((k@, node_of(v))));
}

impl<'a> View for Value<'a> {
    type V = NodeView;

    open spec fn view(&self) -> NodeView {
        node_of(*self)
    }
}

/// Every value the structured type can hold stands for an encodable node:
/// its byte strings live in memory, so their lengths fit the unsigned
/// 64-bit range that the wire format's length prefixes can carry.
pub proof fn lemma_value_encodable(v: Value)
    ensures
        encodable(node_of(v)),
    decreases v, 1int,
{
    match v {
        Value::Int(_) => {},
        Value::Bytes(b) => {
            assert(spec_slice_len(b) == b@.len());
        },
        Value::List(items) => {
            assert(decreases_to!(v => items));
            assert(decreases_to!(items => items@));
            lemma_values_encodable(items@);
        },
        Value::Dict(pairs) => {
            assert(decreases_to!(v => pairs));
            assert(decreases_to!(pairs => pairs@));
            lemma_value_pairs_encodable(pairs@);
        },
    }
}

/// `lemma_value_encodable`, over a run of values.
pub proof fn lemma_values_encodable(items: Seq<Value>)
    ensures
        encodable_items(nodes_of(items)),
    decreases items, 0int,
{
    lemma_nodes_of(items);
    assert forall|i: int| 0 <= i < nodes_of(items).len() implies encodable(
        #[trigger] nodes_of(items)[i],
    ) by {
        assert(decreases_to!(items => items[i]));
        lemma_value_encodable(items[i]);
    }
}

/// `lemma_value_encodable`, over a run of key/value pairs.
pub proof fn lemma_value_pairs_encodable<'a>(pairs: Seq<(&'a [u8], Value<'a>)>)
    ensures
        encodable_pairs(entries_of(pairs)),
    decreases pairs, 0int,
{
    lemma_entries_of(pairs);
    assert forall|i: int| 0 <= i < entries_of(pairs).len() implies (#[trigger] entries_of(
        pairs,
    )[i]).0.len() <= u64::MAX && encodable(entries_of(pairs)[i].1) by {
        assert(spec_slice_len(pairs[i].0) == pairs[i].0@.len());
        assert(decreases_to!(pairs => pairs[i]));
        assert(decreases_to!(pairs[i] => pairs[i].1));
        lemma_value_encodable(pairs[i].1);
    }
}

} // verus!
