//! The wire grammar as mathematics: a ghost node model, the encoding of a
//! node as a byte sequence, and a recursive-descent parse of a byte sequence
//! back into a node. The executable engines are verified against these
//! functions.

use vstd::prelude::*;

use crate::Error;

verus! {

/// Opens an integer node.
pub const INT_OPEN: u8 = 105;

/// Closes an integer node, a list, or a dictionary.
pub const END_MARK: u8 = 101;

/// Opens a list node.
pub const LIST_OPEN: u8 = 108;

/// Opens a dictionary node.
pub const DICT_OPEN: u8 = 100;

/// Separates a byte string's decimal length from its raw bytes.
pub const LEN_SEP: u8 = 58;

/// The ghost model of one node in the four-kind grammar. Byte strings are
/// byte sequences; lists keep their order; dictionaries are ordered pair
/// sequences (no sorting, no deduplication).
#[verifier::ext_equal]
pub enum NodeView {
    Int(u64),
    Bytes(Seq<u8>),
    List(Seq<NodeView>),
    Dict(Seq<(Seq<u8>, NodeView)>),
}

/// An ASCII decimal digit.
pub open spec fn is_digit(b: u8) -> bool {
    48 <= b <= 57
}

/// The numeric value of one ASCII digit.
pub open spec fn digit_val(b: u8) -> nat {
    (b - 48) as nat
}

/// The shortest decimal digit run for `n`, most significant digit first.
/// It never starts with a zero digit unless `n` itself is zero.
pub open spec fn spec_digits(n: nat) -> Seq<u8>
    decreases n,
{
    if n < 10 {
        seq![(48 + n) as u8]
    } else {
        spec_digits(n / 10).push((48 + n % 10) as u8)
    }
}

/// The numeric value of a digit run, most significant digit first.
pub open spec fn spec_digits_val(ds: Seq<u8>) -> nat
    decreases ds.len(),
{
    if ds.len() == 0 {
        0
    } else {
        spec_digits_val(ds.drop_last()) * 10 + digit_val(ds.last())
    }
}

/// The wire form of an unsigned integer: `i`, decimal digits, `e`.
pub open spec fn spec_encode_int(n: u64) -> Seq<u8> {
    seq![INT_OPEN] + spec_digits(n as nat) + seq![END_MARK]
}

/// The wire form of a byte string: decimal length, `:`, the raw bytes.
pub open spec fn spec_encode_bytes(s: Seq<u8>) -> Seq<u8> {
    spec_digits(s.len()) + seq![LEN_SEP] + s
}

/// The wire form of one node.
pub open spec fn spec_encode_node(v: NodeView) -> Seq<u8>
    decreases v, 1int,
{
    match v {
        NodeView::Int(n) => spec_encode_int(n),
        NodeView::Bytes(s) => spec_encode_bytes(s),
        NodeView::List(items) => seq![LIST_OPEN] + spec_encode_items(items) + seq![END_MARK],
        NodeView::Dict(pairs) => seq![DICT_OPEN] + spec_encode_pairs(pairs) + seq![END_MARK],
    }
}

/// The concatenated wire forms of a list's elements, in order.
pub open spec fn spec_encode_items(items: Seq<NodeView>) -> Seq<u8>
    decreases items, 0int,
{
    if items.len() == 0 {
        Seq::empty()
    } else {
        spec_encode_node(items[0]) + spec_encode_items(items.subrange(1, items.len() as int))
    }
}

/// The concatenated wire forms of a dictionary's entries, in order: each
/// key as a byte string, then its value.
pub open spec fn spec_encode_pairs(pairs: Seq<(Seq<u8>, NodeView)>) -> Seq<u8>
    decreases pairs, 0int,
{
    if pairs.len() == 0 {
        Seq::empty()
    } else {
        spec_encode_bytes(pairs[0].0) + spec_encode_node(pairs[0].1)
            + spec_encode_pairs(pairs.subrange(1, pairs.len() as int))
    }
}

/// Whether every byte-string length in `v` fits the unsigned 64-bit range,
/// so that a decoder can read the length back. Every value built from
/// in-memory byte strings satisfies this.
pub open spec fn encodable(v: NodeView) -> bool
    decreases v, 1int,
{
    match v {
        NodeView::Int(_) => true,
        NodeView::Bytes(s) => s.len() <= u64::MAX,
        NodeView::List(items) => encodable_items(items),
        NodeView::Dict(pairs) => encodable_pairs(pairs),
    }
}

/// `encodable`, over a list's elements.
pub open spec fn encodable_items(items: Seq<NodeView>) -> bool
    decreases items, 0int,
{
    forall|i: int| 0 <= i < items.len() ==> encodable(#[trigger] items[i])
}

/// `encodable`, over a dictionary's entries.
pub open spec fn encodable_pairs(pairs: Seq<(Seq<u8>, NodeView)>) -> bool
    decreases pairs, 0int,
{
    forall|i: int|
        0 <= i < pairs.len() ==> (#[trigger] pairs[i]).0.len() <= u64::MAX && encodable(
            pairs[i].1,
        )
}

/// The length of the digit run at the front of `s`.
pub open spec fn digit_run_len(s: Seq<u8>) -> int
    decreases s.len(),
{
    if s.len() == 0 || !is_digit(s[0]) {
        0
    } else {
        1 + digit_run_len(s.subrange(1, s.len() as int))
    }
}

/// Parses the decimal number at the front of `s`: at least one digit, no
/// leading zero other than the literal `0`, value within the unsigned
/// 64-bit range. Returns the value and how many bytes it occupies.
pub open spec fn spec_parse_uint(s: Seq<u8>) -> Result<(u64, int), Error> {
    let k = digit_run_len(s);
    if k == 0 {
        Err(Error::MalformedPrimitive)
    } else if s[0] == 48 && k > 1 {
        Err(Error::MalformedPrimitive)
    } else if spec_digits_val(s.subrange(0, k)) > u64::MAX {
        Err(Error::IntegerOverflow)
    } else {
        Ok((spec_digits_val(s.subrange(0, k)) as u64, k))
    }
}

/// Parses the integer node at the front of `s`, which must start with the
/// integer-open marker: digits up to a terminating end marker. Returns the
/// value and the consumed length.
pub open spec fn spec_parse_int(s: Seq<u8>) -> Result<(u64, int), Error> {
    let t = s.subrange(1, s.len() as int);
    match spec_parse_uint(t) {
        Ok((n, k)) => if k < t.len() && t[k] == END_MARK {
            Ok((n, 2 + k))
        } else {
            Err(Error::MalformedPrimitive)
        },
        Err(e) => Err(e),
    }
}

/// Parses the byte string at the front of `s`, which must start with a
/// digit: a decimal length, the separator, then exactly that many raw
/// bytes, all of which must be present. Returns the bytes and the consumed
/// length.
pub open spec fn spec_parse_string(s: Seq<u8>) -> Result<(Seq<u8>, int), Error> {
    match spec_parse_uint(s) {
        Ok((n, k)) => if k < s.len() && s[k] == LEN_SEP {
            if n + k + 1 <= s.len() {
                Ok((s.subrange(k + 1, k + 1 + n), k + 1 + n))
            } else {
                Err(Error::MalformedPrimitive)
            }
        } else {
            Err(Error::MalformedPrimitive)
        },
        Err(e) => Err(e),
    }
}

/// Parses the node at the front of `s`, dispatching on the lookahead byte:
/// a digit opens a byte string, and the three markers open an integer, a
/// list, or a dictionary. Returns the node and the consumed length.
pub open spec fn spec_parse_node(s: Seq<u8>) -> Result<(NodeView, int), Error>
    decreases s.len(), 0int,
{
    if s.len() == 0 {
        Err(Error::UnexpectedStructure)
    } else if s[0] == INT_OPEN {
        match spec_parse_int(s) {
            Ok((n, used)) => Ok((NodeView::Int(n), used)),
            Err(e) => Err(e),
        }
    } else if is_digit(s[0]) {
        match spec_parse_string(s) {
            Ok((b, used)) => Ok((NodeView::Bytes(b), used)),
            Err(e) => Err(e),
        }
    } else if s[0] == LIST_OPEN {
        match spec_parse_items(s.subrange(1, s.len() as int)) {
            Ok((items, used)) => Ok((NodeView::List(items), 1 + used)),
            Err(e) => Err(e),
        }
    } else if s[0] == DICT_OPEN {
        match spec_parse_pairs(s.subrange(1, s.len() as int)) {
            Ok((pairs, used)) => Ok((NodeView::Dict(pairs), 1 + used)),
            Err(e) => Err(e),
        }
    } else {
        Err(Error::UnexpectedStructure)
    }
}

/// Parses list elements from the front of `s` up to and including the end
/// marker. Returns the elements and the consumed length. The bound checks
/// on each element's consumed length justify termination; they always hold
/// of a successful element parse.
pub open spec fn spec_parse_items(s: Seq<u8>) -> Result<(Seq<NodeView>, int), Error>
    decreases s.len(), 1int,
{
    if s.len() == 0 {
        Err(Error::UnexpectedStructure)
    } else if s[0] == END_MARK {
        Ok((Seq::empty(), 1))
    } else {
        match spec_parse_node(s) {
            Ok((v, n)) => if 1 <= n <= s.len() {
                match spec_parse_items(s.subrange(n, s.len() as int)) {
                    Ok((items, m)) => Ok((seq![v] + items, n + m)),
                    Err(e) => Err(e),
                }
            } else {
                Err(Error::UnexpectedStructure)
            },
            Err(e) => Err(e),
        }
    }
}

/// Parses dictionary entries from the front of `s` up to and including the
/// end marker: each entry is a byte-string key followed by a node of any
/// kind. A non-string node at a key position is a structural error.
pub open spec fn spec_parse_pairs(s: Seq<u8>) -> Result<(Seq<(Seq<u8>, NodeView)>, int), Error>
    decreases s.len(), 1int,
{
    if s.len() == 0 {
        Err(Error::UnexpectedStructure)
    } else if s[0] == END_MARK {
        Ok((Seq::empty(), 1))
    } else if !is_digit(s[0]) {
        Err(Error::UnexpectedStructure)
    } else {
        match spec_parse_string(s) {
            Ok((key, n)) => if 1 <= n <= s.len() {
                let t = s.subrange(n, s.len() as int);
                match spec_parse_node(t) {
                    Ok((v, m)) => if 1 <= m <= t.len() {
                        match spec_parse_pairs(t.subrange(m, t.len() as int)) {
                            Ok((pairs, p)) => Ok((seq![(key, v)] + pairs, n + m + p)),
                            Err(e) => Err(e),
                        }
                    } else {
                        Err(Error::UnexpectedStructure)
                    },
                    Err(e) => Err(e),
                }
            } else {
                Err(Error::UnexpectedStructure)
            },
            Err(e) => Err(e),
        }
    }
}

/// Decodes exactly one top-level node from `s`: the node at the front,
/// with no byte left over.
pub open spec fn spec_decode(s: Seq<u8>) -> Result<NodeView, Error> {
    match spec_parse_node(s) {
        Ok((v, n)) => if n == s.len() {
            Ok(v)
        } else {
            Err(Error::TrailingBytes)
        },
        Err(e) => Err(e),
    }
}

} // verus!
