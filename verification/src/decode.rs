//! The decode engine: a cursor-based reader that walks one borrowed input
//! buffer left to right, dispatching on the lookahead byte, and produces a
//! structured value whose byte strings borrow from the input. Every
//! function is proved to agree with the grammar's parse functions.

use vstd::prelude::*;

use vstd::slice::slice_subrange;

use crate::digits::{
    lemma_digit_run_is, lemma_digits_val_extend, lemma_digits_val_grow,
};
use crate::grammar::{
    is_digit, spec_decode, spec_digits_val, spec_parse_int, spec_parse_items, spec_parse_node,
    spec_parse_pairs, spec_parse_string, spec_parse_uint, NodeView, DICT_OPEN, END_MARK, INT_OPEN,
    LEN_SEP, LIST_OPEN,
};
use crate::value::{node_of, nodes_of, Value};
use crate::Error;

verus! {

/// The bytes of `input` from `pos` on.
pub open spec fn suffix(input: Seq<u8>, pos: int) -> Seq<u8> {
    input.subrange(pos, input.len() as int)
}

/// Reads the decimal number at `pos`: at least one digit, no leading zero
/// other than the literal `0`, value within the unsigned 64-bit range.
/// Returns the value and the position after the digits.
fn parse_uint_at(input: &[u8], pos: usize) -> (r: Result<(u64, usize), Error>)
    requires
        pos <= input@.len(),
    ensures
        match r {
            Ok((n, end)) => pos < end <= input@.len() && spec_parse_uint(
                suffix(input@, pos as int),
            ) == Ok::<(u64, int), Error>((n, end - pos)),
            Err(e) => spec_parse_uint(suffix(input@, pos as int)) == Err::<(u64, int), Error>(e),
        },
{
    let ghost s = suffix(input@, pos as int);
    let len = input.len();
    let mut end = pos;
    loop
        invariant
            pos <= end <= len,
            len == input@.len(),
            forall|j: int| pos <= j < end ==> is_digit(#[trigger] input@[j]),
        ensures
            pos <= end <= len,
            forall|j: int| pos <= j < end ==> is_digit(#[trigger] input@[j]),
            end == len || !is_digit(input@[end as int]),
        decreases len - end,
    {
        if end >= len {
            break ;
        }
        let b = input[end];
        if !(48 <= b && b <= 57) {
            break ;
        }
        end = end + 1;
    }
    proof {
        assert(forall|j: int| 0 <= j < s.len() ==> s[j] == input@[pos + j]);
        lemma_digit_run_is(s, end - pos);
    }
    if end == pos {
        return Err(Error::MalformedPrimitive);
    }
    if input[pos] == 48 && end - pos > 1 {
        return Err(Error::MalformedPrimitive);
    }
    let mut val: u64 = 0;
    let mut i = pos;
    proof {
        assert(s.subrange(0, 0) =~= Seq::<u8>::empty());
    }
    while i < end
        invariant
            pos < end <= len,
            pos <= i <= end,
            len == input@.len(),
            s == suffix(input@, pos as int),
            forall|j: int| pos <= j < end ==> is_digit(#[trigger] input@[j]),
            crate::grammar::digit_run_len(s) == end - pos,
            !(s[0] == 48 && end - pos > 1),
            val == spec_digits_val(s.subrange(0, i - pos)),
        decreases end - i,
    {
        let b = input[i];
        let d = (b - 48) as u64;
        proof {
            assert(s[i - pos] == input@[i as int]);
            lemma_digits_val_extend(s, i - pos);
        }
        if val > 1844674407370955161 || (val == 1844674407370955161 && d > 5) {
            proof {
                assert(spec_digits_val(s.subrange(0, i - pos + 1)) > u64::MAX);
                lemma_digits_val_grow(s, i - pos + 1, end - pos);
            }
            return Err(Error::IntegerOverflow);
        }
        val = val * 10 + d;
        i = i + 1;
    }
    Ok((val, end))
}

/// Reads the integer node at `pos`, which must start with the integer-open
/// marker: a digit run terminated by the end marker.
fn parse_int_at(input: &[u8], pos: usize) -> (r: Result<(u64, usize), Error>)
    requires
        pos < input@.len(),
        input@[pos as int] == INT_OPEN,
    ensures
        match r {
            Ok((n, end)) => pos < end <= input@.len() && spec_parse_int(
                suffix(input@, pos as int),
            ) == Ok::<(u64, int), Error>((n, end - pos)),
            Err(e) => spec_parse_int(suffix(input@, pos as int)) == Err::<(u64, int), Error>(e),
        },
{
    let ghost s = suffix(input@, pos as int);
    let ghost t = s.subrange(1, s.len() as int);
    proof {
        assert(t =~= suffix(input@, pos as int + 1));
    }
    let len = input.len();
    match parse_uint_at(input, pos + 1) {
        Ok((n, dend)) => {
            if dend < len && input[dend] == END_MARK {
                proof {
                    assert(t[dend - pos - 1] == input@[dend as int]);
                }
                Ok((n, dend + 1))
            } else {
                proof {
                    if dend < len {
                        assert(t[dend - pos - 1] == input@[dend as int]);
                    }
                }
                Err(Error::MalformedPrimitive)
            }
        },
        Err(e) => Err(e),
    }
}

/// Reads the byte string at `pos`: a decimal length, the separator, then
/// exactly that many raw bytes, which must all be present. The returned
/// slice borrows from the input; nothing is copied.
fn parse_string_at<'de>(input: &'de [u8], pos: usize) -> (r: Result<(&'de [u8], usize), Error>)
    requires
        pos <= input@.len(),
    ensures
        match r {
            Ok((b, end)) => pos < end <= input@.len() && spec_parse_string(
                suffix(input@, pos as int),
            ) == Ok::<(Seq<u8>, int), Error>((b@, end - pos)),
            Err(e) => spec_parse_string(suffix(input@, pos as int)) == Err::<(Seq<u8>, int), Error>(
                e,
            ),
        },
{
    let ghost s = suffix(input@, pos as int);
    let len = input.len();
    match parse_uint_at(input, pos) {
        Ok((n, dend)) => {
            if dend < len && input[dend] == LEN_SEP {
                proof {
                    assert(s[dend - pos] == input@[dend as int]);
                }
                let start = dend + 1;
                if n <= (len - start) as u64 {
                    let end = start + (n as usize);
                    let b = slice_subrange(input, start, end);
                    proof {
                        assert(b@ =~= s.subrange(dend - pos + 1, dend - pos + 1 + n as int));
                    }
                    Ok((b, end))
                } else {
                    Err(Error::MalformedPrimitive)
                }
            } else {
                proof {
                    if dend < len {
                        assert(s[dend - pos] == input@[dend as int]);
                    }
                }
                Err(Error::MalformedPrimitive)
            }
        },
        Err(e) => Err(e),
    }
}

/// What a run of already-parsed list elements contributes to the parse of
/// the suffix they were read from: the elements go in front, their length
/// is added to the consumed count, and an error passes through.
spec fn items_step(
    prefix: Seq<NodeView>,
    used: int,
    r: Result<(Seq<NodeView>, int), Error>,
) -> Result<(Seq<NodeView>, int), Error> {
    match r {
        Ok((items, m)) => Ok((prefix + items, used + m)),
        Err(e) => Err(e),
    }
}

/// The same, for dictionary entries.
spec fn pairs_step(
    prefix: Seq<(Seq<u8>, NodeView)>,
    used: int,
    r: Result<(Seq<(Seq<u8>, NodeView)>, int), Error>,
) -> Result<(Seq<(Seq<u8>, NodeView)>, int), Error> {
    match r {
        Ok((pairs, m)) => Ok((prefix + pairs, used + m)),
        Err(e) => Err(e),
    }
}

proof fn lemma_items_step_push(
    prefix: Seq<NodeView>,
    used: int,
    v: NodeView,
    n: int,
    x: Result<(Seq<NodeView>, int), Error>,
)
    ensures
        items_step(prefix, used, items_step(seq![v], n, x)) == items_step(
            prefix.push(v),
            used + n,
            x,
        ),
{
    if x is Ok {
        assert(prefix + (seq![v] + x->Ok_0.0) =~= prefix.push(v) + x->Ok_0.0);
    }
}

proof fn lemma_pairs_step_push(
    prefix: Seq<(Seq<u8>, NodeView)>,
    used: int,
    kv: (Seq<u8>, NodeView),
    n: int,
    x: Result<(Seq<(Seq<u8>, NodeView)>, int), Error>,
)
    ensures
        pairs_step(prefix, used, pairs_step(seq![kv], n, x)) == pairs_step(
            prefix.push(kv),
            used + n,
            x,
        ),
{
    if x is Ok {
        assert(prefix + (seq![kv] + x->Ok_0.0) =~= prefix.push(kv) + x->Ok_0.0);
    }
}

/// Reads the node at `pos`, dispatching on the lookahead byte: a digit
/// opens a byte string, and the three markers open an integer, a list, or
/// a dictionary.
fn parse_node_at<'de>(input: &'de [u8], pos: usize) -> (r: Result<(Value<'de>, usize), Error>)
    requires
        pos <= input@.len(),
    ensures
        match r {
            Ok((v, end)) => pos < end <= input@.len() && spec_parse_node(
                suffix(input@, pos as int),
            ) == Ok::<(NodeView, int), Error>((v@, end - pos)),
            Err(e) => spec_parse_node(suffix(input@, pos as int)) == Err::<
                (NodeView, int),
                Error,
            >(e),
        },
    decreases input@.len() - pos, 0int,
{
    let ghost s = suffix(input@, pos as int);
    let len = input.len();
    if pos >= len {
        return Err(Error::UnexpectedStructure);
    }
    let b = input[pos];
    proof {
        assert(s[0] == input@[pos as int]);
    }
    if b == INT_OPEN {
        match parse_int_at(input, pos) {
            Ok((n, end)) => Ok((Value::Int(n), end)),
            Err(e) => Err(e),
        }
    } else if 48 <= b && b <= 57 {
        match parse_string_at(input, pos) {
            Ok((bs, end)) => Ok((Value::Bytes(bs), end)),
            Err(e) => Err(e),
        }
    } else if b == LIST_OPEN {
        proof {
            assert(s.subrange(1, s.len() as int) =~= suffix(input@, pos as int + 1));
        }
        match parse_items_at(input, pos + 1) {
            Ok((items, end)) => Ok((Value::List(items), end)),
            Err(e) => Err(e),
        }
    } else if b == DICT_OPEN {
        proof {
            assert(s.subrange(1, s.len() as int) =~= suffix(input@, pos as int + 1));
        }
        match parse_pairs_at(input, pos + 1) {
            Ok((pairs, end)) => Ok((Value::Dict(pairs), end)),
            Err(e) => Err(e),
        }
    } else {
        Err(Error::UnexpectedStructure)
    }
}

/// Reads list elements from `pos` up to and including the end marker.
fn parse_items_at<'de>(input: &'de [u8], pos: usize) -> (r: Result<
    (Vec<Value<'de>>, usize),
    Error,
>)
    requires
        pos <= input@.len(),
    ensures
        match r {
            Ok((items, end)) => pos < end <= input@.len() && spec_parse_items(
                suffix(input@, pos as int),
            ) == Ok::<(Seq<NodeView>, int), Error>((nodes_of(items@), end - pos)),
            Err(e) => spec_parse_items(suffix(input@, pos as int)) == Err::<
                (Seq<NodeView>, int),
                Error,
            >(e),
        },
    decreases input@.len() - pos, 1int,
{
    let ghost s0 = suffix(input@, pos as int);
    let len = input.len();
    let mut items: Vec<Value<'de>> = Vec::new();
    let mut cur = pos;
    proof {
        assert(nodes_of(items@) =~= Seq::<NodeView>::empty());
        let x = spec_parse_items(suffix(input@, cur as int));
        if x is Ok {
            assert(Seq::<NodeView>::empty() + x->Ok_0.0 =~= x->Ok_0.0);
        }
    }
    loop
        invariant
            pos <= cur <= len,
            len == input@.len(),
            s0 == suffix(input@, pos as int),
            spec_parse_items(s0) == items_step(
                nodes_of(items@),
                cur - pos,
                spec_parse_items(suffix(input@, cur as int)),
            ),
        decreases len - cur,
    {
        let ghost sc = suffix(input@, cur as int);
        if cur >= len {
            return Err(Error::UnexpectedStructure);
        }
        let b = input[cur];
        proof {
            assert(sc[0] == input@[cur as int]);
        }
        if b == END_MARK {
            proof {
                assert(nodes_of(items@) + Seq::<NodeView>::empty() =~= nodes_of(items@));
            }
            return Ok((items, cur + 1));
        }
        match parse_node_at(input, cur) {
            Ok((v, end)) => {
                proof {
                    assert(sc.subrange(end - cur, sc.len() as int) =~= suffix(
                        input@,
                        end as int,
                    ));
                    assert(spec_parse_items(sc) == items_step(
                        seq![node_of(v)],
                        end - cur,
                        spec_parse_items(suffix(input@, end as int)),
                    ));
                    lemma_items_step_push(
                        nodes_of(items@),
                        cur - pos,
                        node_of(v),
                        end - cur,
                        spec_parse_items(suffix(input@, end as int)),
                    );
                    crate::value::lemma_nodes_of_push(items@, v);
                }
                items.push(v);
                cur = end;
            },
            Err(e) => {
                return Err(e);
            },
        }
    }
}

/// Reads dictionary entries from `pos` up to and including the end marker:
/// each entry is a byte-string key followed by a node of any kind. A
/// non-string node at a key position is a structural error.
fn parse_pairs_at<'de>(input: &'de [u8], pos: usize) -> (r: Result<
    (Vec<(&'de [u8], Value<'de>)>, usize),
    Error,
>)
    requires
        pos <= input@.len(),
    ensures
        match r {
            Ok((pairs, end)) => pos < end <= input@.len() && spec_parse_pairs(
                suffix(input@, pos as int),
            ) == Ok::<(Seq<(Seq<u8>, NodeView)>, int), Error>(
                (crate::value::entries_of(pairs@), end - pos),
            ),
            Err(e) => spec_parse_pairs(suffix(input@, pos as int)) == Err::<
                (Seq<(Seq<u8>, NodeView)>, int),
                Error,
            >(e),
        },
    decreases input@.len() - pos, 1int,
{
    let ghost s0 = suffix(input@, pos as int);
    let len = input.len();
    let mut pairs: Vec<(&'de [u8], Value<'de>)> = Vec::new();
    let mut cur = pos;
    proof {
        assert(crate::value::entries_of(pairs@) =~= Seq::<(Seq<u8>, NodeView)>::empty());
        let x = spec_parse_pairs(suffix(input@, cur as int));
        if x is Ok {
            assert(Seq::<(Seq<u8>, NodeView)>::empty() + x->Ok_0.0 =~= x->Ok_0.0);
        }
    }
    loop
        invariant
            pos <= cur <= len,
            len == input@.len(),
            s0 == suffix(input@, pos as int),
            spec_parse_pairs(s0) == pairs_step(
                crate::value::entries_of(pairs@),
                cur - pos,
                spec_parse_pairs(suffix(input@, cur as int)),
            ),
        decreases len - cur,
    {
        let ghost sc = suffix(input@, cur as int);
        if cur >= len {
            return Err(Error::UnexpectedStructure);
        }
        let b = input[cur];
        proof {
            assert(sc[0] == input@[cur as int]);
        }
        if b == END_MARK {
            proof {
                assert(crate::value::entries_of(pairs@) + Seq::<(Seq<u8>, NodeView)>::empty()
                    =~= crate::value::entries_of(pairs@));
            }
            return Ok((pairs, cur + 1));
        }
        if !(48 <= b && b <= 57) {
            return Err(Error::UnexpectedStructure);
        }
        match parse_string_at(input, cur) {
            Ok((key, kend)) => {
                proof {
                    assert(sc.subrange(kend - cur, sc.len() as int) =~= suffix(
                        input@,
                        kend as int,
                    ));
                }
                match parse_node_at(input, kend) {
                    Ok((v, vend)) => {
                        proof {
                            let t = sc.subrange(kend - cur, sc.len() as int);
                            assert(t.subrange(vend - kend, t.len() as int) =~= suffix(
                                input@,
                                vend as int,
                            ));
                            assert(spec_parse_pairs(sc) == pairs_step(
                                seq![(key@, node_of(v))],
                                vend - cur,
                                spec_parse_pairs(suffix(input@, vend as int)),
                            ));
                            lemma_pairs_step_push(
                                crate::value::entries_of(pairs@),
                                cur - pos,
                                (key@, node_of(v)),
                                vend - cur,
                                spec_parse_pairs(suffix(input@, vend as int)),
                            );
                            crate::value::lemma_entries_of_push(pairs@, key, v);
                        }
                        pairs.push((key, v));
                        cur = vend;
                    },
                    Err(e) => {
                        return Err(e);
                    },
                }
            },
            Err(e) => {
                return Err(e);
            },
        }
    }
}

/// The decode engine's state: an immutable reference to the full input
/// buffer and a single mutable cursor. All sub-decodes advance the same
/// cursor; it only ever moves forward. Callers that drive a decode step by
/// step (a binding that maps nodes onto a target shape) use these methods;
/// a whole-value decode is `decode_value`.
pub struct Deserializer<'de> {
    input: &'de [u8],
    pos: usize,
}

impl<'de> Deserializer<'de> {
    /// The cursor never passes the end of the buffer.
    #[verifier::type_invariant]
    spec fn wf(self) -> bool {
        self.pos <= self.input@.len()
    }

    /// The whole input buffer.
    pub closed spec fn buf(self) -> Seq<u8> {
        self.input@
    }

    /// The bytes not yet consumed.
    pub closed spec fn remaining(self) -> Seq<u8> {
        suffix(self.input@, self.pos as int)
    }

    /// Borrows `input` for the duration of one top-level decode, with the
    /// cursor at the start.
    pub fn from_bytes(input: &'de [u8]) -> (d: Deserializer<'de>)
        ensures
            d.buf() == input@,
            d.remaining() == input@,
    {
        proof {
            assert(suffix(input@, 0) =~= input@);
        }
        Deserializer { input, pos: 0 }
    }

    /// The lookahead byte at the cursor, if any byte remains.
    pub fn peek(&self) -> (r: Option<u8>)
        ensures
            match r {
                Some(b) => self.remaining().len() > 0 && b == self.remaining()[0],
                None => self.remaining().len() == 0,
            },
    {
        proof {
            use_type_invariant(&*self);
        }
        if self.pos < self.input.len() {
            Some(self.input[self.pos])
        } else {
            None
        }
    }

    /// Whether the whole input has been consumed.
    pub fn done(&self) -> (r: bool)
        ensures
            r == (self.remaining().len() == 0),
    {
        proof {
            use_type_invariant(&*self);
        }
        self.pos >= self.input.len()
    }

    /// Reads an integer node at the cursor: the integer-open marker must be
    /// the lookahead byte, else nothing is consumed.
    pub fn parse_int(&mut self) -> (r: Result<u64, Error>)
        ensures
            final(self).buf() == old(self).buf(),
            match r {
                Ok(n) => {
                    &&& old(self).remaining().len() > 0 && old(self).remaining()[0] == INT_OPEN
                    &&& spec_parse_int(old(self).remaining()) matches Ok((n2, used)) && n2 == n
                        && final(self).remaining() == old(self).remaining().subrange(
                        used,
                        old(self).remaining().len() as int,
                    )
                },
                Err(e) => *final(self) == *old(self) && (if old(self).remaining().len() == 0 || old(
                    self,
                ).remaining()[0] != INT_OPEN {
                    e == Error::UnexpectedStructure
                } else {
                    spec_parse_int(old(self).remaining()) == Err::<(u64, int), Error>(e)
                }),
            },
    {
        proof {
            use_type_invariant(&*self);
        }
        let len = self.input.len();
        if self.pos >= len || self.input[self.pos] != INT_OPEN {
            return Err(Error::UnexpectedStructure);
        }
        match parse_int_at(self.input, self.pos) {
            Ok((n, end)) => {
                let ghost orig = *self;
                self.pos = end;
                proof {
                    assert(self.remaining() =~= orig.remaining().subrange(
                        end - orig.pos,
                        orig.remaining().len() as int,
                    ));
                }
                Ok(n)
            },
            Err(e) => Err(e),
        }
    }

    /// Reads a byte-string node at the cursor. The returned slice borrows
    /// from the input buffer; nothing is copied. On an error nothing is
    /// consumed.
    pub fn parse_byte_string(&mut self) -> (r: Result<&'de [u8], Error>)
        ensures
            final(self).buf() == old(self).buf(),
            match r {
                Ok(b) => spec_parse_string(old(self).remaining()) matches Ok((b2, used)) && b2
                    == b@ && final(self).remaining() == old(self).remaining().subrange(
                    used,
                    old(self).remaining().len() as int,
                ),
                Err(e) => *final(self) == *old(self) && spec_parse_string(old(self).remaining())
                    == Err::<(Seq<u8>, int), Error>(e),
            },
    {
        proof {
            use_type_invariant(&*self);
        }
        let inp: &'de [u8] = self.input;
        match parse_string_at(inp, self.pos) {
            Ok((b, end)) => {
                let ghost orig = *self;
                self.pos = end;
                proof {
                    assert(self.remaining() =~= orig.remaining().subrange(
                        end - orig.pos,
                        orig.remaining().len() as int,
                    ));
                }
                Ok(b)
            },
            Err(e) => Err(e),
        }
    }

    /// Consumes the list-open marker, which must be the lookahead byte.
    pub fn consume_list_open(&mut self) -> (r: Result<(), Error>)
        ensures
            final(self).buf() == old(self).buf(),
            match r {
                Ok(_) => old(self).remaining().len() > 0 && old(self).remaining()[0] == LIST_OPEN
                    && final(self).remaining() == old(self).remaining().drop_first(),
                Err(e) => *final(self) == *old(self) && e == Error::UnexpectedStructure && (old(self).remaining().len() == 0 || old(self).remaining()[0] != LIST_OPEN),
            },
    {
        self.consume_marker(LIST_OPEN)
    }

    /// Consumes the dictionary-open marker, which must be the lookahead
    /// byte.
    pub fn consume_dict_open(&mut self) -> (r: Result<(), Error>)
        ensures
            final(self).buf() == old(self).buf(),
            match r {
                Ok(_) => old(self).remaining().len() > 0 && old(self).remaining()[0] == DICT_OPEN
                    && final(self).remaining() == old(self).remaining().drop_first(),
                Err(e) => *final(self) == *old(self) && e == Error::UnexpectedStructure && (old(self).remaining().len() == 0 || old(self).remaining()[0] != DICT_OPEN),
            },
    {
        self.consume_marker(DICT_OPEN)
    }

    /// Consumes the end marker that closes a list, a dictionary, or an
    /// integer; it must be the lookahead byte.
    pub fn consume_end_marker(&mut self) -> (r: Result<(), Error>)
        ensures
            final(self).buf() == old(self).buf(),
            match r {
                Ok(_) => old(self).remaining().len() > 0 && old(self).remaining()[0] == END_MARK
                    && final(self).remaining() == old(self).remaining().drop_first(),
                Err(e) => *final(self) == *old(self) && e == Error::UnexpectedStructure && (old(self).remaining().len() == 0 || old(self).remaining()[0] != END_MARK),
            },
    {
        self.consume_marker(END_MARK)
    }

    /// Consumes one expected marker byte at the cursor.
    fn consume_marker(&mut self, m: u8) -> (r: Result<(), Error>)
        ensures
            final(self).buf() == old(self).buf(),
            match r {
                Ok(_) => old(self).remaining().len() > 0 && old(self).remaining()[0] == m && final(self).remaining() == old(self).remaining().drop_first(),
                Err(e) => *final(self) == *old(self) && e == Error::UnexpectedStructure && (old(self).remaining().len() == 0 || old(self).remaining()[0] != m),
            },
    {
        proof {
            use_type_invariant(&*self);
        }
        if self.pos < self.input.len() && self.input[self.pos] == m {
            let ghost orig = *self;
            self.pos = self.pos + 1;
            proof {
                assert(self.remaining() =~= orig.remaining().drop_first());
            }
            Ok(())
        } else {
            Err(Error::UnexpectedStructure)
        }
    }
}

/// Decodes exactly one top-level value from `input`: the node at the
/// front, with no byte left over. Byte strings in the result borrow from
/// `input`.
pub fn decode_value<'de>(input: &'de [u8]) -> (r: Result<Value<'de>, Error>)
    ensures
        match r {
            Ok(v) => spec_decode(input@) == Ok::<NodeView, Error>(v@),
            Err(e) => spec_decode(input@) == Err::<NodeView, Error>(e),
        },
{
    proof {
        assert(suffix(input@, 0) =~= input@);
    }
    match parse_node_at(input, 0) {
        Ok((v, end)) => if end == input.len() {
            Ok(v)
        } else {
            Err(Error::TrailingBytes)
        },
        Err(e) => Err(e),
    }
}

} // verus!
