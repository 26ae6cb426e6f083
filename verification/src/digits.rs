//! Facts about decimal digit runs: the run that `spec_digits` produces is
//! the unique digit run without a leading zero for its value, and
//! `spec_parse_uint` reads exactly that run back.

use vstd::prelude::*;

use vstd::arithmetic::div_mod::{lemma_fundamental_div_mod, lemma_fundamental_div_mod_converse};

use crate::grammar::{
    digit_run_len, digit_val, is_digit, spec_digits, spec_digits_val, spec_parse_uint,
};
use crate::Error;

verus! {

/// The digit run for `n` is nonempty, consists of digits, and starts with
/// the zero digit only when `n` is zero.
pub(crate) proof fn lemma_digits_form(n: nat)
    ensures
        spec_digits(n).len() >= 1,
        forall|i: int| 0 <= i < spec_digits(n).len() ==> is_digit(#[trigger] spec_digits(n)[i]),
        spec_digits(n)[0] == 48 <==> n == 0,
    decreases n,
{
    if n < 10 {
    } else {
        lemma_digits_form(n / 10);
        assert(n / 10 >= 1) by {
            lemma_fundamental_div_mod(n as int, 10);
        }
        assert(spec_digits(n)[0] == spec_digits(n / 10)[0]);
    }
}

/// Reading the digit run for `n` back as a number yields `n`.
pub(crate) proof fn lemma_digits_val_digits(n: nat)
    ensures
        spec_digits_val(spec_digits(n)) == n,
    decreases n,
{
    if n < 10 {
        assert(spec_digits(n).drop_last() =~= Seq::<u8>::empty());
        assert(spec_digits_val(Seq::<u8>::empty()) == 0);
        assert(spec_digits(n).last() == (48 + n) as u8);
        assert(digit_val((48 + n) as u8) == n);
    } else {
        lemma_digits_val_digits(n / 10);
        assert(spec_digits(n).drop_last() =~= spec_digits(n / 10));
        assert(spec_digits(n).last() == (48 + n % 10) as u8);
        lemma_fundamental_div_mod(n as int, 10);
        assert(digit_val((48 + n % 10) as u8) == n % 10);
        assert(spec_digits_val(spec_digits(n)) == (n / 10) * 10 + n % 10);
    }
}

/// A digit run without a leading zero names a positive number.
pub(crate) proof fn lemma_digits_val_pos(ds: Seq<u8>)
    requires
        ds.len() >= 1,
        forall|i: int| 0 <= i < ds.len() ==> is_digit(#[trigger] ds[i]),
        ds[0] != 48,
    ensures
        spec_digits_val(ds) >= 1,
    decreases ds.len(),
{
    if ds.len() == 1 {
    } else {
        assert(ds.drop_last()[0] == ds[0]);
        lemma_digits_val_pos(ds.drop_last());
    }
}

/// A digit run without a leading zero is the run that `spec_digits`
/// produces for its value: digit runs in canonical form are unique.
pub(crate) proof fn lemma_digits_of_val(ds: Seq<u8>)
    requires
        ds.len() >= 1,
        forall|i: int| 0 <= i < ds.len() ==> is_digit(#[trigger] ds[i]),
        ds[0] != 48 || ds.len() == 1,
    ensures
        spec_digits(spec_digits_val(ds)) == ds,
    decreases ds.len(),
{
    if ds.len() == 1 {
        assert(spec_digits_val(ds) == digit_val(ds[0])) by {
            assert(ds.drop_last() =~= Seq::<u8>::empty());
            assert(spec_digits_val(Seq::<u8>::empty()) == 0);
            assert(ds.last() == ds[0]);
        }
        assert(spec_digits(digit_val(ds[0])) =~= ds);
    } else {
        let p = ds.drop_last();
        let d = digit_val(ds.last());
        assert(p[0] == ds[0]);
        lemma_digits_val_pos(p);
        let v = spec_digits_val(ds);
        assert(v == spec_digits_val(p) * 10 + d);
        assert(v >= 10);
        lemma_fundamental_div_mod_converse(v as int, 10, spec_digits_val(p) as int, d as int);
        lemma_digits_of_val(p);
        assert((48 + v % 10) as u8 == ds.last());
        assert(spec_digits(v) == p.push(ds.last()));
        assert(p.push(ds.last()) =~= ds);
    }
}

/// How far the digit run at the front of `s` reaches: every byte before it
/// is a digit and the byte after it, if any, is not.
pub(crate) proof fn lemma_digit_run_props(s: Seq<u8>)
    ensures
        0 <= digit_run_len(s) <= s.len(),
        forall|i: int| 0 <= i < digit_run_len(s) ==> is_digit(#[trigger] s[i]),
        digit_run_len(s) == s.len() || !is_digit(s[digit_run_len(s)]),
    decreases s.len(),
{
    if s.len() == 0 || !is_digit(s[0]) {
    } else {
        let t = s.subrange(1, s.len() as int);
        lemma_digit_run_props(t);
        assert(forall|i: int| 1 <= i < s.len() ==> s[i] == t[i - 1]);
    }
}

/// A digit run followed by anything that does not start with a digit is
/// measured exactly by `digit_run_len`.
pub(crate) proof fn lemma_digit_run_of(ds: Seq<u8>, rest: Seq<u8>)
    requires
        forall|i: int| 0 <= i < ds.len() ==> is_digit(#[trigger] ds[i]),
        rest.len() == 0 || !is_digit(rest[0]),
    ensures
        digit_run_len(ds + rest) == ds.len(),
    decreases ds.len(),
{
    let s = ds + rest;
    if ds.len() == 0 {
        assert(s =~= rest);
    } else {
        assert(s[0] == ds[0]);
        assert(s.subrange(1, s.len() as int) =~= ds.subrange(1, ds.len() as int) + rest);
        lemma_digit_run_of(ds.subrange(1, ds.len() as int), rest);
    }
}

/// `spec_parse_uint` accepts the digit run for any unsigned 64-bit value,
/// whatever follows it, and returns that value.
pub(crate) proof fn lemma_parse_uint_of_digits(n: u64, rest: Seq<u8>)
    requires
        rest.len() == 0 || !is_digit(rest[0]),
    ensures
        spec_parse_uint(spec_digits(n as nat) + rest) == Ok::<(u64, int), Error>(
            (n, spec_digits(n as nat).len() as int),
        ),
{
    let ds = spec_digits(n as nat);
    let s = ds + rest;
    lemma_digits_form(n as nat);
    lemma_digit_run_of(ds, rest);
    assert(s[0] == ds[0]);
    assert(s.subrange(0, ds.len() as int) =~= ds);
    lemma_digits_val_digits(n as nat);
}

/// What a successful `spec_parse_uint` tells about its input: the consumed
/// prefix is the canonical digit run for the value, and the byte after it,
/// if any, is not a digit.
pub(crate) proof fn lemma_parse_uint_canon(s: Seq<u8>)
    ensures
        spec_parse_uint(s) matches Ok((n, k)) ==> {
            &&& 1 <= k <= s.len()
            &&& s.subrange(0, k) == spec_digits(n as nat)
            &&& k == s.len() || !is_digit(s[k])
        },
{
    lemma_digit_run_props(s);
    if spec_parse_uint(s) is Ok {
        let k = digit_run_len(s);
        let ds = s.subrange(0, k);
        assert(ds[0] == s[0]);
        lemma_digits_of_val(ds);
    }
}

/// A digit run is measured by where it stops: if the first `k` bytes are
/// digits and the byte after them, if any, is not, the run has length `k`.
pub(crate) proof fn lemma_digit_run_is(s: Seq<u8>, k: int)
    requires
        0 <= k <= s.len(),
        forall|j: int| 0 <= j < k ==> is_digit(#[trigger] s[j]),
        k == s.len() || !is_digit(s[k]),
    ensures
        digit_run_len(s) == k,
    decreases s.len(),
{
    if s.len() == 0 {
    } else if !is_digit(s[0]) {
    } else {
        let t = s.subrange(1, s.len() as int);
        assert(forall|j: int| 0 <= j < t.len() ==> t[j] == s[j + 1]);
        lemma_digit_run_is(t, k - 1);
    }
}

/// Reading one more digit multiplies the prefix value by ten and adds it.
pub(crate) proof fn lemma_digits_val_extend(s: Seq<u8>, i: int)
    requires
        0 <= i < s.len(),
    ensures
        spec_digits_val(s.subrange(0, i + 1)) == spec_digits_val(s.subrange(0, i)) * 10
            + digit_val(s[i]),
{
    let a = s.subrange(0, i + 1);
    assert(a.drop_last() =~= s.subrange(0, i));
    assert(a.last() == s[i]);
}

/// The value of a digit run never shrinks as the run extends.
pub(crate) proof fn lemma_digits_val_grow(s: Seq<u8>, a: int, b: int)
    requires
        0 <= a <= b <= s.len(),
    ensures
        spec_digits_val(s.subrange(0, a)) <= spec_digits_val(s.subrange(0, b)),
    decreases b - a,
{
    if a < b {
        lemma_digits_val_grow(s, a, b - 1);
        lemma_digits_val_extend(s, b - 1);
    }
}

} // verus!
