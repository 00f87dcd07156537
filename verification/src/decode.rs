//! The decoder: from bytes to the value they hold.

use crate::decimal::{
    all_digits, digit_run, digits_value, lemma_digit_run_is, lemma_digits_value_push,
};
use crate::dict::{
    dict_from_pairs, entries_of, keys_ascending, lemma_from_pairs_of_ascending,
    lemma_push_ascending,
};
use crate::grammar::{
    decode_bytes_spec, decode_dict_spec, decode_entries_spec, decode_i64_spec, decode_int_spec,
    decode_items_spec, decode_list_spec, decode_spec, decode_strict_spec, decode_string_spec,
    decode_value_spec, exact, lemma_decode_value_sound, lemma_prepend_twice, prepend,
    proper_suffix, DecodeError, Decoded,
};
use crate::order::bytes_lt;
use crate::token::{CLOSE, COLON, DICT_OPEN, INT_OPEN, LIST_OPEN, MINUS, NINE, ZERO};
use crate::value::{
    copy_bytes, lemma_dict_model, lemma_insert_model, list_model, BDict, Benc, Value,
};
use vstd::prelude::*;
use vstd::slice::slice_subrange;

verus! {

/// Reads the run of digits that starts at `start`. Returns where the run
/// ends, and the number that the digits denote if it fits in 64 bits.
fn scan_digits(input: &[u8], start: usize) -> (r: (usize, Option<u64>))
    requires
        start <= input.len(),
    ensures
        r.0 == start + digit_run(input@.skip(start as int)),
        r.0 <= input.len(),
        match r.1 {
            Some(n) => n == digits_value(input@.subrange(start as int, r.0 as int)),
            None => digits_value(input@.subrange(start as int, r.0 as int)) > u64::MAX,
        },
{
    let mut i: usize = start;
    let mut acc: u64 = 0;
    let mut fits: bool = true;
    proof {
        assert(input@.subrange(start as int, start as int) =~= Seq::<u8>::empty());
    }
    while i < input.len() && ZERO <= input[i] && input[i] <= NINE
        invariant
            start <= i <= input.len(),
            all_digits(input@.subrange(start as int, i as int)),
            fits ==> acc == digits_value(input@.subrange(start as int, i as int)),
            !fits ==> digits_value(input@.subrange(start as int, i as int)) > u64::MAX,
        decreases input.len() - i,
    {
        let digit: u64 = (input[i] - ZERO) as u64;
        proof {
            let before = input@.subrange(start as int, i as int);
            lemma_digits_value_push(before, input@[i as int]);
            assert(input@.subrange(start as int, i + 1) =~= before.push(input@[i as int]));
        }
        if fits {
            if acc > (u64::MAX - digit) / 10 {
                fits = false;
            } else {
                acc = acc * 10 + digit;
            }
        }
        i += 1;
    }
    proof {
        let s = input@.skip(start as int);
        assert(s.take(i - start) =~= input@.subrange(start as int, i as int));
        lemma_digit_run_is(s, i - start);
    }
    if fits {
        (i, Some(acc))
    } else {
        (i, None)
    }
}

/// Decodes the byte string that starts at `pos`. Returns its bytes and the
/// position behind it.
fn decode_bytes_at(input: &[u8], pos: usize) -> (r: Result<(Vec<u8>, usize), DecodeError>)
    requires
        pos <= input.len(),
    ensures
        match r {
            Ok((bytes, end)) => {
                &&& pos < end <= input.len()
                &&& decode_bytes_spec(input@.skip(pos as int)) == Ok::<_, DecodeError>(
                    (bytes@, input@.skip(end as int)),
                )
            },
            Err(e) => decode_bytes_spec(input@.skip(pos as int)) == Err::<(Seq<u8>, Seq<u8>), _>(e),
        },
{
    let ghost s = input@.skip(pos as int);
    proof {
        reveal(decode_bytes_spec);
    }
    if pos >= input.len() {
        return Err(DecodeError::UnexpectedEof);
    }
    let (colon, length) = scan_digits(input, pos);
    let ghost k = colon - pos;
    proof {
        assert(s.take(k) =~= input@.subrange(pos as int, colon as int));
    }
    if colon == pos {
        return Err(DecodeError::InvalidLengthPrefix);
    }
    if colon - pos > 1 && input[pos] == ZERO {
        return Err(DecodeError::InvalidLengthPrefix);
    }
    if colon == input.len() {
        return Err(DecodeError::UnexpectedEof);
    }
    if input[colon] != COLON {
        return Err(DecodeError::InvalidLengthPrefix);
    }
    let available: usize = input.len() - colon - 1;
    match length {
        None => Err(DecodeError::TruncatedString),
        Some(n) => {
            if n > available as u64 {
                Err(DecodeError::TruncatedString)
            } else {
                let from: usize = colon + 1;
                let end: usize = from + n as usize;
                let bytes = copy_bytes(slice_subrange(input, from, end));
                proof {
                    assert(s.subrange(k + 1, k + 1 + n) =~= input@.subrange(from as int, end as int));
                    assert(s.skip(k + 1 + n) =~= input@.skip(end as int));
                }
                Ok((bytes, end))
            }
        },
    }
}

/// Decodes the integer that starts at `pos`. Returns the number and the
/// position behind it.
fn decode_int_at(input: &[u8], pos: usize) -> (r: Result<(i64, usize), DecodeError>)
    requires
        pos <= input.len(),
    ensures
        match r {
            Ok((n, end)) => {
                &&& pos < end <= input.len()
                &&& decode_int_spec(input@.skip(pos as int)) == Ok::<_, DecodeError>(
                    (n, input@.skip(end as int)),
                )
            },
            Err(e) => decode_int_spec(input@.skip(pos as int)) == Err::<(i64, Seq<u8>), _>(e),
        },
{
    let ghost s = input@.skip(pos as int);
    proof {
        reveal(decode_int_spec);
    }
    if pos >= input.len() {
        return Err(DecodeError::UnexpectedEof);
    }
    if input[pos] != INT_OPEN {
        return Err(DecodeError::MalformedInteger);
    }
    let negative: bool = pos + 1 < input.len() && input[pos + 1] == MINUS;
    let start: usize = if negative {
        pos + 2
    } else {
        pos + 1
    };
    let ghost body = input@.skip(start as int);
    proof {
        if negative {
            assert(s.skip(2) =~= body);
        } else {
            assert(s.skip(1) =~= body);
        }
    }
    if start >= input.len() {
        return Err(DecodeError::UnexpectedEof);
    }
    let (end, magnitude) = scan_digits(input, start);
    let ghost k = end - start;
    proof {
        assert(body.take(k) =~= input@.subrange(start as int, end as int));
    }
    if end == start {
        return Err(DecodeError::MalformedInteger);
    }
    if end - start > 1 && input[start] == ZERO {
        return Err(DecodeError::MalformedInteger);
    }
    if negative {
        if let Some(m) = magnitude {
            if m == 0 {
                return Err(DecodeError::MalformedInteger);
            }
        }
    }
    if end == input.len() {
        return Err(DecodeError::UnexpectedEof);
    }
    if input[end] != CLOSE {
        return Err(DecodeError::MalformedInteger);
    }
    proof {
        assert(body.skip(k + 1) =~= input@.skip(end + 1));
    }
    match magnitude {
        None => Err(DecodeError::MalformedInteger),
        Some(m) => {
            let most: u64 = i64::MAX as u64;
            if negative {
                if m > most + 1 {
                    Err(DecodeError::MalformedInteger)
                } else if m == most + 1 {
                    Ok((i64::MIN, end + 1))
                } else {
                    Ok((-(m as i64), end + 1))
                }
            } else {
                if m > most {
                    Err(DecodeError::MalformedInteger)
                } else {
                    Ok((m as i64, end + 1))
                }
            }
        },
    }
}

/// Whether `r`, the outcome of decoding at `pos`, is what the grammar
/// says: the same value with the rest of the input behind it, or the same
/// error.
pub open spec fn agrees(
    r: Result<(Benc, usize), DecodeError>,
    input: Seq<u8>,
    pos: int,
    expected: Decoded<Value>,
) -> bool {
    match r {
        Ok((v, end)) => {
            &&& pos < end <= input.len()
            &&& expected == Ok::<_, DecodeError>((v@, input.skip(end as int)))
        },
        Err(e) => expected == Err::<(Value, Seq<u8>), _>(e),
    }
}

/// Decodes the value that starts at `pos`, with containers nested at most
/// `depth` deep, strictly or leniently. Returns the value and the position
/// behind it.
fn decode_value_at(input: &[u8], pos: usize, depth: usize, strict: bool) -> (r: Result<
    (Benc, usize),
    DecodeError,
>)
    requires
        pos <= input.len(),
    ensures
        agrees(
            r,
            input@,
            pos as int,
            decode_value_spec(input@.skip(pos as int), depth as nat, strict),
        ),
    decreases input.len() - pos, 2nat,
{
    if pos >= input.len() {
        return Err(DecodeError::UnexpectedEof);
    }
    let first: u8 = input[pos];
    if first == INT_OPEN {
        match decode_int_at(input, pos) {
            Ok((n, end)) => Ok((Benc::I(n), end)),
            Err(e) => Err(e),
        }
    } else if first == LIST_OPEN {
        decode_list_at(input, pos, depth, strict)
    } else if first == DICT_OPEN {
        decode_dict_at(input, pos, depth, strict)
    } else {
        match decode_bytes_at(input, pos) {
            Ok((bytes, end)) => Ok((Benc::S(bytes), end)),
            Err(e) => Err(e),
        }
    }
}

/// Decodes the list that starts at `pos`, with containers nested at most
/// `depth` deep, the list itself counted. Returns the list and the
/// position behind it.
fn decode_list_at(input: &[u8], pos: usize, depth: usize, strict: bool) -> (r: Result<
    (Benc, usize),
    DecodeError,
>)
    requires
        pos <= input.len(),
    ensures
        agrees(
            r,
            input@,
            pos as int,
            decode_list_spec(input@.skip(pos as int), depth as nat, strict),
        ),
    decreases input.len() - pos, 1nat,
{
    if pos >= input.len() {
        return Err(DecodeError::UnexpectedEof);
    }
    if input[pos] != LIST_OPEN {
        return Err(DecodeError::MissingTerminator);
    }
    if depth == 0 {
        return Err(DecodeError::DepthExceeded);
    }
    let ghost inner = (depth - 1) as nat;
    let ghost whole = decode_items_spec(input@.skip(pos + 1), inner, strict);
    let mut items: Vec<Benc> = Vec::new();
    let mut cur: usize = pos + 1;
    proof {
        assert(input@.skip(pos as int).skip(1) =~= input@.skip(pos + 1));
        lemma_prepend_twice(Seq::<Value>::empty(), Seq::<Value>::empty(), whole);
        assert(list_model(items@) =~= Seq::<Value>::empty());
        assert(whole == prepend(Seq::<Value>::empty(), whole)) by {
            if let Ok((found, rest)) = whole {
                assert(Seq::<Value>::empty() + found =~= found);
            }
        }
    }
    while cur < input.len() && input[cur] != CLOSE
        invariant
            pos < cur <= input.len(),
            depth > 0,
            inner == depth - 1,
            decode_list_spec(input@.skip(pos as int), depth as nat, strict) == match whole {
                Ok((found, rest)) => Ok((Value::List(found), rest)),
                Err(e) => Err(e),
            },
            whole == prepend(
                list_model(items@),
                decode_items_spec(input@.skip(cur as int), inner, strict),
            ),
        decreases input.len() - cur,
    {
        let ghost front = list_model(items@);
        match decode_value_at(input, cur, depth - 1, strict) {
            Err(e) => {
                return Err(e);
            },
            Ok((v, end)) => {
                proof {
                    let after = decode_items_spec(input@.skip(end as int), inner, strict);
                    lemma_prepend_twice(front, seq![v@], after);
                    assert(list_model(items@.push(v)) =~= front + seq![v@]);
                }
                items.push(v);
                cur = end;
            },
        }
    }
    if cur >= input.len() {
        return Err(DecodeError::MissingTerminator);
    }
    proof {
        assert(input@.skip(cur as int).skip(1) =~= input@.skip(cur + 1));
        assert(list_model(items@) + Seq::<Value>::empty() =~= list_model(items@));
    }
    Ok((Benc::L(items), cur + 1))
}

/// Decodes the dictionary that starts at `pos`, with containers nested at
/// most `depth` deep, the dictionary itself counted. Returns the
/// dictionary and the position behind it.
fn decode_dict_at(input: &[u8], pos: usize, depth: usize, strict: bool) -> (r: Result<
    (Benc, usize),
    DecodeError,
>)
    requires
        pos <= input.len(),
    ensures
        agrees(
            r,
            input@,
            pos as int,
            decode_dict_spec(input@.skip(pos as int), depth as nat, strict),
        ),
    decreases input.len() - pos, 1nat,
{
    if pos >= input.len() {
        return Err(DecodeError::UnexpectedEof);
    }
    if input[pos] != DICT_OPEN {
        return Err(DecodeError::MissingTerminator);
    }
    if depth == 0 {
        return Err(DecodeError::DepthExceeded);
    }
    let ghost inner = (depth - 1) as nat;
    let ghost whole = decode_entries_spec(input@.skip(pos + 1), inner, strict);
    let ghost mut pairs: Seq<(Seq<u8>, Value)> = Seq::empty();
    let mut dict: BDict = BDict::new();
    let mut ascending: bool = true;
    let mut cur: usize = pos + 1;
    proof {
        assert(input@.skip(pos as int).skip(1) =~= input@.skip(pos + 1));
        lemma_dict_model(&dict);
        assert(dict@ =~= dict_from_pairs(pairs));
        assert(whole == prepend(pairs, whole)) by {
            if let Ok((found, rest)) = whole {
                assert(pairs + found =~= found);
            }
        }
    }
    while cur < input.len() && input[cur] != CLOSE
        invariant
            pos < cur <= input.len(),
            depth > 0,
            inner == depth - 1,
            dict@ == dict_from_pairs(pairs),
            ascending == keys_ascending(pairs),
            ascending ==> dict@ == pairs,
            decode_dict_spec(input@.skip(pos as int), depth as nat, strict) == match whole {
                Ok((found, rest)) => if strict && !keys_ascending(found) {
                    Err(DecodeError::DuplicateKeyPolicyViolation)
                } else {
                    Ok((Value::Dict(dict_from_pairs(found)), rest))
                },
                Err(e) => Err(e),
            },
            whole == prepend(pairs, decode_entries_spec(input@.skip(cur as int), inner, strict)),
        decreases input.len() - cur,
    {
        match decode_bytes_at(input, cur) {
            Err(e) => {
                return Err(e);
            },
            Ok((key, after_key)) => {
                match decode_value_at(input, after_key, depth - 1, strict) {
                    Err(e) => {
                        return Err(e);
                    },
                    Ok((v, end)) => {
                        let ghost before = dict;
                        let ghost entry = (key@, v@);
                        proof {
                            let after = decode_entries_spec(input@.skip(end as int), inner, strict);
                            lemma_prepend_twice(pairs, seq![entry], after);
                            assert(pairs.push(entry).drop_last() =~= pairs);
                            assert(pairs + seq![entry] =~= pairs.push(entry));
                            lemma_push_ascending(pairs, entry.0, entry.1);
                            lemma_dict_model(&dict);
                        }
                        if ascending && !dict.is_empty() {
                            let stored = dict.as_slice();
                            let last = &stored[stored.len() - 1];
                            proof {
                                assert(entries_of(stored@)[stored.len() - 1].0 == last.0@);
                                assert(pairs.last().0 == last.0@);
                            }
                            if !bytes_lt(last.0.as_slice(), key.as_slice()) {
                                ascending = false;
                            }
                        }
                        let ghost k = key@;
                        let ghost value = v;
                        dict.insert(key, v);
                        proof {
                            lemma_insert_model(&before, &dict, k, value);
                            pairs = pairs.push(entry);
                            if ascending {
                                lemma_from_pairs_of_ascending(pairs);
                            }
                        }
                        cur = end;
                    },
                }
            },
        }
    }
    if cur >= input.len() {
        return Err(DecodeError::MissingTerminator);
    }
    proof {
        assert(input@.skip(cur as int).skip(1) =~= input@.skip(cur + 1));
        assert(pairs + Seq::<(Seq<u8>, Value)>::empty() =~= pairs);
    }
    if strict && !ascending {
        return Err(DecodeError::DuplicateKeyPolicyViolation);
    }
    Ok((Benc::D(dict), cur + 1))
}

/// The nesting limit of the decoders that take none: lists and
/// dictionaries may be nested this deep.
pub const DEFAULT_MAX_DEPTH: usize = 256;

/// Whether `r` is what the grammar says: the same item with the same rest
/// of the input, or the same error.
pub open spec fn decoded_as<T: View>(
    r: Result<(T, &[u8]), DecodeError>,
    expected: Decoded<T::V>,
) -> bool {
    match r {
        Ok((item, rest)) => expected == Ok::<_, DecodeError>((item@, rest@)),
        Err(e) => expected == Err::<(T::V, Seq<u8>), _>(e),
    }
}

/// Whether `r` is what the grammar says of an input that has to hold one
/// item and nothing else: the same item, or the same error.
pub open spec fn parsed_as<T: View>(
    r: Result<T, DecodeError>,
    expected: Result<T::V, DecodeError>,
) -> bool {
    match r {
        Ok(item) => expected == Ok::<_, DecodeError>(item@),
        Err(e) => expected == Err::<T::V, _>(e),
    }
}

/// The outcome of decoding at the front of `input`, with the rest of the
/// input in place of the position where the item ends.
fn with_rest<'a, T: View>(input: &'a [u8], r: Result<(T, usize), DecodeError>) -> (out: Result<
    (T, &'a [u8]),
    DecodeError,
>)
    requires
        r matches Ok((_, end)) ==> end <= input.len(),
    ensures
        match r {
            Ok((item, end)) => out matches Ok((same, rest)) && same == item && rest@
                == input@.skip(end as int),
            Err(e) => out == Err::<(T, &'a [u8]), _>(e),
        },
{
    match r {
        Ok((item, end)) => {
            let rest = slice_subrange(input, end, input.len());
            proof {
                assert(rest@ =~= input@.skip(end as int));
            }
            Ok((item, rest))
        },
        Err(e) => Err(e),
    }
}

/// The outcome of decoding an input that has to hold one item and nothing
/// else: bytes left behind the item are an error.
fn without_rest<T: View>(r: Result<(T, &[u8]), DecodeError>) -> (out: Result<T, DecodeError>)
    ensures
        match r {
            Ok((item, rest)) => if rest@.len() == 0 {
                out == Ok::<_, DecodeError>(item)
            } else {
                out == Err::<T, _>(DecodeError::TrailingData)
            },
            Err(e) => out == Err::<T, _>(e),
        },
{
    match r {
        Ok((item, rest)) => {
            if rest.len() == 0 {
                Ok(item)
            } else {
                Err(DecodeError::TrailingData)
            }
        },
        Err(e) => Err(e),
    }
}

/// Decodes the value at the front of `input`. Returns the value and the
/// bytes that follow it.
///
/// Lists and dictionaries may be nested `max_depth` deep; one level more is
/// [`DecodeError::DepthExceeded`]. The entries of a dictionary may come in
/// any order, and the last entry for a key wins; the decoded value has them
/// in ascending key order.
pub fn decode<'a>(input: &'a [u8], max_depth: usize) -> (r: Result<(Benc, &'a [u8]), DecodeError>)
    ensures
        decoded_as(r, decode_spec(input@, max_depth as nat)),
        r matches Ok((v, rest)) ==> {
            &&& v@.wf()
            &&& v@.within_depth(max_depth as nat)
            &&& proper_suffix(rest@, input@)
        },
{
    proof {
        assert(input@.skip(0) =~= input@);
        lemma_decode_value_sound(input@, max_depth as nat, false);
    }
    with_rest(input, decode_value_at(input, 0, max_depth, false))
}

/// Decodes `input`, which has to hold one value and nothing else. Bytes
/// behind the value are [`DecodeError::TrailingData`].
pub fn decode_exact(input: &[u8], max_depth: usize) -> (r: Result<Benc, DecodeError>)
    ensures
        parsed_as(r, exact(decode_spec(input@, max_depth as nat))),
        r matches Ok(v) ==> v@.wf() && v@.within_depth(max_depth as nat),
{
    without_rest(decode(input, max_depth))
}

/// Decodes the value at the front of `input` strictly: as [`decode`], but
/// a dictionary whose keys do not come in strictly ascending order is
/// [`DecodeError::DuplicateKeyPolicyViolation`]. What strict decoding
/// accepts is canonical.
pub fn decode_strict<'a>(input: &'a [u8], max_depth: usize) -> (r: Result<
    (Benc, &'a [u8]),
    DecodeError,
>)
    ensures
        decoded_as(r, decode_strict_spec(input@, max_depth as nat)),
        r matches Ok((v, rest)) ==> {
            &&& v@.wf()
            &&& v@.within_depth(max_depth as nat)
            &&& proper_suffix(rest@, input@)
        },
{
    proof {
        assert(input@.skip(0) =~= input@);
        lemma_decode_value_sound(input@, max_depth as nat, true);
    }
    with_rest(input, decode_value_at(input, 0, max_depth, true))
}

/// Decodes `input` strictly, which has to hold one value and nothing else.
pub fn decode_exact_strict(input: &[u8], max_depth: usize) -> (r: Result<Benc, DecodeError>)
    ensures
        parsed_as(r, exact(decode_strict_spec(input@, max_depth as nat))),
        r matches Ok(v) ==> v@.wf() && v@.within_depth(max_depth as nat),
{
    without_rest(decode_strict(input, max_depth))
}

/// Decodes the value at the front of `input`, with the default nesting
/// limit. Returns the value and the bytes that follow it.
pub fn decode_benc<'a>(input: &'a [u8]) -> (r: Result<(Benc, &'a [u8]), DecodeError>)
    ensures
        decoded_as(r, decode_spec(input@, DEFAULT_MAX_DEPTH as nat)),
        r matches Ok((v, rest)) ==> {
            &&& v@.wf()
            &&& v@.within_depth(DEFAULT_MAX_DEPTH as nat)
            &&& proper_suffix(rest@, input@)
        },
{
    decode(input, DEFAULT_MAX_DEPTH)
}

/// Decodes `input`, which has to hold one value and nothing else, with the
/// default nesting limit.
pub fn parse_benc(input: &[u8]) -> (r: Result<Benc, DecodeError>)
    ensures
        parsed_as(r, exact(decode_spec(input@, DEFAULT_MAX_DEPTH as nat))),
        r matches Ok(v) ==> v@.wf() && v@.within_depth(DEFAULT_MAX_DEPTH as nat),
{
    decode_exact(input, DEFAULT_MAX_DEPTH)
}

/// Decodes the byte string at the front of `input`. Returns its bytes and
/// the bytes that follow it.
pub fn decode_bencoded_string<'a>(input: &'a [u8]) -> (r: Result<(Vec<u8>, &'a [u8]), DecodeError>)
    ensures
        decoded_as(r, decode_bytes_spec(input@)),
{
    proof {
        assert(input@.skip(0) =~= input@);
    }
    with_rest(input, decode_bytes_at(input, 0))
}

/// Decodes the byte string at the front of `input`, as a value.
pub fn decode_string<'a>(input: &'a [u8]) -> (r: Result<(Benc, &'a [u8]), DecodeError>)
    ensures
        decoded_as(r, decode_string_spec(input@)),
{
    match decode_bencoded_string(input) {
        Ok((bytes, rest)) => Ok((Benc::S(bytes), rest)),
        Err(e) => Err(e),
    }
}

/// Decodes the integer at the front of `input`, as a value.
pub fn decode_i64<'a>(input: &'a [u8]) -> (r: Result<(Benc, &'a [u8]), DecodeError>)
    ensures
        decoded_as(r, decode_i64_spec(input@)),
{
    proof {
        assert(input@.skip(0) =~= input@);
    }
    let r = match decode_int_at(input, 0) {
        Ok((n, end)) => Ok((Benc::I(n), end)),
        Err(e) => Err(e),
    };
    with_rest(input, r)
}

/// Decodes the list at the front of `input`, with the default nesting
/// limit.
pub fn decode_list<'a>(input: &'a [u8]) -> (r: Result<(Benc, &'a [u8]), DecodeError>)
    ensures
        decoded_as(r, decode_list_spec(input@, DEFAULT_MAX_DEPTH as nat, false)),
{
    proof {
        assert(input@.skip(0) =~= input@);
    }
    with_rest(input, decode_list_at(input, 0, DEFAULT_MAX_DEPTH, false))
}

/// Decodes the dictionary at the front of `input`, with the default
/// nesting limit.
pub fn decode_dictionary<'a>(input: &'a [u8]) -> (r: Result<(Benc, &'a [u8]), DecodeError>)
    ensures
        decoded_as(r, decode_dict_spec(input@, DEFAULT_MAX_DEPTH as nat, false)),
{
    proof {
        assert(input@.skip(0) =~= input@);
    }
    with_rest(input, decode_dict_at(input, 0, DEFAULT_MAX_DEPTH, false))
}

/// Decodes `input`, which has to hold one byte string and nothing else.
pub fn parse_bencoded_string(input: &[u8]) -> (r: Result<Vec<u8>, DecodeError>)
    ensures
        parsed_as(r, exact(decode_bytes_spec(input@))),
{
    without_rest(decode_bencoded_string(input))
}

/// Decodes `input`, which has to hold one byte string and nothing else, as
/// a value.
pub fn parse_string_to_benc(input: &[u8]) -> (r: Result<Benc, DecodeError>)
    ensures
        parsed_as(r, exact(decode_string_spec(input@))),
{
    without_rest(decode_string(input))
}

/// Decodes `input`, which has to hold one integer and nothing else, as a
/// value.
pub fn parse_i64_to_benc(input: &[u8]) -> (r: Result<Benc, DecodeError>)
    ensures
        parsed_as(r, exact(decode_i64_spec(input@))),
{
    without_rest(decode_i64(input))
}

/// Decodes `input`, which has to hold one list and nothing else, with the
/// default nesting limit.
pub fn parse_bencoded_list(input: &[u8]) -> (r: Result<Benc, DecodeError>)
    ensures
        parsed_as(r, exact(decode_list_spec(input@, DEFAULT_MAX_DEPTH as nat, false))),
{
    without_rest(decode_list(input))
}

/// Decodes `input`, which has to hold one dictionary and nothing else,
/// with the default nesting limit.
pub fn parse_bencoded_dictionary(input: &[u8]) -> (r: Result<Benc, DecodeError>)
    ensures
        parsed_as(r, exact(decode_dict_spec(input@, DEFAULT_MAX_DEPTH as nat, false))),
{
    without_rest(decode_dictionary(input))
}

} // verus!
