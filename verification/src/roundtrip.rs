//! What encoding and decoding are to each other.

use crate::decimal::{
    decimal, decimal_int, digit_run, is_digit, lemma_canonical_digits_unique,
    lemma_decimal_canonical, lemma_decimal_value, lemma_digit_run_bounds, lemma_digit_run_is,
    lemma_digits_value_leading,
};
use crate::dict::lemma_from_pairs_of_ascending;
use crate::encode::{encode_bytes, encode_entries, encode_int, encode_items, encode_value};
use crate::grammar::{
    decode_bytes_spec, decode_entries_spec, decode_int_spec, decode_items_spec, decode_spec,
    decode_strict_spec, decode_value_spec, exact, lemma_decode_value_sound, prepend, DecodeError,
    Decoded,
};
use crate::token::{CLOSE, COLON, DICT_OPEN, INT_OPEN, LIST_OPEN, MINUS, ZERO};
use crate::value::{lemma_some_depth, Value};
use vstd::prelude::*;

verus! {

/// Decoding the encoding of a byte string, with anything behind it, gives
/// the byte string and what was behind it.
pub proof fn lemma_decode_encode_bytes(bytes: Seq<u8>, tail: Seq<u8>)
    ensures
        decode_bytes_spec(encode_bytes(bytes) + tail) == Ok::<_, DecodeError>((bytes, tail)),
{
    reveal(decode_bytes_spec);
    let n = bytes.len();
    let d = decimal(n);
    let k = d.len() as int;
    let s = encode_bytes(bytes) + tail;
    lemma_decimal_canonical(n);
    lemma_decimal_value(n);
    assert(s.take(k) =~= d);
    assert(s[k] == COLON);
    lemma_digit_run_is(s, k);
    assert(s[0] == d[0]);
    assert(s.subrange(k + 1, k + 1 + n) =~= bytes);
    assert(s.skip(k + 1 + n) =~= tail);
}

/// Decoding the encoding of an integer, with anything behind it, gives the
/// integer and what was behind it.
pub proof fn lemma_decode_encode_int(n: i64, tail: Seq<u8>)
    ensures
        decode_int_spec(encode_int(n) + tail) == Ok::<_, DecodeError>((n, tail)),
{
    reveal(decode_int_spec);
    let s = encode_int(n) + tail;
    let magnitude: nat = if n < 0 {
        (-n) as nat
    } else {
        n as nat
    };
    let d = decimal(magnitude);
    let k = d.len() as int;
    lemma_decimal_canonical(magnitude);
    lemma_decimal_value(magnitude);
    assert(is_digit(d[0]));
    if n < 0 {
        assert(decimal_int(n as int) =~= seq![MINUS] + d);
        assert(s[1] == MINUS);
        let body = s.skip(2);
        assert(body.take(k) =~= d);
        assert(body[k] == CLOSE);
        lemma_digit_run_is(body, k);
        assert(body[0] == d[0]);
        assert(body.skip(k + 1) =~= tail);
    } else {
        assert(decimal_int(n as int) =~= d);
        assert(s[1] == d[0]);
        let body = s.skip(1);
        assert(body.take(k) =~= d);
        assert(body[k] == CLOSE);
        lemma_digit_run_is(body, k);
        assert(body[0] == d[0]);
        assert(body.skip(k + 1) =~= tail);
    }
}

/// An encoding is not empty, and its first byte tells the production: a
/// digit for a byte string, `i`, `l` or `d` for the others. It is never the
/// closing `e`.
pub proof fn lemma_encode_first_byte(v: Value)
    ensures
        encode_value(v).len() > 0,
        match v {
            Value::Str(_) => is_digit(encode_value(v)[0]),
            Value::Int(_) => encode_value(v)[0] == INT_OPEN,
            Value::List(_) => encode_value(v)[0] == LIST_OPEN,
            Value::Dict(_) => encode_value(v)[0] == DICT_OPEN,
        },
        encode_value(v)[0] != CLOSE,
{
    match v {
        Value::Str(bytes) => {
            lemma_decimal_canonical(bytes.len());
            assert(encode_value(v)[0] == decimal(bytes.len())[0]);
        },
        _ => {},
    }
}

/// The encodings of the items of a non-empty list are the encoding of the
/// first item and the encodings of the others.
pub proof fn lemma_encode_items_front(items: Seq<Value>)
    requires
        items.len() > 0,
    ensures
        encode_items(items) == encode_value(items[0]) + encode_items(items.skip(1)),
    decreases items.len(),
{
    if items.len() == 1 {
        assert(items.drop_last() =~= Seq::<Value>::empty());
        assert(items.skip(1) =~= Seq::<Value>::empty());
        assert(encode_items(items.drop_last()) =~= Seq::<u8>::empty());
        assert(encode_items(items) =~= encode_value(items[0]) + encode_items(items.skip(1)));
    } else {
        lemma_encode_items_front(items.drop_last());
        assert(items.drop_last().skip(1) =~= items.skip(1).drop_last());
        assert(items.skip(1).last() == items.last());
        assert(items.drop_last()[0] == items[0]);
        assert(encode_items(items) =~= encode_value(items[0]) + encode_items(items.skip(1)));
    }
}

/// The encodings of the entries of a non-empty dictionary are the encoding
/// of the first entry and the encodings of the others.
pub proof fn lemma_encode_entries_front(entries: Seq<(Seq<u8>, Value)>)
    requires
        entries.len() > 0,
    ensures
        encode_entries(entries) == encode_bytes(entries[0].0) + encode_value(entries[0].1)
            + encode_entries(entries.skip(1)),
    decreases entries.len(),
{
    let first = encode_bytes(entries[0].0) + encode_value(entries[0].1);
    if entries.len() == 1 {
        assert(entries.drop_last() =~= Seq::<(Seq<u8>, Value)>::empty());
        assert(entries.skip(1) =~= Seq::<(Seq<u8>, Value)>::empty());
        assert(encode_entries(entries.drop_last()) =~= Seq::<u8>::empty());
        assert(encode_entries(entries) =~= first + encode_entries(entries.skip(1)));
    } else {
        lemma_encode_entries_front(entries.drop_last());
        assert(entries.drop_last().skip(1) =~= entries.skip(1).drop_last());
        assert(entries.skip(1).last() == entries.last());
        assert(entries.drop_last()[0] == entries[0]);
        assert(encode_entries(entries) =~= first + encode_entries(entries.skip(1)));
    }
}

/// What decoding makes of the encoding of a well-formed value `v`, with
/// anything behind it: the value and what was behind it, if the containers
/// of `v` are nested at most `depth` deep, and else the error for nesting
/// that is too deep.
pub open spec fn decoded_or_too_deep<T>(within: bool, item: T, tail: Seq<u8>) -> Decoded<T> {
    if within {
        Ok((item, tail))
    } else {
        Err(DecodeError::DepthExceeded)
    }
}

/// Every item of `items` from index `from` on is nested at most `depth`
/// deep.
pub open spec fn items_within(items: Seq<Value>, from: int, depth: nat) -> bool {
    forall|i: int| from <= i < items.len() ==> (#[trigger] items[i]).within_depth(depth)
}

/// Every value of `entries` from index `from` on is nested at most `depth`
/// deep.
pub open spec fn entries_within(entries: Seq<(Seq<u8>, Value)>, from: int, depth: nat) -> bool {
    forall|i: int| from <= i < entries.len() ==> (#[trigger] entries[i]).1.within_depth(depth)
}

/// Decoding inverts encoding, for any rest of the input: the bytes of a
/// well-formed value `v`, followed by `tail`, decode to `v` and leave
/// `tail`. The one exception is a value nested deeper than `depth`, whose
/// bytes are refused as too deep.
pub proof fn lemma_decode_encode_value(v: Value, tail: Seq<u8>, depth: nat, strict: bool)
    requires
        v.wf(),
    ensures
        decode_value_spec(encode_value(v) + tail, depth, strict) == decoded_or_too_deep(
            v.within_depth(depth),
            v,
            tail,
        ),
    decreases v, 0nat,
{
    let s = encode_value(v) + tail;
    lemma_encode_first_byte(v);
    assert(s[0] == encode_value(v)[0]);
    match v {
        Value::Str(bytes) => {
            lemma_decode_encode_bytes(bytes, tail);
        },
        Value::Int(n) => {
            lemma_decode_encode_int(n, tail);
        },
        Value::List(items) => {
            if depth > 0 {
                let inner = (depth - 1) as nat;
                lemma_decode_encode_items(items, 0, tail, inner, strict);
                assert(items.skip(0) =~= items);
                assert(s.skip(1) =~= encode_items(items) + seq![CLOSE] + tail);
            }
        },
        Value::Dict(entries) => {
            if depth > 0 {
                let inner = (depth - 1) as nat;
                lemma_decode_encode_entries(entries, 0, tail, inner, strict);
                assert(entries.skip(0) =~= entries);
                assert(s.skip(1) =~= encode_entries(entries) + seq![CLOSE] + tail);
                lemma_from_pairs_of_ascending(entries);
            }
        },
    }
}

/// The encodings of the items of a list from index `from` on start with
/// the encoding of the item at `from`.
proof fn lemma_encode_items_from(items: Seq<Value>, from: int, tail: Seq<u8>)
    requires
        0 <= from < items.len(),
    ensures
        encode_items(items.skip(from)) + seq![CLOSE] + tail == encode_value(items[from]) + (
        encode_items(items.skip(from + 1)) + seq![CLOSE] + tail),
{
    let remaining = items.skip(from);
    lemma_encode_items_front(remaining);
    assert(remaining[0] == items[from]);
    assert(remaining.skip(1) =~= items.skip(from + 1));
    assert(encode_items(remaining) + seq![CLOSE] + tail =~= encode_value(items[from]) + (encode_items(
        items.skip(from + 1),
    ) + seq![CLOSE] + tail));
}

/// The encodings of the entries of a dictionary from index `from` on start
/// with the encoding of the key at `from`, followed by that of its value.
proof fn lemma_encode_entries_from(entries: Seq<(Seq<u8>, Value)>, from: int, tail: Seq<u8>)
    requires
        0 <= from < entries.len(),
    ensures
        encode_entries(entries.skip(from)) + seq![CLOSE] + tail == encode_bytes(entries[from].0) + (
        encode_value(entries[from].1) + (encode_entries(entries.skip(from + 1)) + seq![CLOSE]
            + tail)),
{
    let remaining = entries.skip(from);
    lemma_encode_entries_front(remaining);
    assert(remaining[0] == entries[from]);
    assert(remaining.skip(1) =~= entries.skip(from + 1));
    assert(encode_entries(remaining) + seq![CLOSE] + tail =~= encode_bytes(entries[from].0) + (
    encode_value(entries[from].1) + (encode_entries(entries.skip(from + 1)) + seq![CLOSE] + tail)));
}

/// The same for the items of a list from index `from` on, with the closing
/// `e` of the list and `tail` behind them.
pub proof fn lemma_decode_encode_items(
    items: Seq<Value>,
    from: int,
    tail: Seq<u8>,
    depth: nat,
    strict: bool,
)
    requires
        0 <= from <= items.len(),
        forall|i: int| 0 <= i < items.len() ==> (#[trigger] items[i]).wf(),
    ensures
        decode_items_spec(encode_items(items.skip(from)) + seq![CLOSE] + tail, depth, strict)
            == decoded_or_too_deep(items_within(items, from, depth), items.skip(from), tail),
    decreases items, items.len() - from,
{
    let remaining = items.skip(from);
    let s = encode_items(remaining) + seq![CLOSE] + tail;
    if from == items.len() {
        assert(remaining =~= Seq::<Value>::empty());
        assert(s =~= seq![CLOSE] + tail);
        assert(s.skip(1) =~= tail);
    } else {
        let v = items[from];
        let others = items.skip(from + 1);
        let after = encode_items(others) + seq![CLOSE] + tail;
        lemma_encode_items_from(items, from, tail);
        lemma_encode_first_byte(v);
        assert(s.len() > after.len() && s[0] == encode_value(v)[0]);
        lemma_decode_encode_value(v, after, depth, strict);
        lemma_decode_encode_items(items, from + 1, tail, depth, strict);
        assert(items_within(items, from, depth) == (v.within_depth(depth) && items_within(
            items,
            from + 1,
            depth,
        )));
        assert(seq![v] + others =~= remaining);
    }
}

/// One step of decoding the entries of a dictionary: where a key is
/// decoded at the front of `s`, what follows is its value and the other
/// entries.
proof fn lemma_decode_entries_step(
    s: Seq<u8>,
    key: Seq<u8>,
    after_key: Seq<u8>,
    depth: nat,
    strict: bool,
)
    requires
        s.len() > 0,
        s[0] != CLOSE,
        decode_bytes_spec(s) == Ok::<_, DecodeError>((key, after_key)),
        after_key.len() < s.len(),
    ensures
        decode_entries_spec(s, depth, strict) == match decode_value_spec(after_key, depth, strict) {
            Err(e) => Err(e),
            Ok((v, rest)) => if rest.len() < after_key.len() {
                prepend(seq![(key, v)], decode_entries_spec(rest, depth, strict))
            } else {
                Err(DecodeError::MissingTerminator)
            },
        },
{
}

/// The same for the entries of a dictionary from index `from` on, with the
/// closing `e` of the dictionary and `tail` behind them.
pub proof fn lemma_decode_encode_entries(
    entries: Seq<(Seq<u8>, Value)>,
    from: int,
    tail: Seq<u8>,
    depth: nat,
    strict: bool,
)
    requires
        0 <= from <= entries.len(),
        forall|i: int| 0 <= i < entries.len() ==> (#[trigger] entries[i]).1.wf(),
    ensures
        decode_entries_spec(
            encode_entries(entries.skip(from)) + seq![CLOSE] + tail,
            depth,
            strict,
        ) == decoded_or_too_deep(entries_within(entries, from, depth), entries.skip(from), tail),
    decreases entries, entries.len() - from,
{
    let remaining = entries.skip(from);
    let s = encode_entries(remaining) + seq![CLOSE] + tail;
    if from == entries.len() {
        assert(remaining =~= Seq::<(Seq<u8>, Value)>::empty());
        assert(s =~= seq![CLOSE] + tail);
        assert(s.skip(1) =~= tail);
    } else {
        let key = entries[from].0;
        let v = entries[from].1;
        let others = entries.skip(from + 1);
        let after = encode_entries(others) + seq![CLOSE] + tail;
        let after_key = encode_value(v) + after;
        assert(s == encode_bytes(key) + after_key) by {
            lemma_encode_entries_from(entries, from, tail);
        }
        assert(s.len() > after_key.len() && s[0] != CLOSE) by {
            lemma_encode_first_byte(Value::Str(key));
            assert(s[0] == encode_bytes(key)[0]);
        }
        assert(after_key.len() > after.len()) by {
            lemma_encode_first_byte(v);
        }
        assert(decode_bytes_spec(s) == Ok::<_, DecodeError>((key, after_key))) by {
            lemma_decode_encode_bytes(key, after_key);
        }
        let value_within = v.within_depth(depth);
        let others_within = entries_within(entries, from + 1, depth);
        assert(decode_value_spec(after_key, depth, strict) == decoded_or_too_deep(
            value_within,
            v,
            after,
        )) by {
            lemma_decode_encode_value(v, after, depth, strict);
        }
        assert(decode_entries_spec(after, depth, strict) == decoded_or_too_deep(
            others_within,
            others,
            tail,
        )) by {
            lemma_decode_encode_entries(entries, from + 1, tail, depth, strict);
        }
        assert(entries_within(entries, from, depth) == (value_within && others_within));
        assert(seq![(key, v)] + others =~= remaining);
        lemma_decode_entries_step(s, key, after_key, depth, strict);
    }
}

/// Round trip: the encoding of a well-formed value, nested no deeper than
/// the decoder's limit, decodes to that value, with no byte left. This
/// holds of lenient and of strict decoding.
pub proof fn lemma_round_trip(v: Value, max_depth: nat)
    requires
        v.wf(),
        v.within_depth(max_depth),
    ensures
        decode_spec(encode_value(v), max_depth) == Ok::<_, DecodeError>((v, Seq::<u8>::empty())),
        exact(decode_spec(encode_value(v), max_depth)) == Ok::<_, DecodeError>(v),
        decode_strict_spec(encode_value(v), max_depth) == Ok::<_, DecodeError>(
            (v, Seq::<u8>::empty()),
        ),
        exact(decode_strict_spec(encode_value(v), max_depth)) == Ok::<_, DecodeError>(v),
{
    lemma_decode_encode_value(v, Seq::empty(), max_depth, false);
    lemma_decode_encode_value(v, Seq::empty(), max_depth, true);
    assert(encode_value(v) + Seq::<u8>::empty() =~= encode_value(v));
}

/// The encoding of a well-formed value that is nested deeper than the
/// decoder's limit is refused as too deep, whatever follows it.
pub proof fn lemma_too_deep(v: Value, tail: Seq<u8>, max_depth: nat)
    requires
        v.wf(),
        !v.within_depth(max_depth),
    ensures
        decode_spec(encode_value(v) + tail, max_depth) == Err::<(Value, Seq<u8>), _>(
            DecodeError::DepthExceeded,
        ),
        decode_strict_spec(encode_value(v) + tail, max_depth) == Err::<(Value, Seq<u8>), _>(
            DecodeError::DepthExceeded,
        ),
{
    lemma_decode_encode_value(v, tail, max_depth, false);
    lemma_decode_encode_value(v, tail, max_depth, true);
}

/// Encodings are self-delimiting and unique: where the encodings of two
/// well-formed values, each with some bytes behind it, are the same byte
/// string, the values are the same and so are the bytes behind them. In
/// particular two different values never have the same encoding.
pub proof fn lemma_encode_injective(a: Value, a_tail: Seq<u8>, b: Value, b_tail: Seq<u8>)
    requires
        a.wf(),
        b.wf(),
        encode_value(a) + a_tail == encode_value(b) + b_tail,
    ensures
        a == b,
        a_tail == b_tail,
{
    let depth = lemma_some_depth(a);
    lemma_decode_encode_value(a, a_tail, depth, false);
    lemma_decode_encode_value(b, b_tail, depth, false);
}

/// A byte string is canonical if it is the encoding of a well-formed value.
pub open spec fn is_canonical(s: Seq<u8>) -> bool {
    exists|v: Value| v.wf() && #[trigger] encode_value(v) == s
}

/// Canonical idempotence: where a canonical byte string decodes, the whole
/// of it is taken, and encoding the decoded value gives the byte string
/// back.
pub proof fn lemma_canonical_idempotence(s: Seq<u8>, max_depth: nat)
    requires
        is_canonical(s),
        decode_spec(s, max_depth) is Ok,
    ensures
        decode_spec(s, max_depth) matches Ok((v, rest)) && encode_value(v) == s && rest.len() == 0,
{
    let v = choose|v: Value| v.wf() && #[trigger] encode_value(v) == s;
    lemma_decode_encode_value(v, Seq::empty(), max_depth, false);
    assert(encode_value(v) + Seq::<u8>::empty() =~= s);
}

/// Decoding normalises: the value decoded from any input, encoded again
/// and put in front of the rest of that input, decodes to the same value
/// and the same rest.
pub proof fn lemma_decode_is_normal(s: Seq<u8>, max_depth: nat)
    ensures
        decode_spec(s, max_depth) matches Ok((v, rest)) ==> decode_spec(
            encode_value(v) + rest,
            max_depth,
        ) == Ok::<_, DecodeError>((v, rest)),
{
    if let Ok((v, rest)) = decode_spec(s, max_depth) {
        lemma_decode_value_sound(s, max_depth, false);
        lemma_decode_encode_value(v, rest, max_depth, false);
    }
}

/// A decoded byte string was written canonically: its encoding, with the
/// rest of the input behind it, is the input.
pub proof fn lemma_encode_decoded_bytes(s: Seq<u8>)
    ensures
        decode_bytes_spec(s) matches Ok((bytes, rest)) ==> encode_bytes(bytes) + rest == s,
{
    reveal(decode_bytes_spec);
    if let Ok((bytes, rest)) = decode_bytes_spec(s) {
        let k = digit_run(s) as int;
        let d = s.take(k);
        lemma_digit_run_bounds(s);
        assert(d[0] == s[0]);
        lemma_canonical_digits_unique(d);
        assert(encode_bytes(bytes) + rest =~= s);
    }
}

/// A decoded integer was written canonically: its encoding, with the rest
/// of the input behind it, is the input.
pub proof fn lemma_encode_decoded_int(s: Seq<u8>)
    ensures
        decode_int_spec(s) matches Ok((n, rest)) ==> encode_int(n) + rest == s,
{
    reveal(decode_int_spec);
    if let Ok((n, rest)) = decode_int_spec(s) {
        let negative = s.len() > 1 && s[1] == MINUS;
        let body = if negative {
            s.skip(2)
        } else {
            s.skip(1)
        };
        let k = digit_run(body) as int;
        let d = body.take(k);
        lemma_digit_run_bounds(body);
        assert(d[0] == body[0]);
        lemma_canonical_digits_unique(d);
        if negative {
            if d[0] != ZERO {
                lemma_digits_value_leading(d);
            } else {
                assert(d.drop_last() =~= Seq::<u8>::empty());
            }
            assert(decimal_int(n as int) =~= seq![MINUS] + d);
        } else {
            assert(decimal_int(n as int) =~= d);
        }
        assert(encode_int(n) + rest =~= s);
    }
}

/// Strict decoding inverts encoding exactly: whatever it accepts is the
/// encoding of the decoded value, followed by the rest of the input. So
/// strict decoding accepts canonical bytes only.
pub proof fn lemma_encode_decoded_value(s: Seq<u8>, depth: nat)
    ensures
        decode_value_spec(s, depth, true) matches Ok((v, rest)) ==> encode_value(v) + rest == s,
    decreases s.len(), 2nat,
{
    if let Ok((v, rest)) = decode_value_spec(s, depth, true) {
        if s[0] == INT_OPEN {
            lemma_encode_decoded_int(s);
        } else if s[0] == LIST_OPEN {
            let inner = (depth - 1) as nat;
            lemma_encode_decoded_items(s.skip(1), inner);
            assert(encode_value(v) + rest =~= seq![LIST_OPEN] + s.skip(1));
            assert(seq![LIST_OPEN] + s.skip(1) =~= s);
        } else if s[0] == DICT_OPEN {
            let inner = (depth - 1) as nat;
            lemma_encode_decoded_entries(s.skip(1), inner);
            if let Ok((pairs, after)) = decode_entries_spec(s.skip(1), inner, true) {
                lemma_from_pairs_of_ascending(pairs);
            }
            assert(encode_value(v) + rest =~= seq![DICT_OPEN] + s.skip(1));
            assert(seq![DICT_OPEN] + s.skip(1) =~= s);
        } else {
            lemma_encode_decoded_bytes(s);
        }
    }
}

/// The same for the items of a list and its closing `e`.
pub proof fn lemma_encode_decoded_items(s: Seq<u8>, depth: nat)
    ensures
        decode_items_spec(s, depth, true) matches Ok((items, rest)) ==> encode_items(items)
            + seq![CLOSE] + rest == s,
    decreases s.len(), 3nat,
{
    if let Ok((items, rest)) = decode_items_spec(s, depth, true) {
        if s[0] == CLOSE {
            assert(encode_items(items) + seq![CLOSE] + rest =~= s);
        } else {
            lemma_encode_decoded_value(s, depth);
            if let Ok((v, after)) = decode_value_spec(s, depth, true) {
                lemma_encode_decoded_items(after, depth);
                if let Ok((others, end)) = decode_items_spec(after, depth, true) {
                    assert(items =~= seq![v] + others);
                    assert(items[0] == v);
                    assert(items.skip(1) =~= others);
                    lemma_encode_items_front(items);
                    assert(encode_items(items) + seq![CLOSE] + rest =~= encode_value(v) + after);
                }
            }
        }
    }
}

/// The same for the entries of a dictionary and its closing `e`.
pub proof fn lemma_encode_decoded_entries(s: Seq<u8>, depth: nat)
    ensures
        decode_entries_spec(s, depth, true) matches Ok((pairs, rest)) ==> encode_entries(pairs)
            + seq![CLOSE] + rest == s,
    decreases s.len(), 3nat,
{
    if let Ok((pairs, rest)) = decode_entries_spec(s, depth, true) {
        if s[0] == CLOSE {
            assert(encode_entries(pairs) + seq![CLOSE] + rest =~= s);
        } else {
            let (key, after_key) = decode_bytes_spec(s)->Ok_0;
            let (v, after) = decode_value_spec(after_key, depth, true)->Ok_0;
            let (others, end) = decode_entries_spec(after, depth, true)->Ok_0;
            assert(pairs == seq![(key, v)] + others && rest == end);
            lemma_encode_decoded_bytes(s);
            lemma_encode_decoded_value(after_key, depth);
            lemma_encode_decoded_entries(after, depth);
            assert(pairs[0] == (key, v));
            assert(pairs.skip(1) =~= others);
            lemma_encode_entries_front(pairs);
            lemma_concat_entry(
                s,
                encode_bytes(key),
                after_key,
                encode_value(v),
                after,
                encode_entries(others),
                rest,
            );
        }
    }
}

/// Bytes that are put together from the same pieces in the same order are
/// the same bytes.
proof fn lemma_concat_entry(
    s: Seq<u8>,
    key: Seq<u8>,
    after_key: Seq<u8>,
    value: Seq<u8>,
    after: Seq<u8>,
    others: Seq<u8>,
    rest: Seq<u8>,
)
    requires
        key + after_key == s,
        value + after == after_key,
        others + seq![CLOSE] + rest == after,
    ensures
        key + value + others + seq![CLOSE] + rest == s,
{
    assert(key + value + others + seq![CLOSE] + rest =~= key + (value + (others + seq![CLOSE]
        + rest)));
}

/// What strict decoding accepts is canonical: an input that strictly
/// decodes to a value, with nothing left, is the encoding of that value.
pub proof fn lemma_strict_accepts_canonical_only(s: Seq<u8>, max_depth: nat)
    ensures
        decode_strict_spec(s, max_depth) matches Ok((v, rest)) ==> {
            &&& encode_value(v) + rest == s
            &&& rest.len() == 0 ==> encode_value(v) == s && is_canonical(s)
        },
{
    if let Ok((v, rest)) = decode_strict_spec(s, max_depth) {
        lemma_encode_decoded_value(s, max_depth);
        lemma_decode_value_sound(s, max_depth, true);
        if rest.len() == 0 {
            assert(encode_value(v) + rest =~= encode_value(v));
        }
    }
}

/// What strict decoding accepts, lenient decoding accepts, with the same
/// outcome.
pub proof fn lemma_strict_implies_lenient(s: Seq<u8>, max_depth: nat)
    ensures
        decode_strict_spec(s, max_depth) is Ok ==> decode_spec(s, max_depth) == decode_strict_spec(
            s,
            max_depth,
        ),
{
    if let Ok((v, rest)) = decode_strict_spec(s, max_depth) {
        lemma_encode_decoded_value(s, max_depth);
        lemma_decode_value_sound(s, max_depth, true);
        lemma_decode_encode_value(v, rest, max_depth, false);
    }
}

/// `n` times the byte that opens a list.
pub open spec fn open_lists(n: nat) -> Seq<u8> {
    Seq::new(n, |i: int| LIST_OPEN)
}

/// Lists nested beyond the limit are refused as too deep: an input that
/// opens more than `max_depth` lists, one inside the other, is an error
/// whatever follows.
pub proof fn lemma_nesting_beyond_limit(n: nat, tail: Seq<u8>, max_depth: nat)
    requires
        n > max_depth,
    ensures
        decode_spec(open_lists(n) + tail, max_depth) == Err::<(Value, Seq<u8>), _>(
            DecodeError::DepthExceeded,
        ),
        decode_strict_spec(open_lists(n) + tail, max_depth) == Err::<(Value, Seq<u8>), _>(
            DecodeError::DepthExceeded,
        ),
{
    lemma_open_lists_too_deep(n, tail, max_depth, false);
    lemma_open_lists_too_deep(n, tail, max_depth, true);
}

/// The same, at any depth of the decoding and for both ways of decoding.
proof fn lemma_open_lists_too_deep(n: nat, tail: Seq<u8>, depth: nat, strict: bool)
    requires
        n > depth,
    ensures
        decode_value_spec(open_lists(n) + tail, depth, strict) == Err::<(Value, Seq<u8>), _>(
            DecodeError::DepthExceeded,
        ),
    decreases depth,
{
    let s = open_lists(n) + tail;
    assert(s[0] == LIST_OPEN);
    if depth > 0 {
        let m = (n - 1) as nat;
        assert(s.skip(1) =~= open_lists(m) + tail);
        assert(s.skip(1)[0] == LIST_OPEN);
        lemma_open_lists_too_deep(m, tail, (depth - 1) as nat, strict);
    }
}

} // verus!
