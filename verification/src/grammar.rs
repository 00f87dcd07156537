//! The grammar, as a function from bytes to the value they hold.
//!
//! A value is selected by its first byte: `i` opens an integer, `l` a list,
//! `d` a dictionary, and anything else has to be the length of a byte
//! string. The functions here say, for every input, which value and which
//! rest of the input the decoder yields, or which error.
//!
//! Decoding comes in two forms. The lenient one takes the entries of a
//! dictionary in any order and lets the last entry for a key win. The
//! strict one asks for the keys in strictly ascending order, as an encoder
//! writes them. The two differ in nothing else.

use crate::decimal::{digit_run, digits_value, lemma_digit_run_bounds};
use crate::dict::{
    dict_from_pairs, keys_ascending, lemma_from_pairs_ascending, lemma_from_pairs_entries,
};
use crate::token::{CLOSE, COLON, DICT_OPEN, INT_OPEN, LIST_OPEN, MINUS, ZERO};
use crate::value::Value;
use vstd::prelude::*;

verus! {

/// Why an input is no bencoded value.
#[derive(Clone, Copy, Debug, PartialEq, Eq, Structural)]
pub enum DecodeError {
    /// The input ends where a value, or the rest of an integer or of a
    /// length, has to follow.
    UnexpectedEof,
    /// What stands where the length of a byte string is due is no such
    /// length: it starts with a byte that is no digit (a minus sign too),
    /// has a leading zero, or is not followed by a colon.
    InvalidLengthPrefix,
    /// A byte string declares more bytes than the input has left.
    TruncatedString,
    /// An integer is not written as the grammar asks: no `i`, no digit, a
    /// leading zero, a bare sign, a negative zero, a byte that is neither a
    /// digit nor the closing `e`, or a number outside the 64-bit range.
    MalformedInteger,
    /// A list or a dictionary lacks a delimiter: the input ends before its
    /// closing `e`, or what is decoded as one does not start with its
    /// opening byte.
    MissingTerminator,
    /// In strict decoding only: the keys of a dictionary do not come in
    /// strictly ascending order, because a key comes twice or a key comes
    /// before a smaller one.
    DuplicateKeyPolicyViolation,
    /// Lists and dictionaries are nested deeper than the limit allows.
    DepthExceeded,
    /// Bytes are left after a complete value, where none may be.
    TrailingData,
}

/// What decoding yields: the decoded item and the rest of the input, or the
/// reason why there is none.
pub type Decoded<T> = Result<(T, Seq<u8>), DecodeError>;

/// `r` with `front` put before the items that it holds.
pub open spec fn prepend<T>(front: Seq<T>, r: Decoded<Seq<T>>) -> Decoded<Seq<T>> {
    match r {
        Ok((items, rest)) => Ok((front + items, rest)),
        Err(e) => Err(e),
    }
}

/// Putting `a` and then `b` in front is putting `a + b` in front.
pub proof fn lemma_prepend_twice<T>(a: Seq<T>, b: Seq<T>, r: Decoded<Seq<T>>)
    ensures
        prepend(a, prepend(b, r)) == prepend(a + b, r),
{
    if let Ok((items, rest)) = r {
        assert(a + (b + items) =~= (a + b) + items);
    }
}

/// A byte string at the front of `s`: a canonical decimal length, a colon,
/// and as many bytes as the length says.
#[verifier::opaque]
pub open spec fn decode_bytes_spec(s: Seq<u8>) -> Decoded<Seq<u8>> {
    let k = digit_run(s) as int;
    let n = digits_value(s.take(k)) as int;
    if s.len() == 0 {
        Err(DecodeError::UnexpectedEof)
    } else if k == 0 {
        Err(DecodeError::InvalidLengthPrefix)
    } else if k > 1 && s[0] == ZERO {
        Err(DecodeError::InvalidLengthPrefix)
    } else if k == s.len() {
        Err(DecodeError::UnexpectedEof)
    } else if s[k] != COLON {
        Err(DecodeError::InvalidLengthPrefix)
    } else if n > s.len() - k - 1 {
        Err(DecodeError::TruncatedString)
    } else {
        Ok((s.subrange(k + 1, k + 1 + n), s.skip(k + 1 + n)))
    }
}

/// An integer at the front of `s`: `i`, an optional minus sign, canonical
/// decimal digits, and `e`. Zero has no sign, and the number fits in 64
/// bits.
#[verifier::opaque]
pub open spec fn decode_int_spec(s: Seq<u8>) -> Decoded<i64> {
    if s.len() == 0 {
        Err(DecodeError::UnexpectedEof)
    } else if s[0] != INT_OPEN {
        Err(DecodeError::MalformedInteger)
    } else {
        let negative = s.len() > 1 && s[1] == MINUS;
        let body = if negative {
            s.skip(2)
        } else {
            s.skip(1)
        };
        let k = digit_run(body) as int;
        let magnitude = digits_value(body.take(k)) as int;
        let n = if negative {
            -magnitude
        } else {
            magnitude
        };
        if body.len() == 0 {
            Err(DecodeError::UnexpectedEof)
        } else if k == 0 {
            Err(DecodeError::MalformedInteger)
        } else if k > 1 && body[0] == ZERO {
            Err(DecodeError::MalformedInteger)
        } else if negative && magnitude == 0 {
            Err(DecodeError::MalformedInteger)
        } else if k == body.len() {
            Err(DecodeError::UnexpectedEof)
        } else if body[k] != CLOSE {
            Err(DecodeError::MalformedInteger)
        } else if n < i64::MIN || n > i64::MAX {
            Err(DecodeError::MalformedInteger)
        } else {
            Ok((n as i64, body.skip(k + 1)))
        }
    }
}

/// A byte string at the front of `s`, as a value.
pub open spec fn decode_string_spec(s: Seq<u8>) -> Decoded<Value> {
    match decode_bytes_spec(s) {
        Ok((bytes, rest)) => Ok((Value::Str(bytes), rest)),
        Err(e) => Err(e),
    }
}

/// An integer at the front of `s`, as a value.
pub open spec fn decode_i64_spec(s: Seq<u8>) -> Decoded<Value> {
    match decode_int_spec(s) {
        Ok((n, rest)) => Ok((Value::Int(n), rest)),
        Err(e) => Err(e),
    }
}

/// A value at the front of `s`, with containers nested at most `depth`
/// deep. The first byte selects the production: `i` an integer, `l` a
/// list, `d` a dictionary, any other byte a byte string.
pub open spec fn decode_value_spec(s: Seq<u8>, depth: nat, strict: bool) -> Decoded<Value>
    decreases s.len(), 2nat,
{
    if s.len() == 0 {
        Err(DecodeError::UnexpectedEof)
    } else if s[0] == INT_OPEN {
        decode_i64_spec(s)
    } else if s[0] == LIST_OPEN {
        decode_list_spec(s, depth, strict)
    } else if s[0] == DICT_OPEN {
        decode_dict_spec(s, depth, strict)
    } else {
        decode_string_spec(s)
    }
}

/// A list at the front of `s`: `l`, any number of values, `e`.
pub open spec fn decode_list_spec(s: Seq<u8>, depth: nat, strict: bool) -> Decoded<Value>
    decreases s.len(), 1nat,
{
    if s.len() == 0 {
        Err(DecodeError::UnexpectedEof)
    } else if s[0] != LIST_OPEN {
        Err(DecodeError::MissingTerminator)
    } else if depth == 0 {
        Err(DecodeError::DepthExceeded)
    } else {
        match decode_items_spec(s.skip(1), (depth - 1) as nat, strict) {
            Ok((items, rest)) => Ok((Value::List(items), rest)),
            Err(e) => Err(e),
        }
    }
}

/// A dictionary at the front of `s`: `d`, any number of entries, `e`.
///
/// In lenient decoding the entries may come in any order, and where a key
/// comes more than once, its last entry wins. In strict decoding, entries
/// whose keys are not in strictly ascending order are an error, once all of
/// them have been decoded.
pub open spec fn decode_dict_spec(s: Seq<u8>, depth: nat, strict: bool) -> Decoded<Value>
    decreases s.len(), 1nat,
{
    if s.len() == 0 {
        Err(DecodeError::UnexpectedEof)
    } else if s[0] != DICT_OPEN {
        Err(DecodeError::MissingTerminator)
    } else if depth == 0 {
        Err(DecodeError::DepthExceeded)
    } else {
        match decode_entries_spec(s.skip(1), (depth - 1) as nat, strict) {
            Ok((pairs, rest)) => if strict && !keys_ascending(pairs) {
                Err(DecodeError::DuplicateKeyPolicyViolation)
            } else {
                Ok((Value::Dict(dict_from_pairs(pairs)), rest))
            },
            Err(e) => Err(e),
        }
    }
}

/// The items of a list and its closing `e`, at the front of `s`.
///
/// A decoded value always takes at least one byte
/// ([`lemma_decode_value_sound`]), so the branch for a value that takes
/// none is never reached.
pub open spec fn decode_items_spec(s: Seq<u8>, depth: nat, strict: bool) -> Decoded<Seq<Value>>
    decreases s.len(), 3nat,
{
    if s.len() == 0 {
        Err(DecodeError::MissingTerminator)
    } else if s[0] == CLOSE {
        Ok((Seq::empty(), s.skip(1)))
    } else {
        match decode_value_spec(s, depth, strict) {
            Err(e) => Err(e),
            Ok((v, rest)) => if rest.len() < s.len() {
                prepend(seq![v], decode_items_spec(rest, depth, strict))
            } else {
                Err(DecodeError::MissingTerminator)
            },
        }
    }
}

/// The entries of a dictionary and its closing `e`, at the front of `s`,
/// in the order of the input: each a byte string, the key, and a value.
///
/// A decoded key or value always takes at least one byte
/// ([`lemma_decode_bytes_consumes`], [`lemma_decode_value_sound`]), so
/// the branches for one that takes none are never reached.
pub open spec fn decode_entries_spec(s: Seq<u8>, depth: nat, strict: bool) -> Decoded<
    Seq<(Seq<u8>, Value)>,
>
    decreases s.len(), 3nat,
{
    if s.len() == 0 {
        Err(DecodeError::MissingTerminator)
    } else if s[0] == CLOSE {
        Ok((Seq::empty(), s.skip(1)))
    } else {
        match decode_bytes_spec(s) {
            Err(e) => Err(e),
            Ok((key, after_key)) => if after_key.len() < s.len() {
                match decode_value_spec(after_key, depth, strict) {
                    Err(e) => Err(e),
                    Ok((v, rest)) => if rest.len() < after_key.len() {
                        prepend(seq![(key, v)], decode_entries_spec(rest, depth, strict))
                    } else {
                        Err(DecodeError::MissingTerminator)
                    },
                }
            } else {
                Err(DecodeError::MissingTerminator)
            },
        }
    }
}

/// Lenient decoding: the value at the front of `s` and the bytes that
/// follow it, with containers nested at most `max_depth` deep.
pub open spec fn decode_spec(s: Seq<u8>, max_depth: nat) -> Decoded<Value> {
    decode_value_spec(s, max_depth, false)
}

/// Strict decoding: as [`decode_spec`], but the keys of every dictionary
/// have to come in strictly ascending order.
pub open spec fn decode_strict_spec(s: Seq<u8>, max_depth: nat) -> Decoded<Value> {
    decode_value_spec(s, max_depth, true)
}

/// `r`, where no byte may be left after the decoded item.
pub open spec fn exact<T>(r: Decoded<T>) -> Result<T, DecodeError> {
    match r {
        Ok((item, rest)) => if rest.len() == 0 {
            Ok(item)
        } else {
            Err(DecodeError::TrailingData)
        },
        Err(e) => Err(e),
    }
}

/// `rest` is what is left of `s` after at least one byte.
pub open spec fn proper_suffix(rest: Seq<u8>, s: Seq<u8>) -> bool {
    rest.len() < s.len() && rest == s.skip(s.len() - rest.len())
}

/// A decoded byte string takes at least one byte of the input, and leaves
/// the bytes behind it.
pub proof fn lemma_decode_bytes_consumes(s: Seq<u8>)
    ensures
        decode_bytes_spec(s) matches Ok((_, rest)) ==> proper_suffix(rest, s),
{
    reveal(decode_bytes_spec);
}

/// A decoded integer takes at least one byte of the input, and leaves the
/// bytes behind it.
pub proof fn lemma_decode_int_consumes(s: Seq<u8>)
    ensures
        decode_int_spec(s) matches Ok((_, rest)) ==> proper_suffix(rest, s),
{
    reveal(decode_int_spec);
    if decode_int_spec(s) is Ok {
        let negative = s.len() > 1 && s[1] == MINUS;
        let body = if negative {
            s.skip(2)
        } else {
            s.skip(1)
        };
        let k = digit_run(body) as int;
        let rest = body.skip(k + 1);
        lemma_digit_run_bounds(body);
        assert(rest =~= s.skip(s.len() - rest.len()));
    }
}

/// What holds of the items of a decoded list: each is well-formed and
/// nested at most `depth` deep.
pub open spec fn items_sound(items: Seq<Value>, depth: nat) -> bool {
    forall|i: int|
        0 <= i < items.len() ==> (#[trigger] items[i]).wf() && items[i].within_depth(depth)
}

/// What holds of the entries of a decoded dictionary: each value is
/// well-formed and nested at most `depth` deep.
pub open spec fn pairs_sound(pairs: Seq<(Seq<u8>, Value)>, depth: nat) -> bool {
    forall|i: int|
        0 <= i < pairs.len() ==> (#[trigger] pairs[i]).1.wf() && pairs[i].1.within_depth(depth)
}

/// A decoded value takes at least one byte of the input and leaves the
/// bytes behind it. It is well-formed, whatever the order of the keys in
/// the input was, and its containers are nested at most `depth` deep.
pub proof fn lemma_decode_value_sound(s: Seq<u8>, depth: nat, strict: bool)
    ensures
        decode_value_spec(s, depth, strict) matches Ok((v, rest)) ==> {
            &&& proper_suffix(rest, s)
            &&& v.wf()
            &&& v.within_depth(depth)
        },
    decreases s.len(), 2nat,
{
    if s.len() > 0 {
        if s[0] == INT_OPEN {
            lemma_decode_int_consumes(s);
        } else if s[0] == LIST_OPEN {
            if depth > 0 {
                lemma_decode_items_sound(s.skip(1), (depth - 1) as nat, strict);
                let inner = (depth - 1) as nat;
                if let Ok((items, rest)) = decode_items_spec(s.skip(1), inner, strict) {
                    assert(rest =~= s.skip(s.len() - rest.len()));
                }
            }
        } else if s[0] == DICT_OPEN {
            if depth > 0 {
                lemma_decode_entries_sound(s.skip(1), (depth - 1) as nat, strict);
                let inner = (depth - 1) as nat;
                if let Ok((pairs, rest)) = decode_entries_spec(s.skip(1), inner, strict) {
                    assert(rest =~= s.skip(s.len() - rest.len()));
                    let dict = dict_from_pairs(pairs);
                    lemma_from_pairs_ascending(pairs);
                    lemma_from_pairs_entries(pairs);
                    assert forall|i: int| 0 <= i < dict.len() implies (#[trigger] dict[i]).1.wf()
                        && dict[i].1.within_depth((depth - 1) as nat) by {
                        let j = choose|j: int| 0 <= j < pairs.len() && pairs[j] == dict[i];
                        assert(pairs[j].1.wf());
                    }
                }
            }
        } else {
            lemma_decode_bytes_consumes(s);
        }
    }
}

/// The items of a decoded list take at least the closing byte of the
/// input, and each is well-formed and nested at most `depth` deep.
pub proof fn lemma_decode_items_sound(s: Seq<u8>, depth: nat, strict: bool)
    ensures
        decode_items_spec(s, depth, strict) matches Ok((items, rest)) ==> {
            &&& proper_suffix(rest, s)
            &&& items_sound(items, depth)
        },
    decreases s.len(), 3nat,
{
    if s.len() > 0 && s[0] != CLOSE {
        lemma_decode_value_sound(s, depth, strict);
        if let Ok((v, after)) = decode_value_spec(s, depth, strict) {
            lemma_decode_items_sound(after, depth, strict);
            if let Ok((items, rest)) = decode_items_spec(after, depth, strict) {
                assert(rest =~= s.skip(s.len() - rest.len()));
                let all = seq![v] + items;
                assert forall|i: int| 0 <= i < all.len() implies (#[trigger] all[i]).wf()
                    && all[i].within_depth(depth) by {
                    if i > 0 {
                        assert(all[i] == items[i - 1]);
                    }
                }
            }
        }
    }
}

/// The entries of a decoded dictionary take at least the closing byte of
/// the input, and each value is well-formed and nested at most `depth`
/// deep.
pub proof fn lemma_decode_entries_sound(s: Seq<u8>, depth: nat, strict: bool)
    ensures
        decode_entries_spec(s, depth, strict) matches Ok((pairs, rest)) ==> {
            &&& proper_suffix(rest, s)
            &&& pairs_sound(pairs, depth)
        },
    decreases s.len(), 3nat,
{
    if s.len() > 0 && s[0] != CLOSE {
        lemma_decode_bytes_consumes(s);
        if let Ok((key, after_key)) = decode_bytes_spec(s) {
            lemma_decode_value_sound(after_key, depth, strict);
            if let Ok((v, after)) = decode_value_spec(after_key, depth, strict) {
                lemma_decode_entries_sound(after, depth, strict);
                if let Ok((pairs, rest)) = decode_entries_spec(after, depth, strict) {
                    assert(rest =~= s.skip(s.len() - rest.len()));
                    let all = seq![(key, v)] + pairs;
                    assert forall|i: int| 0 <= i < all.len() implies (#[trigger] all[i]).1.wf()
                        && all[i].1.within_depth(depth) by {
                        if i > 0 {
                            assert(all[i] == pairs[i - 1]);
                        }
                    }
                }
            }
        }
    }
}

} // verus!
