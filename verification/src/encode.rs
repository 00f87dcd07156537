//! The encoder: from a value to its canonical bytes.

use crate::decimal::{decimal, decimal_int, push_decimal, push_decimal_int};
use crate::dict::{entries_of, BMap};
use crate::order::lex_lt;
use crate::token::{CLOSE, COLON, DICT_OPEN, INT_OPEN, LIST_OPEN};
use crate::value::{lemma_dict_items, list_model, Benc, Value};
use vstd::prelude::*;
use vstd::string::StringSliceAdditionalSpecFns;

verus! {

/// The encoding of a byte string: its length in decimal, a colon, and the
/// bytes themselves.
pub open spec fn encode_bytes(bytes: Seq<u8>) -> Seq<u8> {
    decimal(bytes.len()) + seq![COLON] + bytes
}

/// The encoding of an integer: `i`, its decimal text, `e`.
pub open spec fn encode_int(n: i64) -> Seq<u8> {
    seq![INT_OPEN] + decimal_int(n as int) + seq![CLOSE]
}

/// The encoding of a value.
///
/// A list is `l`, the encodings of its items in order, `e`. A dictionary is
/// `d`, then for each entry, in the order of the model, the encoding of the
/// key as a byte string and the encoding of the value, then `e`.
pub open spec fn encode_value(v: Value) -> Seq<u8>
    decreases v,
{
    match v {
        Value::Str(bytes) => encode_bytes(bytes),
        Value::Int(n) => encode_int(n),
        Value::List(items) => seq![LIST_OPEN] + encode_items(items) + seq![CLOSE],
        Value::Dict(entries) => seq![DICT_OPEN] + encode_entries(entries) + seq![CLOSE],
    }
}

/// The encodings of the items of a list, one after the other.
pub open spec fn encode_items(items: Seq<Value>) -> Seq<u8>
    decreases items,
{
    if items.len() == 0 {
        Seq::empty()
    } else {
        encode_items(items.drop_last()) + encode_value(items.last())
    }
}

/// The encodings of the entries of a dictionary, one after the other: each
/// key as a byte string, followed by its value.
pub open spec fn encode_entries(entries: Seq<(Seq<u8>, Value)>) -> Seq<u8>
    decreases entries,
{
    if entries.len() == 0 {
        Seq::empty()
    } else {
        encode_entries(entries.drop_last()) + encode_bytes(entries.last().0) + encode_value(
            entries.last().1,
        )
    }
}

/// Appends the encoding of the byte string `bytes` to `out`.
pub fn encode_bytes_into(bytes: &[u8], out: &mut Vec<u8>)
    ensures
        final(out)@ == old(out)@ + encode_bytes(bytes@),
{
    push_decimal(out, bytes.len() as u64);
    out.push(COLON);
    out.extend_from_slice(bytes);
    proof {
        assert(out@ =~= old(out)@ + encode_bytes(bytes@));
    }
}

/// Appends the encoding of the integer `n` to `out`.
pub fn encode_int_into(n: i64, out: &mut Vec<u8>)
    ensures
        final(out)@ == old(out)@ + encode_int(n),
{
    out.push(INT_OPEN);
    push_decimal_int(out, n);
    out.push(CLOSE);
    proof {
        assert(out@ =~= old(out)@ + encode_int(n));
    }
}

/// Encoding a list with one more item appends the encoding of that item.
pub proof fn lemma_encode_items_push(items: Seq<Value>, v: Value)
    ensures
        encode_items(items.push(v)) == encode_items(items) + encode_value(v),
{
    assert(items.push(v).drop_last() =~= items);
}

/// Encoding a dictionary with one more entry at its end appends the
/// encoding of that entry.
pub proof fn lemma_encode_entries_push(entries: Seq<(Seq<u8>, Value)>, key: Seq<u8>, v: Value)
    ensures
        encode_entries(entries.push((key, v))) == encode_entries(entries) + encode_bytes(key)
            + encode_value(v),
{
    assert(entries.push((key, v)).drop_last() =~= entries);
}

/// Appends the canonical encoding of `value` to `out`.
///
/// Every value is well-formed, so the bytes appended are canonical: the
/// entries of each dictionary are written in ascending key order.
pub fn encode_into(value: &Benc, out: &mut Vec<u8>)
    ensures
        value@.wf(),
        final(out)@ == old(out)@ + encode_value(value@),
    decreases value,
{
    let ghost start = out@;
    match value {
        Benc::S(bytes) => {
            encode_bytes_into(bytes.as_slice(), out);
        },
        Benc::I(n) => {
            encode_int_into(*n, out);
        },
        Benc::L(items) => {
            let ghost models = list_model(items@);
            out.push(LIST_OPEN);
            let mut i: usize = 0;
            while i < items.len()
                invariant
                    decreases_to!(value => items),
                    models == list_model(items@),
                    i <= items.len(),
                    out@ == start + seq![LIST_OPEN] + encode_items(models.take(i as int)),
                    forall|j: int| 0 <= j < i ==> (#[trigger] models[j]).wf(),
                decreases items.len() - i,
            {
                let ghost before = out@;
                encode_into(&items[i], out);
                proof {
                    lemma_encode_items_push(models.take(i as int), models[i as int]);
                    assert(models.take(i + 1) =~= models.take(i as int).push(models[i as int]));
                    assert(out@ =~= start + seq![LIST_OPEN] + encode_items(models.take(i + 1)));
                }
                i += 1;
            }
            out.push(CLOSE);
            proof {
                assert(models.take(items.len() as int) =~= models);
                assert(out@ =~= start + encode_value(value@));
            }
        },
        Benc::D(dict) => {
            let ghost entries = dict@;
            proof {
                use_type_invariant(dict);
                lemma_dict_items(dict);
            }
            out.push(DICT_OPEN);
            let mut i: usize = 0;
            while i < dict.items.len()
                invariant
                    decreases_to!(value => dict),
                    entries == dict@,
                    entries.len() == dict.items@.len(),
                    forall|j: int|
                        0 <= j < entries.len() ==> #[trigger] entries[j] == (
                            dict.items@[j].0@,
                            dict.items@[j].1@,
                        ),
                    i <= dict.items.len(),
                    out@ == start + seq![DICT_OPEN] + encode_entries(entries.take(i as int)),
                    forall|j: int| 0 <= j < i ==> (#[trigger] entries[j]).1.wf(),
                decreases dict.items.len() - i,
            {
                encode_bytes_into(dict.items[i].0.as_slice(), out);
                encode_into(&dict.items[i].1, out);
                proof {
                    let e = entries[i as int];
                    lemma_encode_entries_push(entries.take(i as int), e.0, e.1);
                    assert(entries.take(i + 1) =~= entries.take(i as int).push(e));
                    assert(out@ =~= start + seq![DICT_OPEN] + encode_entries(entries.take(i + 1)));
                }
                i += 1;
            }
            out.push(CLOSE);
            proof {
                assert(entries.take(dict.items.len() as int) =~= entries);
                assert(out@ =~= start + encode_value(value@));
            }
        },
    }
}

/// The canonical encoding of `value`.
///
/// Encoding is total. A byte string is written as its length, a colon and
/// its bytes; an integer as `i`, its decimal text and `e`; a list as `l`,
/// its items in order and `e`; a dictionary as `d`, its entries in
/// ascending key order and `e`.
pub fn encode(value: &Benc) -> (out: Vec<u8>)
    ensures
        value@.wf(),
        out@ == encode_value(value@),
{
    let mut out: Vec<u8> = Vec::new();
    encode_into(value, &mut out);
    proof {
        assert(out@ =~= encode_value(value@));
    }
    out
}

/// What can be written as a bencoded value.
pub trait BEncodable {
    /// The value that `self` is written as.
    spec fn benc_model(&self) -> Value;

    /// The canonical encoding of `self`: the encoding of the well-formed
    /// value that `self` stands for.
    fn benc_encode(&self) -> (out: Vec<u8>)
        ensures
            self.benc_model().wf(),
            out@ == encode_value(self.benc_model()),
    ;
}

impl BEncodable for [u8] {
    /// Bytes are written as a byte string.
    open spec fn benc_model(&self) -> Value {
        Value::Str(self@)
    }

    fn benc_encode(&self) -> (out: Vec<u8>) {
        let mut out: Vec<u8> = Vec::new();
        encode_bytes_into(self, &mut out);
        proof {
            assert(out@ =~= encode_bytes(self@));
        }
        out
    }
}

impl BEncodable for Vec<u8> {
    /// Bytes are written as a byte string.
    open spec fn benc_model(&self) -> Value {
        Value::Str(self@)
    }

    fn benc_encode(&self) -> (out: Vec<u8>) {
        self.as_slice().benc_encode()
    }
}

impl BEncodable for str {
    /// Text is written as the byte string of its UTF-8 bytes.
    open spec fn benc_model(&self) -> Value {
        Value::Str(self.spec_bytes())
    }

    fn benc_encode(&self) -> (out: Vec<u8>) {
        self.as_bytes().benc_encode()
    }
}

impl BEncodable for String {
    /// Text is written as the byte string of its UTF-8 bytes.
    open spec fn benc_model(&self) -> Value {
        Value::Str(vstd::utf8::encode_utf8(self@))
    }

    fn benc_encode(&self) -> (out: Vec<u8>) {
        self.as_str().benc_encode()
    }
}

impl BEncodable for i64 {
    /// A number is written as an integer.
    open spec fn benc_model(&self) -> Value {
        Value::Int(*self)
    }

    fn benc_encode(&self) -> (out: Vec<u8>) {
        let mut out: Vec<u8> = Vec::new();
        encode_int_into(*self, &mut out);
        proof {
            assert(out@ =~= encode_int(*self));
        }
        out
    }
}

/// The values that the items of a sequence are written as.
pub open spec fn item_models<T: BEncodable>(items: Seq<T>) -> Seq<Value> {
    Seq::new(items.len(), |i: int| items[i].benc_model())
}

/// The entries that the entries of a mapping are written as.
pub open spec fn entry_models<T: BEncodable>(entries: Seq<(Seq<u8>, T)>) -> Seq<(Seq<u8>, Value)> {
    Seq::new(entries.len(), |i: int| (entries[i].0, entries[i].1.benc_model()))
}

impl<T: BEncodable> BEncodable for [T] {
    /// A sequence is written as the list of what its items are written as.
    open spec fn benc_model(&self) -> Value {
        Value::List(item_models(self@))
    }

    fn benc_encode(&self) -> (out: Vec<u8>) {
        let ghost models = item_models(self@);
        let mut out: Vec<u8> = Vec::new();
        out.push(LIST_OPEN);
        let mut i: usize = 0;
        while i < self.len()
            invariant
                models == item_models(self@),
                i <= self.len(),
                out@ == seq![LIST_OPEN] + encode_items(models.take(i as int)),
                forall|j: int| 0 <= j < i ==> (#[trigger] models[j]).wf(),
            decreases self.len() - i,
        {
            let mut piece = self[i].benc_encode();
            out.append(&mut piece);
            proof {
                lemma_encode_items_push(models.take(i as int), models[i as int]);
                assert(models.take(i + 1) =~= models.take(i as int).push(models[i as int]));
                assert(out@ =~= seq![LIST_OPEN] + encode_items(models.take(i + 1)));
            }
            i += 1;
        }
        out.push(CLOSE);
        proof {
            assert(models.take(self.len() as int) =~= models);
        }
        out
    }
}

impl<T: BEncodable> BEncodable for Vec<T> {
    /// A sequence is written as the list of what its items are written as.
    open spec fn benc_model(&self) -> Value {
        Value::List(item_models(self@))
    }

    fn benc_encode(&self) -> (out: Vec<u8>) {
        self.as_slice().benc_encode()
    }
}

impl<T: BEncodable> BEncodable for BMap<T> {
    /// A mapping is written as the dictionary of its keys, each with what
    /// its value is written as.
    open spec fn benc_model(&self) -> Value {
        Value::Dict(entry_models(self.entries()))
    }

    fn benc_encode(&self) -> (out: Vec<u8>) {
        let pairs = self.as_slice();
        let ghost models = entry_models(self.entries());
        let mut out: Vec<u8> = Vec::new();
        out.push(DICT_OPEN);
        let mut i: usize = 0;
        while i < pairs.len()
            invariant
                models == entry_models(self.entries()),
                entries_of(pairs@) == self.entries(),
                i <= pairs.len(),
                out@ == seq![DICT_OPEN] + encode_entries(models.take(i as int)),
                forall|j: int| 0 <= j < i ==> (#[trigger] models[j]).1.wf(),
            decreases pairs.len() - i,
        {
            proof {
                assert(entries_of(pairs@)[i as int] == (pairs@[i as int].0@, pairs@[i as int].1));
            }
            encode_bytes_into(pairs[i].0.as_slice(), &mut out);
            let mut piece = pairs[i].1.benc_encode();
            out.append(&mut piece);
            proof {
                let e = models[i as int];
                lemma_encode_entries_push(models.take(i as int), e.0, e.1);
                assert(models.take(i + 1) =~= models.take(i as int).push(e));
                assert(out@ =~= seq![DICT_OPEN] + encode_entries(models.take(i + 1)));
            }
            i += 1;
        }
        out.push(CLOSE);
        proof {
            assert(entries_of(pairs@).len() == pairs@.len());
            assert(models.take(pairs.len() as int) =~= models);
            assert forall|a: int, b: int| 0 <= a < b < models.len() implies lex_lt(
                (#[trigger] models[a]).0,
                (#[trigger] models[b]).0,
            ) by {
                assert(lex_lt(self.entries()[a].0, self.entries()[b].0));
            }
        }
        out
    }
}

impl BEncodable for Benc {
    /// A value is written as itself.
    open spec fn benc_model(&self) -> Value {
        self@
    }

    fn benc_encode(&self) -> (out: Vec<u8>) {
        encode(self)
    }
}

} // verus!
