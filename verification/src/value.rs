//! The value model: what a bencoded document is.

use crate::dict::{
    dict_insert, entries_of, keys_ascending, lemma_insert_map_values, map_values, BMap,
};
use crate::order::{bytes_eq, lex_lt};
use vstd::prelude::*;
use vstd::std_specs::cmp::PartialEqSpecImpl;

verus! {

/// A list of values. The order of the items is part of the value.
pub type BList = Vec<Benc>;

/// A dictionary: byte-string keys, each mapped to a value.
pub type BDict = BMap<Benc>;

/// A bencoded value: one variant for each production of the grammar.
///
/// An empty byte string, an empty list and an empty dictionary are three
/// different values.
#[derive(Debug, Eq)]
pub enum Benc {
    /// A byte string. It need not be valid text.
    S(Vec<u8>),
    /// A signed 64-bit integer.
    I(i64),
    /// A list of values.
    L(BList),
    /// A dictionary.
    D(BDict),
}

/// The mathematical model of a value.
///
/// A dictionary is modelled by its entries in strictly ascending key order
/// (see [`Value::wf`]): two well-formed models are equal exactly if they
/// stand for the same document.
pub enum Value {
    /// A byte string.
    Str(Seq<u8>),
    /// An integer.
    Int(i64),
    /// A list of values, in order.
    List(Seq<Value>),
    /// The entries of a dictionary.
    Dict(Seq<(Seq<u8>, Value)>),
}

impl Value {
    /// Well-formedness: in every dictionary of the value, at any depth, the
    /// keys are in strictly ascending byte-wise order.
    pub open spec fn wf(self) -> bool
        decreases self,
    {
        match self {
            Value::Str(_) => true,
            Value::Int(_) => true,
            Value::List(items) => forall|i: int|
                0 <= i < items.len() ==> (#[trigger] items[i]).wf(),
            Value::Dict(entries) => {
                &&& keys_ascending(entries)
                &&& forall|i: int| 0 <= i < entries.len() ==> (#[trigger] entries[i]).1.wf()
            },
        }
    }

    /// Whether the containers of the value are nested at most `depth` deep.
    /// A byte string or an integer has depth 0; a list or a dictionary is
    /// one deeper than its deepest item.
    pub open spec fn within_depth(self, depth: nat) -> bool
        decreases self,
    {
        match self {
            Value::Str(_) => true,
            Value::Int(_) => true,
            Value::List(items) => {
                &&& depth > 0
                &&& forall|i: int|
                    0 <= i < items.len() ==> (#[trigger] items[i]).within_depth((depth - 1) as nat)
            },
            Value::Dict(entries) => {
                &&& depth > 0
                &&& forall|i: int|
                    0 <= i < entries.len() ==> (#[trigger] entries[i]).1.within_depth(
                        (depth - 1) as nat,
                    )
            },
        }
    }
}

/// A value that is nested at most `depth` deep is nested at most `deeper`
/// deep, for every greater limit.
pub proof fn lemma_within_deeper(v: Value, depth: nat, deeper: nat)
    requires
        v.within_depth(depth),
        depth <= deeper,
    ensures
        v.within_depth(deeper),
    decreases v,
{
    match v {
        Value::List(items) => {
            assert forall|i: int| 0 <= i < items.len() implies (#[trigger] items[i]).within_depth(
                (deeper - 1) as nat,
            ) by {
                lemma_within_deeper(items[i], (depth - 1) as nat, (deeper - 1) as nat);
            }
        },
        Value::Dict(entries) => {
            assert forall|i: int| 0 <= i < entries.len() implies (#[trigger] entries[i]).1.within_depth(
                (deeper - 1) as nat,
            ) by {
                lemma_within_deeper(entries[i].1, (depth - 1) as nat, (deeper - 1) as nat);
            }
        },
        _ => {},
    }
}

/// Every value is nested some finite number of levels deep: the proof
/// returns a limit that the value is within.
pub proof fn lemma_some_depth(v: Value) -> (depth: nat)
    ensures
        v.within_depth(depth),
    decreases v, 0nat,
{
    match v {
        Value::List(items) => lemma_some_depth_of_items(items, items.len()) + 1,
        Value::Dict(entries) => lemma_some_depth_of_entries(entries, entries.len()) + 1,
        _ => 0,
    }
}

/// A limit that the first `n` items of a list are within.
pub proof fn lemma_some_depth_of_items(items: Seq<Value>, n: nat) -> (depth: nat)
    requires
        n <= items.len(),
    ensures
        forall|i: int| 0 <= i < n ==> (#[trigger] items[i]).within_depth(depth),
    decreases items, n,
{
    if n == 0 {
        0
    } else {
        let before = lemma_some_depth_of_items(items, (n - 1) as nat);
        let last = lemma_some_depth(items[n - 1]);
        let depth = if before >= last {
            before
        } else {
            last
        };
        assert forall|i: int| 0 <= i < n implies (#[trigger] items[i]).within_depth(depth) by {
            if i < n - 1 {
                lemma_within_deeper(items[i], before, depth);
            } else {
                lemma_within_deeper(items[i], last, depth);
            }
        }
        depth
    }
}

/// A limit that the values of the first `n` entries of a dictionary are
/// within.
pub proof fn lemma_some_depth_of_entries(entries: Seq<(Seq<u8>, Value)>, n: nat) -> (depth: nat)
    requires
        n <= entries.len(),
    ensures
        forall|i: int| 0 <= i < n ==> (#[trigger] entries[i]).1.within_depth(depth),
    decreases entries, n,
{
    if n == 0 {
        0
    } else {
        let before = lemma_some_depth_of_entries(entries, (n - 1) as nat);
        let last = lemma_some_depth(entries[n - 1].1);
        let depth = if before >= last {
            before
        } else {
            last
        };
        assert forall|i: int| 0 <= i < n implies (#[trigger] entries[i]).1.within_depth(depth) by {
            if i < n - 1 {
                lemma_within_deeper(entries[i].1, before, depth);
            } else {
                lemma_within_deeper(entries[i].1, last, depth);
            }
        }
        depth
    }
}

impl View for Benc {
    type V = Value;

    open spec fn view(&self) -> Value
        decreases self,
    {
        match self {
            Benc::S(bytes) => Value::Str(bytes@),
            Benc::I(n) => Value::Int(*n),
            Benc::L(items) => Value::List(list_model(items@)),
            Benc::D(dict) => Value::Dict(dict@),
        }
    }
}

/// The models of the items of a list.
pub open spec fn list_model(items: Seq<Benc>) -> Seq<Value>
    decreases items,
{
    Seq::new(
        items.len(),
        |i: int|
            if 0 <= i < items.len() {
                items[i].view()
            } else {
                Value::Int(0)
            },
    )
}

impl View for BMap<Benc> {
    type V = Seq<(Seq<u8>, Value)>;

    closed spec fn view(&self) -> Seq<(Seq<u8>, Value)>
        decreases self,
    {
        Seq::new(
            self.items@.len(),
            |i: int|
                if 0 <= i < self.items@.len() {
                    (self.items@[i].0@, self.items@[i].1.view())
                } else {
                    (Seq::empty(), Value::Int(0))
                },
        )
    }
}

/// The model of a dictionary pairs each key with the model of its value.
pub proof fn lemma_dict_model(dict: &BDict)
    ensures
        dict@.len() == dict.entries().len(),
        forall|i: int|
            0 <= i < dict@.len() ==> #[trigger] dict@[i] == (
                dict.entries()[i].0,
                dict.entries()[i].1@,
            ),
{
    dict.lemma_entries();
}

/// The model of a dictionary, read off its stored pairs.
pub(crate) proof fn lemma_dict_items(dict: &BDict)
    ensures
        dict@.len() == dict.items@.len(),
        forall|i: int|
            0 <= i < dict@.len() ==> #[trigger] dict@[i] == (dict.items@[i].0@, dict.items@[i].1@),
        dict.ascending() ==> keys_ascending(dict@),
{
    dict.lemma_entries();
    if dict.ascending() {
        let e = dict.entries();
        assert forall|i: int, j: int| 0 <= i < j < dict@.len() implies lex_lt(
            (#[trigger] dict@[i]).0,
            (#[trigger] dict@[j]).0,
        ) by {
            assert(lex_lt(e[i].0, e[j].0));
        }
    }
}

/// What an insertion does to the model of a dictionary: it inserts the
/// model of the value.
pub proof fn lemma_insert_model(before: &BDict, after: &BDict, key: Seq<u8>, value: Benc)
    requires
        after.entries() == dict_insert(before.entries(), key, value),
    ensures
        after@ == dict_insert(before@, key, value@),
{
    let f = |b: Benc| b@;
    lemma_dict_model(before);
    lemma_dict_model(after);
    assert(before@ =~= map_values(before.entries(), f));
    assert(after@ =~= map_values(after.entries(), f));
    lemma_insert_map_values(before.entries(), f, key, value);
}

/// A copy of the bytes of `bytes`.
pub fn copy_bytes(bytes: &[u8]) -> (r: Vec<u8>)
    ensures
        r@ == bytes@,
{
    let mut r: Vec<u8> = Vec::with_capacity(bytes.len());
    let mut i: usize = 0;
    while i < bytes.len()
        invariant
            i <= bytes.len(),
            r@ == bytes@.take(i as int),
        decreases bytes.len() - i,
    {
        r.push(bytes[i]);
        proof {
            assert(bytes@.take(i + 1) =~= bytes@.take(i as int).push(bytes@[i as int]));
        }
        i += 1;
    }
    proof {
        assert(bytes@.take(bytes.len() as int) =~= bytes@);
    }
    r
}

/// A deep copy of `value`.
fn copy_value(value: &Benc) -> (r: Benc)
    ensures
        r@ == value@,
    decreases value,
{
    match value {
        Benc::S(bytes) => Benc::S(copy_bytes(bytes.as_slice())),
        Benc::I(n) => Benc::I(*n),
        Benc::L(items) => {
            let mut copies: Vec<Benc> = Vec::with_capacity(items.len());
            let mut i: usize = 0;
            while i < items.len()
                invariant
                    decreases_to!(value => items),
                    i <= items.len(),
                    copies@.len() == i,
                    forall|j: int| 0 <= j < i ==> (#[trigger] copies@[j])@ == items@[j]@,
                decreases items.len() - i,
            {
                let item = copy_value(&items[i]);
                copies.push(item);
                i += 1;
            }
            proof {
                assert(list_model(copies@) =~= list_model(items@));
            }
            Benc::L(copies)
        },
        Benc::D(dict) => {
            proof {
                use_type_invariant(dict);
                dict.lemma_entries();
            }
            let mut copies: Vec<(Vec<u8>, Benc)> = Vec::with_capacity(dict.items.len());
            let mut i: usize = 0;
            while i < dict.items.len()
                invariant
                    decreases_to!(value => dict),
                    i <= dict.items.len(),
                    copies@.len() == i,
                    forall|j: int|
                        0 <= j < i ==> {
                            &&& (#[trigger] copies@[j]).0@ == dict.items@[j].0@
                            &&& copies@[j].1@ == dict.items@[j].1@
                        },
                decreases dict.items.len() - i,
            {
                let key = copy_bytes(dict.items[i].0.as_slice());
                let item = copy_value(&dict.items[i].1);
                copies.push((key, item));
                i += 1;
            }
            proof {
                let a = entries_of(dict.items@);
                let b = entries_of(copies@);
                assert forall|i: int, j: int| 0 <= i < j < b.len() implies lex_lt(
                    (#[trigger] b[i]).0,
                    (#[trigger] b[j]).0,
                ) by {
                    assert(lex_lt(a[i].0, a[j].0));
                    assert(copies@[i].0@ == dict.items@[i].0@);
                    assert(copies@[j].0@ == dict.items@[j].0@);
                }
            }
            let copy = BMap::from_ascending(copies);
            proof {
                assert(copy@ =~= dict@);
            }
            Benc::D(copy)
        },
    }
}

impl Clone for Benc {
    /// A deep copy: a value with the same model.
    fn clone(&self) -> (r: Self)
        ensures
            r@ == self@,
    {
        copy_value(self)
    }
}

/// Whether `a` and `b` are the same value: the same variant, with the same
/// content.
fn same_value(a: &Benc, b: &Benc) -> (r: bool)
    ensures
        r == (a@ == b@),
    decreases a,
{
    match (a, b) {
        (Benc::S(x), Benc::S(y)) => bytes_eq(x.as_slice(), y.as_slice()),
        (Benc::I(x), Benc::I(y)) => *x == *y,
        (Benc::L(xs), Benc::L(ys)) => {
            if xs.len() != ys.len() {
                proof {
                    assert(list_model(xs@).len() != list_model(ys@).len());
                }
                return false;
            }
            let mut i: usize = 0;
            while i < xs.len()
                invariant
                    decreases_to!(a => xs),
                    a@ == Value::List(list_model(xs@)),
                    b@ == Value::List(list_model(ys@)),
                    xs.len() == ys.len(),
                    i <= xs.len(),
                    forall|j: int| 0 <= j < i ==> (#[trigger] xs@[j])@ == ys@[j]@,
                decreases xs.len() - i,
            {
                if !same_value(&xs[i], &ys[i]) {
                    proof {
                        assert(list_model(xs@)[i as int] != list_model(ys@)[i as int]);
                    }
                    return false;
                }
                i += 1;
            }
            proof {
                assert(list_model(xs@) =~= list_model(ys@));
            }
            true
        },
        (Benc::D(p), Benc::D(q)) => {
            proof {
                lemma_dict_items(p);
                lemma_dict_items(q);
            }
            if p.items.len() != q.items.len() {
                return false;
            }
            let mut i: usize = 0;
            while i < p.items.len()
                invariant
                    decreases_to!(a => p),
                    a@ == Value::Dict(p@),
                    b@ == Value::Dict(q@),
                    p.items.len() == q.items.len(),
                    p@.len() == p.items@.len(),
                    q@.len() == q.items@.len(),
                    forall|j: int|
                        0 <= j < p@.len() ==> #[trigger] p@[j] == (p.items@[j].0@, p.items@[j].1@),
                    forall|j: int|
                        0 <= j < q@.len() ==> #[trigger] q@[j] == (q.items@[j].0@, q.items@[j].1@),
                    i <= p.items.len(),
                    forall|j: int| 0 <= j < i ==> #[trigger] p@[j] == q@[j],
                decreases p.items.len() - i,
            {
                if !bytes_eq(p.items[i].0.as_slice(), q.items[i].0.as_slice()) {
                    proof {
                        assert(p@[i as int] != q@[i as int]);
                    }
                    return false;
                }
                if !same_value(&p.items[i].1, &q.items[i].1) {
                    proof {
                        assert(p@[i as int] != q@[i as int]);
                    }
                    return false;
                }
                i += 1;
            }
            proof {
                assert(p@ =~= q@);
            }
            true
        },
        _ => false,
    }
}

impl PartialEq for Benc {
    /// Equality is structural: two values are equal exactly if they are of
    /// the same variant and hold the same content.
    fn eq(&self, other: &Self) -> (r: bool) {
        same_value(self, other)
    }
}

impl PartialEqSpecImpl for Benc {
    open spec fn obeys_eq_spec() -> bool {
        true
    }

    open spec fn eq_spec(&self, other: &Self) -> bool {
        self@ == other@
    }
}

} // verus!
