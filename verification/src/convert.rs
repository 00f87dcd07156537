//! Values from what a program has at hand: numbers, bytes, text, vectors
//! and mappings.

use crate::dict::{dict_from_pairs, entries_of, lemma_from_pairs_map_values, map_values};
use crate::value::{copy_bytes, lemma_dict_model, BDict, Benc, Value};
use vstd::prelude::*;
use vstd::std_specs::convert::FromSpecImpl;
use vstd::string::StringSliceAdditionalSpecFns;

verus! {

impl From<i64> for Benc {
    /// The integer `n`.
    fn from(n: i64) -> (r: Benc) {
        Benc::I(n)
    }
}

impl FromSpecImpl<i64> for Benc {
    open spec fn obeys_from_spec() -> bool {
        true
    }

    open spec fn from_spec(n: i64) -> Benc {
        Benc::I(n)
    }
}

impl From<Vec<u8>> for Benc {
    /// The byte string that holds `bytes`.
    fn from(bytes: Vec<u8>) -> (r: Benc) {
        Benc::S(bytes)
    }
}

impl FromSpecImpl<Vec<u8>> for Benc {
    open spec fn obeys_from_spec() -> bool {
        true
    }

    open spec fn from_spec(bytes: Vec<u8>) -> Benc {
        Benc::S(bytes)
    }
}

impl From<Vec<Benc>> for Benc {
    /// The list of `items`, in their order.
    fn from(items: Vec<Benc>) -> (r: Benc) {
        Benc::L(items)
    }
}

impl FromSpecImpl<Vec<Benc>> for Benc {
    open spec fn obeys_from_spec() -> bool {
        true
    }

    open spec fn from_spec(items: Vec<Benc>) -> Benc {
        Benc::L(items)
    }
}

impl From<BDict> for Benc {
    /// The dictionary `dict`.
    fn from(dict: BDict) -> (r: Benc) {
        Benc::D(dict)
    }
}

impl FromSpecImpl<BDict> for Benc {
    open spec fn obeys_from_spec() -> bool {
        true
    }

    open spec fn from_spec(dict: BDict) -> Benc {
        Benc::D(dict)
    }
}

impl Benc {
    /// The byte string that holds a copy of `bytes`.
    pub fn bytes(bytes: &[u8]) -> (r: Benc)
        ensures
            r@ == Value::Str(bytes@),
    {
        Benc::S(copy_bytes(bytes))
    }

    /// The byte string that holds the UTF-8 bytes of `text`.
    pub fn text(text: &str) -> (r: Benc)
        ensures
            r@ == Value::Str(text.spec_bytes()),
    {
        Benc::S(copy_bytes(text.as_bytes()))
    }
}

/// The entries that pairs of keys and values stand for: each key by its
/// bytes, each value by its model.
pub open spec fn pair_models(pairs: Seq<(Vec<u8>, Benc)>) -> Seq<(Seq<u8>, Value)> {
    Seq::new(pairs.len(), |i: int| (pairs[i].0@, pairs[i].1@))
}

/// The dictionary that results from inserting `pairs` one after the other
/// into an empty dictionary. The pairs may come in any order; where a key
/// comes more than once, its last pair wins.
pub fn pair_vect_to_benc(pairs: Vec<(Vec<u8>, Benc)>) -> (r: Benc)
    ensures
        r@ == Value::Dict(dict_from_pairs(pair_models(pairs@))),
{
    let ghost given = entries_of(pairs@);
    let ghost models = pair_models(pairs@);
    let dict = BDict::from_pairs(pairs);
    proof {
        let f = |b: Benc| b@;
        lemma_dict_model(&dict);
        assert(dict@ =~= map_values(dict.entries(), f));
        lemma_from_pairs_map_values(given, f);
        assert(map_values(given, f) =~= models);
    }
    Benc::D(dict)
}

} // verus!
