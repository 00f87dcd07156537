//! Dictionaries: mappings from byte-string keys to values, kept as a list
//! of entries in strictly ascending key order.
//!
//! A list in strictly ascending key order holds each key at most once, and
//! two such lists are equal exactly if they map the same keys to the same
//! values. So the list itself is the canonical form of the mapping, and the
//! order in which an encoder has to write the entries is the stored one.

use crate::order::{
    bytes_eq, bytes_lt, lemma_lex_lt_asymmetric, lemma_lex_lt_irreflexive, lemma_lex_lt_total,
    lemma_lex_lt_transitive, lex_lt,
};
use vstd::prelude::*;

verus! {

/// The keys of `s` are in strictly ascending byte-wise order (so no key
/// occurs twice).
pub open spec fn keys_ascending<V>(s: Seq<(Seq<u8>, V)>) -> bool {
    forall|i: int, j: int| 0 <= i < j < s.len() ==> lex_lt((#[trigger] s[i]).0, (#[trigger] s[j]).0)
}

/// The value that `s` holds for `key`: that of the first entry with this
/// key, if there is one.
pub open spec fn dict_get<V>(s: Seq<(Seq<u8>, V)>, key: Seq<u8>) -> Option<V>
    decreases s.len(),
{
    if s.len() == 0 {
        None
    } else if s[0].0 == key {
        Some(s[0].1)
    } else {
        dict_get(s.skip(1), key)
    }
}

/// `s` with `key` mapped to `value`. An entry that `s` has for `key` is
/// replaced; otherwise the new entry goes in front of the first entry with
/// a greater key, or to the end.
pub open spec fn dict_insert<V>(s: Seq<(Seq<u8>, V)>, key: Seq<u8>, value: V) -> Seq<(Seq<u8>, V)>
    decreases s.len(),
{
    if s.len() == 0 {
        seq![(key, value)]
    } else if lex_lt(key, s[0].0) {
        seq![(key, value)] + s
    } else if s[0].0 == key {
        seq![(key, value)] + s.skip(1)
    } else {
        seq![s[0]] + dict_insert(s.skip(1), key, value)
    }
}

/// The dictionary that results from inserting `pairs` one after the other
/// into an empty dictionary. Where a key occurs more than once, the last
/// occurrence wins.
pub open spec fn dict_from_pairs<V>(pairs: Seq<(Seq<u8>, V)>) -> Seq<(Seq<u8>, V)>
    decreases pairs.len(),
{
    if pairs.len() == 0 {
        Seq::empty()
    } else {
        dict_insert(dict_from_pairs(pairs.drop_last()), pairs.last().0, pairs.last().1)
    }
}

/// Every entry of the result of an insertion is the new entry or an entry
/// of the old dictionary.
pub proof fn lemma_insert_entries<V>(s: Seq<(Seq<u8>, V)>, key: Seq<u8>, value: V)
    ensures
        forall|i: int|
            0 <= i < dict_insert(s, key, value).len() ==> {
                let e = #[trigger] dict_insert(s, key, value)[i];
                e == (key, value) || s.contains(e)
            },
        dict_insert(s, key, value).len() >= 1,
    decreases s.len(),
{
    let r = dict_insert(s, key, value);
    if s.len() == 0 {
    } else if lex_lt(key, s[0].0) {
        assert forall|i: int| 0 <= i < r.len() implies ({
            let e = #[trigger] r[i];
            e == (key, value) || s.contains(e)
        }) by {
            if i > 0 {
                assert(r[i] == s[i - 1]);
            }
        }
    } else if s[0].0 == key {
        assert forall|i: int| 0 <= i < r.len() implies ({
            let e = #[trigger] r[i];
            e == (key, value) || s.contains(e)
        }) by {
            if i > 0 {
                assert(r[i] == s[i]);
            }
        }
    } else {
        lemma_insert_entries(s.skip(1), key, value);
        let t = dict_insert(s.skip(1), key, value);
        assert forall|i: int| 0 <= i < r.len() implies ({
            let e = #[trigger] r[i];
            e == (key, value) || s.contains(e)
        }) by {
            if i == 0 {
                assert(r[0] == s[0]);
            } else {
                assert(r[i] == t[i - 1]);
                if t[i - 1] != (key, value) {
                    let j = choose|j: int| 0 <= j < s.skip(1).len() && s.skip(1)[j] == t[i - 1];
                    assert(s[j + 1] == t[i - 1]);
                }
            }
        }
    }
}

/// Insertion keeps the keys in strictly ascending order.
pub proof fn lemma_insert_ascending<V>(s: Seq<(Seq<u8>, V)>, key: Seq<u8>, value: V)
    requires
        keys_ascending(s),
    ensures
        keys_ascending(dict_insert(s, key, value)),
    decreases s.len(),
{
    let r = dict_insert(s, key, value);
    if s.len() == 0 {
    } else if lex_lt(key, s[0].0) {
        assert forall|i: int, j: int| 0 <= i < j < r.len() implies lex_lt(
            (#[trigger] r[i]).0,
            (#[trigger] r[j]).0,
        ) by {
            assert(r[j] == s[j - 1]);
            if i == 0 {
                if j > 1 {
                    assert(lex_lt(s[0].0, s[j - 1].0));
                    lemma_lex_lt_transitive(key, s[0].0, s[j - 1].0);
                }
            } else {
                assert(r[i] == s[i - 1]);
            }
        }
    } else if s[0].0 == key {
        assert forall|i: int, j: int| 0 <= i < j < r.len() implies lex_lt(
            (#[trigger] r[i]).0,
            (#[trigger] r[j]).0,
        ) by {
            assert(r[j] == s[j]);
            if i == 0 {
                assert(lex_lt(s[0].0, s[j].0));
            } else {
                assert(r[i] == s[i]);
            }
        }
    } else {
        let tail = s.skip(1);
        assert(keys_ascending(tail)) by {
            assert forall|i: int, j: int| 0 <= i < j < tail.len() implies lex_lt(
                (#[trigger] tail[i]).0,
                (#[trigger] tail[j]).0,
            ) by {
                assert(tail[i] == s[i + 1] && tail[j] == s[j + 1]);
            }
        }
        lemma_insert_ascending(tail, key, value);
        lemma_insert_entries(tail, key, value);
        lemma_lex_lt_total(key, s[0].0);
        let t = dict_insert(tail, key, value);
        assert forall|i: int, j: int| 0 <= i < j < r.len() implies lex_lt(
            (#[trigger] r[i]).0,
            (#[trigger] r[j]).0,
        ) by {
            assert(r[j] == t[j - 1]);
            if i == 0 {
                assert(r[0] == s[0]);
                if t[j - 1] != (key, value) {
                    let m = choose|m: int| 0 <= m < tail.len() && tail[m] == t[j - 1];
                    assert(tail[m] == s[m + 1]);
                }
            } else {
                assert(r[i] == t[i - 1]);
            }
        }
    }
}

/// A dictionary built by insertions has its keys in strictly ascending
/// order, whatever the order and the repetitions among the pairs.
pub proof fn lemma_from_pairs_ascending<V>(pairs: Seq<(Seq<u8>, V)>)
    ensures
        keys_ascending(dict_from_pairs(pairs)),
    decreases pairs.len(),
{
    if pairs.len() > 0 {
        lemma_from_pairs_ascending(pairs.drop_last());
        lemma_insert_ascending(dict_from_pairs(pairs.drop_last()), pairs.last().0, pairs.last().1);
    }
}

/// Every value of a dictionary built by insertions is the value of one of
/// the pairs.
pub proof fn lemma_from_pairs_entries<V>(pairs: Seq<(Seq<u8>, V)>)
    ensures
        forall|i: int|
            0 <= i < dict_from_pairs(pairs).len() ==> pairs.contains(
                #[trigger] dict_from_pairs(pairs)[i],
            ),
    decreases pairs.len(),
{
    if pairs.len() > 0 {
        let front = pairs.drop_last();
        lemma_from_pairs_entries(front);
        lemma_insert_entries(dict_from_pairs(front), pairs.last().0, pairs.last().1);
        let r = dict_from_pairs(pairs);
        assert forall|i: int| 0 <= i < r.len() implies pairs.contains(#[trigger] r[i]) by {
            if r[i] == pairs.last() {
                assert(pairs[pairs.len() - 1] == r[i]);
            } else {
                let d = dict_from_pairs(front);
                let j = choose|j: int| 0 <= j < d.len() && d[j] == r[i];
                let m = choose|m: int| 0 <= m < front.len() && front[m] == d[j];
                assert(pairs[m] == r[i]);
            }
        }
    }
}

/// Entries with one more entry at the end are in strictly ascending key
/// order exactly if they were so before and the new key sorts after the
/// last key.
pub proof fn lemma_push_ascending<V>(s: Seq<(Seq<u8>, V)>, key: Seq<u8>, value: V)
    ensures
        keys_ascending(s.push((key, value))) == (keys_ascending(s) && (s.len() > 0 ==> lex_lt(
            s.last().0,
            key,
        ))),
{
    let t = s.push((key, value));
    if keys_ascending(t) {
        assert forall|i: int, j: int| 0 <= i < j < s.len() implies lex_lt(
            (#[trigger] s[i]).0,
            (#[trigger] s[j]).0,
        ) by {
            assert(t[i] == s[i] && t[j] == s[j]);
        }
        if s.len() > 0 {
            assert(t[s.len() - 1] == s.last());
            assert(t[s.len() as int] == (key, value));
            assert(lex_lt(t[s.len() - 1].0, t[s.len() as int].0));
        }
    }
    if keys_ascending(s) && (s.len() > 0 ==> lex_lt(s.last().0, key)) {
        assert forall|i: int, j: int| 0 <= i < j < t.len() implies lex_lt(
            (#[trigger] t[i]).0,
            (#[trigger] t[j]).0,
        ) by {
            assert(t[i] == s[i]);
            if j < s.len() {
                assert(t[j] == s[j]);
            } else {
                if i < s.len() - 1 {
                    assert(lex_lt(s[i].0, s[s.len() - 1].0));
                    lemma_lex_lt_transitive(s[i].0, s.last().0, key);
                }
            }
        }
    }
}

/// Pairs that come in strictly ascending key order are their own
/// dictionary: inserting them one after the other changes nothing.
pub proof fn lemma_from_pairs_of_ascending<V>(pairs: Seq<(Seq<u8>, V)>)
    requires
        keys_ascending(pairs),
    ensures
        dict_from_pairs(pairs) == pairs,
    decreases pairs.len(),
{
    if pairs.len() > 0 {
        let front = pairs.drop_last();
        let last = pairs.last();
        assert(keys_ascending(front)) by {
            assert forall|i: int, j: int| 0 <= i < j < front.len() implies lex_lt(
                (#[trigger] front[i]).0,
                (#[trigger] front[j]).0,
            ) by {
                assert(front[i] == pairs[i] && front[j] == pairs[j]);
            }
        }
        lemma_from_pairs_of_ascending(front);
        assert forall|j: int| 0 <= j < front.len() implies lex_lt((#[trigger] front[j]).0, last.0) by {
            assert(front[j] == pairs[j]);
            assert(last == pairs[pairs.len() - 1]);
        }
        lemma_insert_at(front, last.0, last.1, front.len() as int);
        assert(front.insert(front.len() as int, last) =~= pairs);
    } else {
        assert(dict_from_pairs(pairs) =~= pairs);
    }
}

/// Last occurrence wins: after an insertion the key maps to the new value,
/// and every other key maps to what it mapped to before.
pub proof fn lemma_insert_get<V>(s: Seq<(Seq<u8>, V)>, key: Seq<u8>, value: V, other: Seq<u8>)
    ensures
        dict_get(dict_insert(s, key, value), other) == if other == key {
            Some(value)
        } else {
            dict_get(s, other)
        },
    decreases s.len(),
{
    let r = dict_insert(s, key, value);
    if s.len() == 0 {
        assert(r.skip(1) =~= s);
    } else if lex_lt(key, s[0].0) {
        assert(r.skip(1) =~= s);
    } else if s[0].0 == key {
        assert(r.skip(1) =~= s.skip(1));
    } else {
        lemma_insert_get(s.skip(1), key, value, other);
        assert(r.skip(1) =~= dict_insert(s.skip(1), key, value));
    }
}

/// Where the first `idx` keys of `s` sort before `key` and the key at
/// `idx`, if there is one, does not, the insertion takes place at `idx`: it
/// replaces the entry there if that has the same key, and else puts the new
/// entry in front of it.
pub proof fn lemma_insert_at<V>(s: Seq<(Seq<u8>, V)>, key: Seq<u8>, value: V, idx: int)
    requires
        0 <= idx <= s.len(),
        forall|j: int| 0 <= j < idx ==> lex_lt((#[trigger] s[j]).0, key),
        idx < s.len() ==> !lex_lt(s[idx].0, key),
    ensures
        dict_insert(s, key, value) == if idx < s.len() && s[idx].0 == key {
            s.update(idx, (key, value))
        } else {
            s.insert(idx, (key, value))
        },
    decreases idx,
{
    let r = dict_insert(s, key, value);
    if idx == 0 {
        if s.len() == 0 {
            assert(r =~= s.insert(0, (key, value)));
        } else {
            lemma_lex_lt_total(key, s[0].0);
            lemma_lex_lt_irreflexive(key);
            if s[0].0 == key {
                assert(r =~= s.update(0, (key, value)));
            } else {
                assert(r =~= s.insert(0, (key, value)));
            }
        }
    } else {
        assert(lex_lt(s[0].0, key));
        lemma_lex_lt_asymmetric(s[0].0, key);
        lemma_lex_lt_irreflexive(key);
        let tail = s.skip(1);
        assert forall|j: int| 0 <= j < idx - 1 implies lex_lt((#[trigger] tail[j]).0, key) by {
            assert(tail[j] == s[j + 1]);
        }
        lemma_insert_at(tail, key, value, idx - 1);
        if idx < s.len() && s[idx].0 == key {
            assert(r =~= s.update(idx, (key, value)));
        } else {
            assert(r =~= s.insert(idx, (key, value)));
        }
    }
}

/// In a dictionary in ascending key order, where the first `idx` keys sort
/// before `key` and the key at `idx`, if there is one, does not, the entry
/// for `key` is the one at `idx` or there is none.
pub proof fn lemma_get_at<V>(s: Seq<(Seq<u8>, V)>, key: Seq<u8>, idx: int)
    requires
        keys_ascending(s),
        0 <= idx <= s.len(),
        forall|j: int| 0 <= j < idx ==> lex_lt((#[trigger] s[j]).0, key),
        idx < s.len() ==> !lex_lt(s[idx].0, key),
    ensures
        dict_get(s, key) == if idx < s.len() && s[idx].0 == key {
            Some(s[idx].1)
        } else {
            None
        },
    decreases idx,
{
    lemma_lex_lt_irreflexive(key);
    if idx == 0 {
        if s.len() > 0 && s[0].0 != key {
            lemma_lex_lt_total(key, s[0].0);
            assert forall|j: int| 0 <= j < s.len() implies (#[trigger] s[j]).0 != key by {
                if j > 0 {
                    assert(lex_lt(s[0].0, s[j].0));
                    lemma_lex_lt_transitive(key, s[0].0, s[j].0);
                }
            }
            lemma_get_absent(s, key, 0);
            assert(s.skip(0) =~= s);
        }
    } else {
        assert(lex_lt(s[0].0, key));
        let tail = s.skip(1);
        assert forall|j: int| 0 <= j < idx - 1 implies lex_lt((#[trigger] tail[j]).0, key) by {
            assert(tail[j] == s[j + 1]);
        }
        assert(keys_ascending(tail)) by {
            assert forall|i: int, j: int| 0 <= i < j < tail.len() implies lex_lt(
                (#[trigger] tail[i]).0,
                (#[trigger] tail[j]).0,
            ) by {
                assert(tail[i] == s[i + 1] && tail[j] == s[j + 1]);
            }
        }
        lemma_get_at(tail, key, idx - 1);
    }
}

/// Where no entry of `s` from `idx` on has the key `key`, a lookup from
/// there on finds nothing.
proof fn lemma_get_absent<V>(s: Seq<(Seq<u8>, V)>, key: Seq<u8>, idx: int)
    requires
        0 <= idx <= s.len(),
        forall|j: int| idx <= j < s.len() ==> (#[trigger] s[j]).0 != key,
    ensures
        dict_get(s.skip(idx), key) == None::<V>,
    decreases s.len() - idx,
{
    if idx < s.len() {
        lemma_get_absent(s, key, idx + 1);
        assert(s.skip(idx).skip(1) =~= s.skip(idx + 1));
        assert(s.skip(idx)[0] == s[idx]);
    }
}

/// A lookup that finds a value finds it in an entry of the dictionary.
pub proof fn lemma_get_some<V>(s: Seq<(Seq<u8>, V)>, key: Seq<u8>)
    ensures
        dict_get(s, key) matches Some(v) ==> s.contains((key, v)),
    decreases s.len(),
{
    if s.len() > 0 {
        if s[0].0 == key {
            assert(s[0] == (key, s[0].1));
        } else {
            lemma_get_some(s.skip(1), key);
            if let Some(v) = dict_get(s.skip(1), key) {
                let j = choose|j: int| 0 <= j < s.skip(1).len() && s.skip(1)[j] == (key, v);
                assert(s[j + 1] == (key, v));
            }
        }
    }
}

/// In a dictionary in ascending key order, a lookup of the key of an entry
/// finds the value of that entry.
pub proof fn lemma_get_entry<V>(s: Seq<(Seq<u8>, V)>, idx: int)
    requires
        keys_ascending(s),
        0 <= idx < s.len(),
    ensures
        dict_get(s, s[idx].0) == Some(s[idx].1),
{
    let key = s[idx].0;
    lemma_lex_lt_irreflexive(key);
    assert forall|j: int| 0 <= j < idx implies lex_lt((#[trigger] s[j]).0, key) by {}
    lemma_get_at(s, key, idx);
}

/// The entries in ascending key order are the canonical form of a mapping:
/// two dictionaries in ascending key order in which every key looks up the
/// same are the same dictionary.
pub proof fn lemma_same_lookups_same_entries<V>(a: Seq<(Seq<u8>, V)>, b: Seq<(Seq<u8>, V)>)
    requires
        keys_ascending(a),
        keys_ascending(b),
        forall|key: Seq<u8>| dict_get(a, key) == dict_get(b, key),
    ensures
        a == b,
    decreases a.len(),
{
    if a.len() == 0 {
        if b.len() > 0 {
            lemma_get_entry(b, 0);
            assert(dict_get(a, b[0].0) == dict_get(b, b[0].0));
        }
        assert(a =~= b);
    } else {
        lemma_get_entry(a, 0);
        assert(dict_get(a, a[0].0) == dict_get(b, a[0].0));
        assert(b.len() > 0);
        lemma_get_entry(b, 0);
        assert(dict_get(a, b[0].0) == dict_get(b, b[0].0));
        // The least keys of the two are the same key.
        lemma_get_some(a, b[0].0);
        lemma_get_some(b, a[0].0);
        let i = choose|i: int| 0 <= i < a.len() && a[i] == (b[0].0, b[0].1);
        let j = choose|j: int| 0 <= j < b.len() && b[j] == (a[0].0, a[0].1);
        lemma_lex_lt_irreflexive(a[0].0);
        if i > 0 && j > 0 {
            assert(lex_lt(a[0].0, a[i].0));
            assert(lex_lt(b[0].0, b[j].0));
            lemma_lex_lt_asymmetric(a[0].0, b[0].0);
        }
        if i > 0 {
            assert(lex_lt(a[0].0, a[i].0));
        }
        if j > 0 {
            assert(lex_lt(b[0].0, b[j].0));
        }
        assert(a[0] == b[0]);
        // The rest of each looks up the same, too.
        let ta = a.skip(1);
        let tb = b.skip(1);
        assert(keys_ascending(ta)) by {
            assert forall|i: int, j: int| 0 <= i < j < ta.len() implies lex_lt(
                (#[trigger] ta[i]).0,
                (#[trigger] ta[j]).0,
            ) by {
                assert(ta[i] == a[i + 1] && ta[j] == a[j + 1]);
            }
        }
        assert(keys_ascending(tb)) by {
            assert forall|i: int, j: int| 0 <= i < j < tb.len() implies lex_lt(
                (#[trigger] tb[i]).0,
                (#[trigger] tb[j]).0,
            ) by {
                assert(tb[i] == b[i + 1] && tb[j] == b[j + 1]);
            }
        }
        assert forall|key: Seq<u8>| dict_get(ta, key) == dict_get(tb, key) by {
            if key == a[0].0 {
                assert forall|j: int| 1 <= j < a.len() implies (#[trigger] a[j]).0 != key by {
                    assert(lex_lt(a[0].0, a[j].0));
                }
                assert forall|j: int| 1 <= j < b.len() implies (#[trigger] b[j]).0 != key by {
                    assert(lex_lt(b[0].0, b[j].0));
                }
                lemma_get_absent(a, key, 1);
                lemma_get_absent(b, key, 1);
            } else {
                assert(dict_get(a, key) == dict_get(b, key));
            }
        }
        lemma_same_lookups_same_entries(ta, tb);
        assert(a =~= seq![a[0]] + ta);
        assert(b =~= seq![b[0]] + tb);
    }
}

/// `s` with `f` applied to each value.
pub open spec fn map_values<A, B>(s: Seq<(Seq<u8>, A)>, f: spec_fn(A) -> B) -> Seq<(Seq<u8>, B)> {
    Seq::new(s.len(), |i: int| (s[i].0, f(s[i].1)))
}

/// Insertion goes by the keys alone: to insert and then change each value
/// by `f` is to change each value by `f` and then insert.
pub proof fn lemma_insert_map_values<A, B>(
    s: Seq<(Seq<u8>, A)>,
    f: spec_fn(A) -> B,
    key: Seq<u8>,
    value: A,
)
    ensures
        map_values(dict_insert(s, key, value), f) == dict_insert(map_values(s, f), key, f(value)),
    decreases s.len(),
{
    let left = map_values(dict_insert(s, key, value), f);
    let right = dict_insert(map_values(s, f), key, f(value));
    if s.len() == 0 {
        assert(left =~= right);
    } else if lex_lt(key, s[0].0) {
        assert(left =~= right);
    } else if s[0].0 == key {
        assert(map_values(s, f).skip(1) =~= map_values(s.skip(1), f));
        assert(left =~= right);
    } else {
        lemma_insert_map_values(s.skip(1), f, key, value);
        assert(map_values(s, f).skip(1) =~= map_values(s.skip(1), f));
        assert(left =~= right);
    }
}

/// Building a dictionary goes by the keys alone, too: to build it from
/// pairs and then change each value by `f` is to change each value by `f`
/// and then build it.
pub proof fn lemma_from_pairs_map_values<A, B>(pairs: Seq<(Seq<u8>, A)>, f: spec_fn(A) -> B)
    ensures
        map_values(dict_from_pairs(pairs), f) == dict_from_pairs(map_values(pairs, f)),
    decreases pairs.len(),
{
    if pairs.len() == 0 {
        assert(map_values(dict_from_pairs(pairs), f) =~= dict_from_pairs(map_values(pairs, f)));
    } else {
        let front = pairs.drop_last();
        lemma_from_pairs_map_values(front, f);
        lemma_insert_map_values(dict_from_pairs(front), f, pairs.last().0, pairs.last().1);
        assert(map_values(pairs, f).drop_last() =~= map_values(front, f));
    }
}

/// The entries that a vector of stored pairs stands for: each key by the
/// bytes it holds, each value as it is.
pub open spec fn entries_of<T>(items: Seq<(Vec<u8>, T)>) -> Seq<(Seq<u8>, T)> {
    Seq::new(items.len(), |i: int| (items[i].0@, items[i].1))
}

/// An ordered mapping from byte-string keys to values of type `T`.
///
/// The keys are compared byte by byte. The entries are kept in strictly
/// ascending key order at all times, so each key occurs once and walking
/// the entries visits the keys in canonical order.
#[derive(Debug, PartialEq, Eq)]
pub struct BMap<T> {
    pub(crate) items: Vec<(Vec<u8>, T)>,
}

impl<T> BMap<T> {
    /// The entries of the mapping, in ascending key order.
    pub closed spec fn entries(&self) -> Seq<(Seq<u8>, T)> {
        entries_of(self.items@)
    }

    /// What holds of every mapping: its keys are in strictly ascending
    /// order.
    #[verifier::type_invariant]
    pub closed spec fn ascending(&self) -> bool {
        keys_ascending(entries_of(self.items@))
    }

    /// The entries are those of the stored pairs.
    pub(crate) proof fn lemma_entries(&self)
        ensures
            self.entries() == entries_of(self.items@),
            self.ascending() == keys_ascending(self.entries()),
    {
    }

    /// An empty mapping.
    pub fn new() -> (r: Self)
        ensures
            r.entries() == Seq::<(Seq<u8>, T)>::empty(),
    {
        let r = BMap { items: Vec::new() };
        assert(r.entries() =~= Seq::<(Seq<u8>, T)>::empty());
        r
    }

    /// The mapping with the given pairs, which are in ascending key order.
    pub(crate) fn from_ascending(items: Vec<(Vec<u8>, T)>) -> (r: Self)
        requires
            keys_ascending(entries_of(items@)),
        ensures
            r.items == items,
            r.entries() == entries_of(items@),
    {
        BMap { items }
    }

    /// The mapping that results from inserting `pairs` one after the other
    /// into an empty mapping: where a key comes more than once, its last
    /// pair wins.
    pub fn from_pairs(pairs: Vec<(Vec<u8>, T)>) -> (r: Self)
        ensures
            r.entries() == dict_from_pairs(entries_of(pairs@)),
    {
        let ghost all = entries_of(pairs@);
        let mut map: BMap<T> = BMap::new();
        for pair in it: pairs.into_iter()
            invariant
                it.seq() == pairs@,
                all == entries_of(pairs@),
                map.entries() == dict_from_pairs(all.take(it.index() as int)),
        {
            let ghost done = it.index() as int;
            proof {
                assert(all.take(done + 1).drop_last() =~= all.take(done));
                assert(all.take(done + 1).last() == (pair.0@, pair.1));
            }
            let (key, value) = pair;
            map.insert(key, value);
        }
        proof {
            assert(all.take(all.len() as int) =~= all);
        }
        map
    }

    /// The number of entries.
    pub fn len(&self) -> (n: usize)
        ensures
            n == self.entries().len(),
    {
        self.items.len()
    }

    /// Whether the mapping has no entry.
    pub fn is_empty(&self) -> (b: bool)
        ensures
            b == (self.entries().len() == 0),
    {
        self.items.len() == 0
    }

    /// The stored pairs, in ascending key order.
    pub fn as_slice(&self) -> (r: &[(Vec<u8>, T)])
        ensures
            entries_of(r@) == self.entries(),
            keys_ascending(self.entries()),
    {
        proof {
            use_type_invariant(self);
        }
        self.items.as_slice()
    }

    /// Maps `key` to `value`. Returns the value that `key` was mapped to
    /// before, if any: a later insertion for a key replaces an earlier one.
    pub fn insert(&mut self, key: Vec<u8>, value: T) -> (previous: Option<T>)
        ensures
            final(self).entries() == dict_insert(old(self).entries(), key@, value),
            previous == dict_get(old(self).entries(), key@),
    {
        proof {
            use_type_invariant(&*self);
        }
        let mut items: Vec<(Vec<u8>, T)> = Vec::new();
        std::mem::swap(&mut items, &mut self.items);
        let ghost before = entries_of(items@);
        let idx = position(&items, key.as_slice());
        proof {
            lemma_insert_at(before, key@, value, idx as int);
            lemma_get_at(before, key@, idx as int);
            lemma_insert_ascending(before, key@, value);
        }
        let found = idx < items.len() && bytes_eq(items[idx].0.as_slice(), key.as_slice());
        let previous = if found {
            let removed = items.remove(idx);
            Some(removed.1)
        } else {
            None
        };
        let ghost k = key@;
        items.insert(idx, (key, value));
        proof {
            if found {
                assert(entries_of(items@) =~= before.update(idx as int, (k, value)));
            } else {
                assert(entries_of(items@) =~= before.insert(idx as int, (k, value)));
            }
        }
        self.items = items;
        previous
    }

    /// The value that `key` is mapped to, if any.
    pub fn get(&self, key: &[u8]) -> (r: Option<&T>)
        ensures
            r == match dict_get(self.entries(), key@) {
                Some(v) => Some(&v),
                None => None,
            },
    {
        proof {
            use_type_invariant(self);
        }
        let idx = position(&self.items, key);
        proof {
            lemma_get_at(self.entries(), key@, idx as int);
        }
        if idx < self.items.len() && bytes_eq(self.items[idx].0.as_slice(), key) {
            Some(&self.items[idx].1)
        } else {
            None
        }
    }
}

impl<T: Clone> Clone for BMap<T> {
    /// A mapping with the same keys, each mapped to a clone of its value.
    fn clone(&self) -> (r: Self)
        ensures
            r.entries().len() == self.entries().len(),
            forall|i: int|
                0 <= i < self.entries().len() ==> {
                    &&& (#[trigger] r.entries()[i]).0 == self.entries()[i].0
                    &&& cloned::<T>(self.entries()[i].1, r.entries()[i].1)
                },
    {
        proof {
            use_type_invariant(self);
        }
        let mut items: Vec<(Vec<u8>, T)> = Vec::new();
        let mut i: usize = 0;
        while i < self.items.len()
            invariant
                i <= self.items.len(),
                items@.len() == i,
                forall|j: int|
                    0 <= j < i ==> {
                        &&& (#[trigger] items@[j]).0@ == self.items@[j].0@
                        &&& cloned::<T>(self.items@[j].1, items@[j].1)
                    },
            decreases self.items.len() - i,
        {
            let key = self.items[i].0.clone();
            let value = self.items[i].1.clone();
            assert(key@ =~= self.items@[i as int].0@);
            items.push((key, value));
            i += 1;
        }
        proof {
            let a = entries_of(self.items@);
            let b = entries_of(items@);
            assert forall|i: int, j: int| 0 <= i < j < b.len() implies lex_lt(
                (#[trigger] b[i]).0,
                (#[trigger] b[j]).0,
            ) by {
                assert(lex_lt(a[i].0, a[j].0));
                assert(items@[i].0@ == self.items@[i].0@);
                assert(items@[j].0@ == self.items@[j].0@);
            }
        }
        let r = BMap { items };
        proof {
            assert forall|i: int| 0 <= i < self.entries().len() implies {
                &&& (#[trigger] r.entries()[i]).0 == self.entries()[i].0
                &&& cloned::<T>(self.entries()[i].1, r.entries()[i].1)
            } by {
                assert(r.items@[i].0@ == self.items@[i].0@);
            }
        }
        r
    }
}

/// The place of `key` among stored pairs in ascending key order: the index
/// of the first pair whose key does not sort before `key`, or the number of
/// pairs if there is none.
fn position<T>(items: &Vec<(Vec<u8>, T)>, key: &[u8]) -> (idx: usize)
    requires
        keys_ascending(entries_of(items@)),
    ensures
        idx <= items.len(),
        forall|j: int| 0 <= j < idx ==> lex_lt((#[trigger] entries_of(items@)[j]).0, key@),
        idx < items.len() ==> !lex_lt(entries_of(items@)[idx as int].0, key@),
{
    let ghost s = entries_of(items@);
    let mut lo: usize = 0;
    let mut hi: usize = items.len();
    while lo < hi
        invariant
            lo <= hi <= items.len(),
            s == entries_of(items@),
            keys_ascending(s),
            forall|j: int| 0 <= j < lo ==> lex_lt((#[trigger] s[j]).0, key@),
            forall|j: int| hi <= j < s.len() ==> !lex_lt((#[trigger] s[j]).0, key@),
        decreases hi - lo,
    {
        let mid = lo + (hi - lo) / 2;
        if bytes_lt(items[mid].0.as_slice(), key) {
            proof {
                assert forall|j: int| 0 <= j < mid + 1 implies lex_lt((#[trigger] s[j]).0, key@) by {
                    if j < mid {
                        assert(lex_lt(s[j].0, s[mid as int].0));
                        lemma_lex_lt_transitive(s[j].0, s[mid as int].0, key@);
                    }
                }
            }
            lo = mid + 1;
        } else {
            proof {
                assert forall|j: int| mid <= j < s.len() implies !lex_lt((#[trigger] s[j]).0, key@) by {
                    if j > mid && lex_lt(s[j].0, key@) {
                        assert(lex_lt(s[mid as int].0, s[j].0));
                        lemma_lex_lt_transitive(s[mid as int].0, s[j].0, key@);
                    }
                }
            }
            hi = mid;
        }
    }
    lo
}

} // verus!
