//! A map from day numbers to sums that keeps its entries in order, as
//! `indexmap::IndexMap` provides it.
//!
//! The map itself is not verified. What the library relies on is stated
//! here, over the sequence of entries that the map holds, and the calls are
//! made through the functions of this file and nowhere else.

use indexmap::IndexMap;
use vstd::prelude::*;

verus! {

#[verifier::external_type_specification]
#[verifier::external_body]
#[verifier::reject_recursive_types(K)]
#[verifier::reject_recursive_types(V)]
#[verifier::reject_recursive_types(S)]
pub struct ExIndexMap<K, V, S>(IndexMap<K, V, S>);

/// The entries of the map, key and value, in the map's order.
pub uninterp spec fn entries(m: IndexMap<i32, i128>) -> Seq<(i32, i128)>;

/// Index of the first entry of `s` with the key `key`, or `s.len()` if
/// there is none.
pub open spec fn position(s: Seq<(i32, i128)>, key: i32) -> int
    decreases s.len(),
{
    if s.len() == 0 || s[0].0 == key {
        0
    } else {
        1 + position(s.skip(1), key)
    }
}

/// The entries after `key` was given the value `value`: an entry with that
/// key keeps its place and gets the new value; otherwise a new entry comes
/// last.
pub open spec fn inserted(s: Seq<(i32, i128)>, key: i32, value: i128) -> Seq<(i32, i128)> {
    if position(s, key) < s.len() {
        s.update(position(s, key), (key, value))
    } else {
        s.push((key, value))
    }
}

/// The entries after those of `other` were inserted one by one, in order.
pub open spec fn extended(s: Seq<(i32, i128)>, other: Seq<(i32, i128)>) -> Seq<(i32, i128)>
    decreases other.len(),
{
    if other.len() == 0 {
        s
    } else {
        inserted(extended(s, other.drop_last()), other.last().0, other.last().1)
    }
}

/// No key stands before a smaller one.
pub open spec fn keys_ascending(s: Seq<(i32, i128)>) -> bool {
    forall|i: int, j: int| 0 <= i < j < s.len() ==> s[i].0 <= s[j].0
}

/// `IndexMap::new`: the map it returns has no entries.
#[verifier::external_body]
pub(crate) fn new_map() -> (m: IndexMap<i32, i128>)
    ensures
        entries(m) == Seq::<(i32, i128)>::empty(),
{
    IndexMap::new()
}

/// `IndexMap::len`: the number of entries.
#[verifier::external_body]
pub(crate) fn map_len(m: &IndexMap<i32, i128>) -> (n: usize)
    ensures
        n == entries(*m).len(),
{
    m.len()
}

/// `IndexMap::get`: the value of an entry that has the key, `None` if no
/// entry has it.
#[verifier::external_body]
pub(crate) fn map_get(m: &IndexMap<i32, i128>, key: i32) -> (r: Option<i128>)
    ensures
        match r {
            Some(v) => exists|i: int| 0 <= i < entries(*m).len() && entries(*m)[i] == (key, v),
            None => forall|i: int| 0 <= i < entries(*m).len() ==> (#[trigger] entries(*m)[i]).0 != key,
        },
{
    match m.get(&key) {
        Some(v) => Some(*v),
        None => None,
    }
}

/// `IndexMap::insert`: where the key is present its entry keeps its place
/// and gets the value, else the pair becomes the last entry. A map never
/// holds a key twice, so the first entry with the key is the only one.
#[verifier::external_body]
pub(crate) fn map_insert(m: &mut IndexMap<i32, i128>, key: i32, value: i128)
    ensures
        entries(*final(m)) == inserted(entries(*old(m)), key, value),
{
    m.insert(key, value);
}

/// `Extend::extend` of `IndexMap`, given another map: the same as inserting
/// the other map's entries one by one, in its order.
#[verifier::external_body]
pub(crate) fn map_extend(m: &mut IndexMap<i32, i128>, other: IndexMap<i32, i128>)
    ensures
        entries(*final(m)) == extended(entries(*old(m)), entries(other)),
{
    m.extend(other);
}

/// `IndexMap::sort_keys`: the same entries, ordered by key. The keys are
/// integers, which are ordered as numbers.
#[verifier::external_body]
pub(crate) fn map_sort_keys(m: &mut IndexMap<i32, i128>)
    ensures
        keys_ascending(entries(*final(m))),
        entries(*final(m)).to_multiset() == entries(*old(m)).to_multiset(),
{
    m.sort_keys();
}

/// `IndexMap::get_index`: the entry at `index`, `None` past the end.
#[verifier::external_body]
pub(crate) fn map_entry(m: &IndexMap<i32, i128>, index: usize) -> (r: Option<(i32, i128)>)
    ensures
        r == if index < entries(*m).len() {
            Some(entries(*m)[index as int])
        } else {
            None
        },
{
    match m.get_index(index) {
        Some((k, v)) => Some((*k, *v)),
        None => None,
    }
}

/// No two entries of `s` have the same key.
pub open spec fn distinct_keys(s: Seq<(i32, i128)>) -> bool {
    forall|i: int, j: int| 0 <= i < j < s.len() ==> s[i].0 != s[j].0
}

/// Whether some entry of `s` has the key `key`.
pub open spec fn has_key(s: Seq<(i32, i128)>, key: i32) -> bool {
    exists|i: int| 0 <= i < s.len() && s[i].0 == key
}

/// The value of the first entry of `s` with the key `key`.
pub open spec fn lookup(s: Seq<(i32, i128)>, key: i32) -> i128 {
    s[position(s, key)].1
}

pub proof fn lemma_position(s: Seq<(i32, i128)>, key: i32)
    ensures
        0 <= position(s, key) <= s.len(),
        position(s, key) < s.len() ==> s[position(s, key)].0 == key,
        forall|i: int| 0 <= i < position(s, key) ==> (#[trigger] s[i]).0 != key,
        position(s, key) < s.len() <==> has_key(s, key),
    decreases s.len(),
{
    if s.len() == 0 || s[0].0 == key {
    } else {
        let t = s.skip(1);
        lemma_position(t, key);
        assert forall|i: int| 0 <= i < position(s, key) implies (#[trigger] s[i]).0 != key by {
            if i > 0 {
                assert(t[i - 1] == s[i]);
            }
        }
        if has_key(s, key) {
            let i = choose|i: int| 0 <= i < s.len() && s[i].0 == key;
            assert(t[i - 1] == s[i]);
        }
        if position(t, key) < t.len() {
            assert(s[position(t, key) + 1] == t[position(t, key)]);
        }
    }
}

/// Where keys are distinct, the entry with a key is the first with it.
pub proof fn lemma_position_of(s: Seq<(i32, i128)>, i: int)
    requires
        distinct_keys(s),
        0 <= i < s.len(),
    ensures
        position(s, s[i].0) == i,
        lookup(s, s[i].0) == s[i].1,
{
    lemma_position(s, s[i].0);
}

/// What an insertion changes, and what it leaves alone.
pub proof fn lemma_inserted(s: Seq<(i32, i128)>, key: i32, value: i128)
    requires
        distinct_keys(s),
    ensures
        distinct_keys(inserted(s, key, value)),
        forall|d: i32| #[trigger]
            has_key(inserted(s, key, value), d) <==> has_key(s, d) || d == key,
        lookup(inserted(s, key, value), key) == value,
        forall|d: i32|
            d != key && has_key(s, d) ==> #[trigger] lookup(inserted(s, key, value), d) == lookup(
                s,
                d,
            ),
{
    let t = inserted(s, key, value);
    let p = position(s, key);
    lemma_position(s, key);
    assert(distinct_keys(t));
    assert forall|d: i32| #[trigger] has_key(t, d) <==> has_key(s, d) || d == key by {
        if has_key(t, d) {
            let i = choose|i: int| 0 <= i < t.len() && t[i].0 == d;
            if d != key {
                assert(s[i].0 == d);
            }
        }
        if has_key(s, d) {
            let i = choose|i: int| 0 <= i < s.len() && s[i].0 == d;
            assert(t[i].0 == d);
        }
        if d == key {
            assert(t[p].0 == key);
        }
    }
    assert(t[p].0 == key);
    lemma_position_of(t, p);
    assert forall|d: i32| d != key && has_key(s, d) implies #[trigger] lookup(t, d) == lookup(
        s,
        d,
    ) by {
        let i = choose|i: int| 0 <= i < s.len() && s[i].0 == d;
        lemma_position_of(s, i);
        assert(t[i] == s[i]);
        lemma_position_of(t, i);
    }
}

/// After extending, the keys are those of both; a key of the other map has
/// the other map's value, and any other key keeps its own.
pub proof fn lemma_extended(s: Seq<(i32, i128)>, other: Seq<(i32, i128)>)
    requires
        distinct_keys(s),
        distinct_keys(other),
    ensures
        distinct_keys(extended(s, other)),
        forall|d: i32| #[trigger]
            has_key(extended(s, other), d) <==> has_key(s, d) || has_key(other, d),
        forall|d: i32|
            has_key(other, d) ==> #[trigger] lookup(extended(s, other), d) == lookup(other, d),
        forall|d: i32|
            has_key(s, d) && !has_key(other, d) ==> #[trigger] lookup(extended(s, other), d)
                == lookup(s, d),
    decreases other.len(),
{
    if other.len() > 0 {
        let head = other.drop_last();
        let k = other.last().0;
        let v = other.last().1;
        let before = extended(s, head);
        let after = extended(s, other);
        lemma_extended(s, head);
        lemma_inserted(before, k, v);
        assert forall|d: i32| #[trigger] has_key(other, d) <==> has_key(head, d) || d == k by {
            if has_key(other, d) {
                let i = choose|i: int| 0 <= i < other.len() && other[i].0 == d;
                if i < head.len() {
                    assert(head[i].0 == d);
                }
            }
            if has_key(head, d) {
                let i = choose|i: int| 0 <= i < head.len() && head[i].0 == d;
                assert(other[i].0 == d);
            }
            if d == k {
                assert(other[other.len() - 1].0 == d);
            }
        }
        assert forall|d: i32| has_key(other, d) implies #[trigger] lookup(after, d) == lookup(
            other,
            d,
        ) by {
            if d == k {
                lemma_position_of(other, other.len() - 1);
            } else {
                let i = choose|i: int| 0 <= i < head.len() && head[i].0 == d;
                assert(has_key(before, d));
                lemma_position_of(head, i);
                assert(other[i] == head[i]);
                lemma_position_of(other, i);
            }
        }
        assert forall|d: i32| has_key(s, d) && !has_key(other, d) implies #[trigger] lookup(
            after,
            d,
        ) == lookup(s, d) by {
            assert(has_key(before, d));
        }
        assert forall|d: i32| #[trigger]
            has_key(after, d) <==> has_key(s, d) || has_key(other, d) by {
            assert(has_key(after, d) <==> has_key(before, d) || d == k);
        }
    }
}

/// A sequence with the same entries as one with distinct keys, ordered by
/// key, has them in strictly rising order, and holds the same values for
/// the same keys.
pub proof fn lemma_sorted(s: Seq<(i32, i128)>, sorted: Seq<(i32, i128)>)
    requires
        distinct_keys(s),
        keys_ascending(sorted),
        sorted.to_multiset() == s.to_multiset(),
    ensures
        sorted.len() == s.len(),
        forall|i: int, j: int| 0 <= i < j < sorted.len() ==> sorted[i].0 < sorted[j].0,
        forall|d: i32| #[trigger] has_key(sorted, d) <==> has_key(s, d),
        forall|i: int| 0 <= i < sorted.len() ==> (#[trigger] sorted[i]).1 == lookup(s, sorted[i].0),
{
    broadcast use vstd::seq_lib::group_to_multiset_ensures;

    s.to_multiset_ensures();
    sorted.to_multiset_ensures();
    assert(s.no_duplicates());
    s.lemma_multiset_has_no_duplicates();
    assert forall|x: (i32, i128)| sorted.to_multiset().contains(x) implies sorted.to_multiset().count(
        x,
    ) == 1 by {
        assert(s.to_multiset().count(x) <= 1);
    }
    sorted.lemma_multiset_has_no_duplicates_conv();
    assert forall|i: int| 0 <= i < sorted.len() implies (#[trigger] sorted[i]).1 == lookup(
        s,
        sorted[i].0,
    ) && has_key(s, sorted[i].0) by {
        assert(sorted.contains(sorted[i]));
        assert(sorted.to_multiset().count(sorted[i]) > 0);
        assert(s.to_multiset().count(sorted[i]) > 0);
        assert(s.contains(sorted[i]));
        let a = choose|a: int| 0 <= a < s.len() && s[a] == sorted[i];
        lemma_position_of(s, a);
    }
    assert forall|i: int, j: int| 0 <= i < j < sorted.len() implies sorted[i].0 < sorted[j].0 by {
        if sorted[i].0 == sorted[j].0 {
            assert(sorted[i].1 == lookup(s, sorted[i].0));
            assert(sorted[j].1 == lookup(s, sorted[j].0));
            assert(sorted[i] == sorted[j]);
        }
    }
    assert forall|d: i32| #[trigger] has_key(sorted, d) <==> has_key(s, d) by {
        if has_key(sorted, d) {
            let i = choose|i: int| 0 <= i < sorted.len() && sorted[i].0 == d;
            assert(has_key(s, sorted[i].0));
        }
        if has_key(s, d) {
            let a = choose|a: int| 0 <= a < s.len() && s[a].0 == d;
            assert(s.contains(s[a]));
            assert(s.to_multiset().count(s[a]) > 0);
            assert(sorted.to_multiset().count(s[a]) > 0);
            assert(sorted.contains(s[a]));
            let i = choose|i: int| 0 <= i < sorted.len() && sorted[i] == s[a];
            assert(sorted[i].0 == d);
        }
    }
}

} // verus!
