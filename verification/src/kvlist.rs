//! Sequences of key-value pairs read as finite maps.
//!
//! The store keeps each of its collections as a vector of pairs with distinct
//! keys; these definitions give such a vector its meaning as a `Map` and the
//! lemmas that relate the vector operations to map operations.

use vstd::prelude::*;

verus! {

/// The map described by a sequence of key-value pairs. A later pair with the
/// same key overrides an earlier one, though a well-formed store never keeps
/// two pairs with the same key.
pub open spec fn assoc_map<K, V>(entries: Seq<(K, V)>) -> Map<K, V>
    decreases entries.len(),
{
    if entries.len() == 0 {
        Map::empty()
    } else {
        assoc_map(entries.drop_last()).insert(entries.last().0, entries.last().1)
    }
}

/// No key occurs twice.
pub open spec fn distinct_keys<K, V>(entries: Seq<(K, V)>) -> bool {
    forall|i: int, j: int| 0 <= i < j < entries.len() ==> entries[i].0 != entries[j].0
}

pub proof fn lemma_distinct_keys_drop_last<K, V>(entries: Seq<(K, V)>)
    requires
        distinct_keys(entries),
        entries.len() > 0,
    ensures
        distinct_keys(entries.drop_last()),
{
    assert forall|i: int, j: int|
        0 <= i < j < entries.drop_last().len() implies entries.drop_last()[i].0
        != entries.drop_last()[j].0 by {
        assert(entries[i].0 != entries[j].0);
    }
}

/// A key is in the domain exactly when some pair carries it.
pub proof fn lemma_assoc_map_dom<K, V>(entries: Seq<(K, V)>, k: K)
    ensures
        assoc_map(entries).dom().contains(k) <==> exists|i: int|
            0 <= i < entries.len() && entries[i].0 == k,
    decreases entries.len(),
{
    if entries.len() == 0 {
    } else {
        lemma_assoc_map_dom(entries.drop_last(), k);
        if entries.last().0 == k {
            assert(entries[entries.len() - 1].0 == k);
        } else {
            if assoc_map(entries).dom().contains(k) {
                let i = choose|i: int|
                    0 <= i < entries.drop_last().len() && entries.drop_last()[i].0 == k;
                assert(entries[i].0 == k);
            }
            if exists|i: int| 0 <= i < entries.len() && entries[i].0 == k {
                let i = choose|i: int| 0 <= i < entries.len() && entries[i].0 == k;
                assert(entries.drop_last()[i].0 == k);
            }
        }
    }
}

/// Under distinct keys, the pair at position `i` gives the value of its key.
pub proof fn lemma_assoc_map_index<K, V>(entries: Seq<(K, V)>, i: int)
    requires
        distinct_keys(entries),
        0 <= i < entries.len(),
    ensures
        assoc_map(entries).dom().contains(entries[i].0),
        assoc_map(entries)[entries[i].0] == entries[i].1,
    decreases entries.len(),
{
    if i == entries.len() - 1 {
    } else {
        lemma_distinct_keys_drop_last(entries);
        lemma_assoc_map_index(entries.drop_last(), i);
        assert(entries.drop_last()[i] == entries[i]);
        assert(entries.last().0 != entries[i].0);
    }
}

/// Appending a pair inserts its key.
pub proof fn lemma_assoc_map_push<K, V>(entries: Seq<(K, V)>, k: K, v: V)
    ensures
        assoc_map(entries.push((k, v))) == assoc_map(entries).insert(k, v),
{
    assert(entries.push((k, v)).drop_last() =~= entries);
    assert(entries.push((k, v)).last() == (k, v));
}

/// Overwriting the pair that carries `k` updates the map at `k`.
pub proof fn lemma_assoc_map_update<K, V>(entries: Seq<(K, V)>, i: int, k: K, v: V)
    requires
        distinct_keys(entries),
        0 <= i < entries.len(),
        entries[i].0 == k,
    ensures
        assoc_map(entries.update(i, (k, v))) == assoc_map(entries).insert(k, v),
        distinct_keys(entries.update(i, (k, v))),
    decreases entries.len(),
{
    let updated = entries.update(i, (k, v));
    assert forall|p: int, q: int| 0 <= p < q < updated.len() implies updated[p].0
        != updated[q].0 by {
        assert(entries[p].0 != entries[q].0);
    }
    if i == entries.len() - 1 {
        assert(updated.drop_last() =~= entries.drop_last());
        assert(updated.last() == (k, v));
        assert(assoc_map(entries.drop_last()).insert(k, v) =~= assoc_map(
            entries.drop_last(),
        ).insert(entries.last().0, entries.last().1).insert(k, v));
    } else {
        lemma_distinct_keys_drop_last(entries);
        lemma_assoc_map_update(entries.drop_last(), i, k, v);
        assert(updated.drop_last() =~= entries.drop_last().update(i, (k, v)));
        assert(updated.last() == entries.last());
        assert(assoc_map(entries.drop_last()).insert(k, v).insert(
            entries.last().0,
            entries.last().1,
        ) =~= assoc_map(entries.drop_last()).insert(entries.last().0, entries.last().1).insert(
            k,
            v,
        ));
    }
}

/// Removing the pair that carries `k` removes `k` from the map.
pub proof fn lemma_assoc_map_remove<K, V>(entries: Seq<(K, V)>, i: int)
    requires
        distinct_keys(entries),
        0 <= i < entries.len(),
    ensures
        assoc_map(entries.remove(i)) == assoc_map(entries).remove(entries[i].0),
        distinct_keys(entries.remove(i)),
    decreases entries.len(),
{
    let k = entries[i].0;
    let shorter = entries.remove(i);
    assert forall|p: int, q: int| 0 <= p < q < shorter.len() implies shorter[p].0
        != shorter[q].0 by {
        let p0 = if p < i {
            p
        } else {
            p + 1
        };
        let q0 = if q < i {
            q
        } else {
            q + 1
        };
        assert(shorter[p] == entries[p0]);
        assert(shorter[q] == entries[q0]);
        assert(entries[p0].0 != entries[q0].0);
    }
    if i == entries.len() - 1 {
        assert(shorter =~= entries.drop_last());
        lemma_assoc_map_dom(entries.drop_last(), k);
        assert(assoc_map(entries.drop_last()) =~= assoc_map(entries.drop_last()).insert(
            entries.last().0,
            entries.last().1,
        ).remove(k));
    } else {
        lemma_distinct_keys_drop_last(entries);
        lemma_assoc_map_remove(entries.drop_last(), i);
        assert(shorter.drop_last() =~= entries.drop_last().remove(i));
        assert(shorter.last() == entries.last());
        assert(assoc_map(entries.drop_last()).remove(k).insert(
            entries.last().0,
            entries.last().1,
        ) =~= assoc_map(entries.drop_last()).insert(entries.last().0, entries.last().1).remove(k));
    }
}

/// Under distinct keys, the map has exactly one entry per pair.
pub proof fn lemma_assoc_map_len<K, V>(entries: Seq<(K, V)>)
    requires
        distinct_keys(entries),
    ensures
        assoc_map(entries).dom().finite(),
        assoc_map(entries).dom().len() == entries.len(),
    decreases entries.len(),
{
    if entries.len() == 0 {
        assert(assoc_map(entries).dom() =~= Set::<K>::empty());
    } else {
        lemma_distinct_keys_drop_last(entries);
        lemma_assoc_map_len(entries.drop_last());
        lemma_assoc_map_dom(entries.drop_last(), entries.last().0);
        assert(!assoc_map(entries.drop_last()).dom().contains(entries.last().0)) by {
            if exists|i: int|
                0 <= i < entries.drop_last().len() && entries.drop_last()[i].0
                    == entries.last().0 {
                let i = choose|i: int|
                    0 <= i < entries.drop_last().len() && entries.drop_last()[i].0
                        == entries.last().0;
                assert(entries[i].0 == entries[entries.len() - 1].0);
            }
        }
        assert(assoc_map(entries).dom() =~= assoc_map(entries.drop_last()).dom().insert(
            entries.last().0,
        ));
    }
}

/// Appending an element inserts it into the set a sequence stands for.
pub proof fn lemma_to_set_push<A>(s: Seq<A>, x: A)
    ensures
        s.push(x).to_set() == s.to_set().insert(x),
{
    assert(s.push(x).to_set() =~= s.to_set().insert(x)) by {
        assert forall|y: A| s.push(x).contains(y) implies s.to_set().insert(x).contains(y) by {
            let i = choose|i: int| 0 <= i < s.push(x).len() && s.push(x)[i] == y;
            if i < s.len() {
                assert(s[i] == y);
            }
        }
        assert forall|y: A| s.to_set().insert(x).contains(y) implies s.push(x).contains(y) by {
            if s.contains(y) {
                let i = choose|i: int| 0 <= i < s.len() && s[i] == y;
                assert(s.push(x)[i] == y);
            } else {
                assert(s.push(x)[s.len() as int] == y);
            }
        }
    }
}

/// Position of a 64-bit integer key in a vector of pairs, if it occurs.
pub fn find_i64_key<V>(entries: &Vec<(i64, V)>, key: i64) -> (r: Option<usize>)
    ensures
        match r {
            Some(i) => i < entries@.len() && entries@[i as int].0 == key,
            None => forall|j: int| 0 <= j < entries@.len() ==> entries@[j].0 != key,
        },
{
    let mut i: usize = 0;
    while i < entries.len()
        invariant
            i <= entries@.len(),
            forall|j: int| 0 <= j < i ==> entries@[j].0 != key,
        decreases entries@.len() - i,
    {
        if entries[i].0 == key {
            return Some(i);
        }
        i += 1;
    }
    None
}

/// Position of a string key in a vector of pairs, if one with the same
/// characters occurs.
pub fn find_str_key<V>(entries: &Vec<(String, V)>, key: &String) -> (r: Option<usize>)
    ensures
        match r {
            Some(i) => i < entries@.len() && entries@[i as int].0@ == key@,
            None => forall|j: int| 0 <= j < entries@.len() ==> entries@[j].0@ != key@,
        },
{
    let mut i: usize = 0;
    while i < entries.len()
        invariant
            i <= entries@.len(),
            forall|j: int| 0 <= j < i ==> entries@[j].0@ != key@,
        decreases entries@.len() - i,
    {
        if entries[i].0 == *key {
            return Some(i);
        }
        i += 1;
    }
    None
}

} // verus!
