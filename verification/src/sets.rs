//! Walks over hash sets and hash maps of identifiers.
//!
//! A `for` loop over such a collection visits what the collection's iterator
//! lists. The lemmas here say how that list relates to what the collection
//! holds; the functions are the walks that the engine makes in several
//! places.

use vstd::prelude::*;
use std::collections::{HashMap, HashSet};
use vstd::std_specs::iter::IteratorSpec;

verus! {

/// Whether `listed` lists the elements of `held`, and nothing else.
pub(crate) open spec fn lists(listed: Seq<&u128>, held: Set<u128>) -> bool {
    &&& forall|j: int| 0 <= j < listed.len() ==> held.contains(*#[trigger] listed[j])
    &&& forall|x: u128| #[trigger]
        held.contains(x) ==> exists|j: int| 0 <= j < listed.len() && *#[trigger] listed[j] == x
}

/// Whether `listed` lists the entries of `held`, and nothing else.
pub(crate) open spec fn lists_entries<V>(listed: Seq<(&u128, &V)>, held: Map<u128, V>) -> bool {
    &&& forall|j: int|
        0 <= j < listed.len() ==> held.contains_key(*(#[trigger] listed[j]).0) && held[*listed[j].0]
            == *listed[j].1
    &&& forall|k: u128| #[trigger]
        held.contains_key(k) ==> exists|j: int|
            0 <= j < listed.len() && *(#[trigger] listed[j]).0 == k
}

/// The iterator of a hash set lists the set's elements.
pub(crate) proof fn lemma_set_is_listed(set: &HashSet<u128>)
    ensures
        lists(set.iter().remaining(), set@),
{
    let listed = set.iter().remaining();
    assert forall|j: int| 0 <= j < listed.len() implies set@.contains(*#[trigger] listed[j]) by {
        assert(listed.unref()[j] == *listed[j]);
        assert(listed.unref().to_set().contains(listed.unref()[j]));
    }
    assert forall|x: u128| #[trigger] set@.contains(x) implies exists|j: int|
        0 <= j < listed.len() && *#[trigger] listed[j] == x by {
        assert(listed.unref().to_set().contains(x));
        let j = choose|j: int| 0 <= j < listed.len() && listed.unref()[j] == x;
        assert(*listed[j] == x);
    }
}

/// The key iterator of a hash map lists the map's keys.
pub(crate) proof fn lemma_keys_are_listed<V>(map: &HashMap<u128, V>)
    ensures
        lists(map.keys().remaining(), map@.dom()),
{
    let listed = map.keys().remaining();
    assert forall|j: int| 0 <= j < listed.len() implies map@.dom().contains(
        *#[trigger] listed[j],
    ) by {
        assert(listed.unref()[j] == *listed[j]);
        assert(listed.unref().to_set().contains(listed.unref()[j]));
    }
    assert forall|x: u128| #[trigger] map@.dom().contains(x) implies exists|j: int|
        0 <= j < listed.len() && *#[trigger] listed[j] == x by {
        assert(listed.unref().to_set().contains(x));
        let j = choose|j: int| 0 <= j < listed.len() && listed.unref()[j] == x;
        assert(*listed[j] == x);
    }
}

/// The iterator of a hash map lists the map's entries.
pub(crate) proof fn lemma_entries_are_listed<V>(map: &HashMap<u128, V>)
    ensures
        lists_entries(map.iter().remaining(), map@),
{
    let listed = map.iter().remaining();
    assert forall|j: int| 0 <= j < listed.len() implies map@.contains_key(
        *(#[trigger] listed[j]).0,
    ) && map@[*listed[j].0] == *listed[j].1 by {
        assert(map@.contains_key(*listed[j].0));
    }
    assert forall|k: u128| #[trigger] map@.contains_key(k) implies exists|j: int|
        0 <= j < listed.len() && *(#[trigger] listed[j]).0 == k by {
        assert(listed.contains((&k, &map@[k])));
        let j = choose|j: int| 0 <= j < listed.len() && listed[j] == (&k, &map@[k]);
        assert(*listed[j].0 == k);
    }
}

/// Some element of `set`, if it has one.
pub(crate) fn first_of(set: &HashSet<u128>) -> (first: Option<u128>)
    ensures
        match first {
            Some(x) => set@.contains(x),
            None => set@ == Set::<u128>::empty(),
        },
{
    for x in it: set.iter()
        invariant
            it.seq() == set.iter().remaining(),
            it.index() == 0,
    {
        proof {
            lemma_set_is_listed(set);
        }
        return Some(*x);
    }
    proof {
        lemma_set_is_listed(set);
        assert(set@ =~= Set::<u128>::empty());
    }
    None
}

/// Some element of `from` that is also in `among`, if there is one.
pub(crate) fn first_common(from: &HashSet<u128>, among: &HashSet<u128>) -> (found: Option<u128>)
    ensures
        match found {
            Some(x) => from@.contains(x) && among@.contains(x),
            None => from@.disjoint(among@),
        },
{
    for x in it: from.iter()
        invariant
            it.seq() == from.iter().remaining(),
            forall|j: int| 0 <= j < it.index() ==> !among@.contains(*it.seq()[j]),
    {
        if among.contains(x) {
            proof {
                lemma_set_is_listed(from);
            }
            return Some(*x);
        }
    }
    proof {
        lemma_set_is_listed(from);
    }
    None
}

/// The keys of `map`, as a set.
pub(crate) fn key_set<V>(map: &HashMap<u128, V>) -> (keys: HashSet<u128>)
    ensures
        keys@ == map@.dom(),
{
    let mut keys: HashSet<u128> = HashSet::new();
    for k in it: map.keys()
        invariant
            it.seq() == map.keys().remaining(),
            forall|j: int| 0 <= j < it.index() ==> keys@.contains(*it.seq()[j]),
            keys@.subset_of(map@.dom()),
    {
        proof {
            lemma_keys_are_listed(map);
        }
        keys.insert(*k);
    }
    proof {
        lemma_keys_are_listed(map);
        assert(keys@ =~= map@.dom());
    }
    keys
}

/// The keys of `map`, each listed once, in the order in which the map hands
/// them out.
pub(crate) fn key_list<V>(map: &HashMap<u128, V>) -> (keys: Vec<u128>)
    ensures
        keys@.no_duplicates(),
        keys@.to_set() == map@.dom(),
{
    let mut keys: Vec<u128> = Vec::new();
    for k in it: map.keys()
        invariant
            it.seq() == map.keys().remaining(),
            keys@.len() == it.index(),
            forall|j: int| 0 <= j < keys@.len() ==> keys@[j] == *it.seq()[j],
    {
        keys.push(*k);
    }
    assert(keys@ =~= map.keys().remaining().unref());
    keys
}

} // verus!
