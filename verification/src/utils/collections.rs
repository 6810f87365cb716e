//! Walks over hash maps and hash sets in an order that does not matter.

use std::collections::{HashMap, HashSet};
use vstd::prelude::*;
use vstd::std_specs::hash::obeys_key_model;
use vstd::std_specs::iter::IteratorSpec;

verus! {

/// The keys of a map, each once, in the order in which the map hands them
/// out.
pub fn map_keys<K: Copy, V>(map: &HashMap<K, V>) -> (keys: Vec<K>)
    requires
        obeys_key_model::<K>(),
    ensures
        keys@.no_duplicates(),
        keys@.to_set() == map@.dom(),
        keys@.len() == map@.dom().len(),
{
    broadcast use vstd::std_specs::hash::group_hash_axioms;

    let mut keys: Vec<K> = Vec::new();
    let ghost all = map.keys().remaining();
    for k in it: map.keys()
        invariant
            it.seq() == all,
            keys@.len() == it.index(),
            forall|i: int| 0 <= i < keys@.len() ==> keys@[i] == *all[i],
    {
        keys.push(*k);
    }
    proof {
        assert(keys@ =~= all.unref());
        assert(keys@.no_duplicates());
    }
    keys
}

/// The items of a set, each once, in the order in which the set hands them
/// out.
pub fn set_items<K: Copy>(set: &HashSet<K>) -> (items: Vec<K>)
    requires
        obeys_key_model::<K>(),
    ensures
        items@.no_duplicates(),
        items@.to_set() == set@,
        items@.len() == set@.len(),
{
    broadcast use vstd::std_specs::hash::group_hash_axioms;

    let mut items: Vec<K> = Vec::new();
    let ghost all = set.iter().remaining();
    for k in it: set.iter()
        invariant
            it.seq() == all,
            items@.len() == it.index(),
            forall|i: int| 0 <= i < items@.len() ==> items@[i] == *all[i],
    {
        items.push(*k);
    }
    proof {
        assert(items@ =~= all.unref());
        assert(items@.no_duplicates());
    }
    items
}

/// A set that a `HashSet` holds is finite.
pub proof fn lemma_hash_set_finite<K>(set: &HashSet<K>)
    ensures
        set@.finite(),
{
    broadcast use vstd::std_specs::hash::group_hash_axioms;

    let items = vstd::std_specs::hash::spec_hash_keys_iter(set).remaining().unref();
    vstd::seq_lib::seq_to_set_is_finite(items);
}

} // verus!
