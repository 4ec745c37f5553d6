//! The map and the two adapters that populate it from a batch of pairs.
//!
//! A batch is the share of a sequence of pairs that one worker inserts while it holds the
//! map. [`HashMap::par_extend`] inserts a batch into a map that exists, and
//! [`HashMap::from_par_iter`] builds a map from one.
use crate::model::extended;
use std::hash::Hash;
use vstd::prelude::*;
use vstd::std_specs::hash::obeys_key_model;

verus! {

/// A token that a worker holds while it operates on a map. A worker takes one for a whole
/// batch of operations and hands it to each of them; it is never shared between workers.
pub struct Guard {}

/// A map from keys to values in which an insertion replaces the value of an equal key.
///
/// The contracts hold for key types that hash and compare as a hash table needs them to
/// (`obeys_key_model`), which is known of the integer types and `bool`.
pub struct HashMap<K, V> {
    table: std::collections::HashMap<K, V>,
}

impl<K, V> View for HashMap<K, V> {
    type V = Map<K, V>;

    closed spec fn view(&self) -> Map<K, V> {
        self.table@
    }
}

impl<K: Eq + Hash, V> HashMap<K, V> {
    /// An empty map.
    pub fn new() -> (map: Self)
        ensures
            map@ == Map::<K, V>::empty(),
    {
        HashMap { table: std::collections::HashMap::new() }
    }

    /// A token for one batch of operations on this map.
    pub fn guard(&self) -> (guard: Guard) {
        Guard {}
    }

    /// Inserts one pair and returns the value that the key had before, if it had one.
    pub fn insert(&mut self, key: K, value: V, guard: &Guard) -> (previous: Option<V>)
        ensures
            obeys_key_model::<K>() ==> final(self)@ == old(self)@.insert(key, value),
            obeys_key_model::<K>() ==> previous == (if old(self)@.contains_key(key) {
                Some(old(self)@[key])
            } else {
                None
            }),
    {
        self.table.insert(key, value)
    }

    /// The value of `key`, if the map has one.
    pub fn get<'a>(&'a self, key: &K, guard: &Guard) -> (value: Option<&'a V>)
        ensures
            obeys_key_model::<K>() ==> value == (if self@.contains_key(*key) {
                Some(&self@[*key])
            } else {
                None
            }),
    {
        self.table.get(key)
    }

    /// The number of keys in the map.
    pub fn len(&self) -> (n: usize)
        ensures
            obeys_key_model::<K>() ==> n == self@.len(),
            self@.dom().finite(),
    {
        proof {
            broadcast use vstd::std_specs::hash::group_hash_axioms;
        }
        self.table.len()
    }

    /// Inserts every pair of `pairs`, in the order of the sequence, under one guard that
    /// is taken once for the whole batch. The value that a key had before is dropped. An empty
    /// batch leaves the map as it was.
    pub fn par_extend(&mut self, pairs: Vec<(K, V)>)
        ensures
            obeys_key_model::<K>() ==> final(self)@ == extended(old(self)@, pairs@),
    {
        let guard = self.guard();
        let ghost before = self@;
        let ghost all = pairs@;
        for pair in it: pairs.into_iter()
            invariant
                it.seq() == all,
                obeys_key_model::<K>() ==> self@ == extended(before, all.take(it.index() as int)),
        {
            proof {
                let next = all.take(it.index() + 1);
                assert(next.drop_last() == all.take(it.index() as int));
                assert(next.last() == pair);
            }
            self.insert(pair.0, pair.1, &guard);
        }
        assert(all.take(all.len() as int) == all);
    }

    /// A new map that holds what inserting `pairs` into an empty map gives: one key for
    /// each distinct key of `pairs`, with the value of the last pair that has it.
    pub fn from_par_iter(pairs: Vec<(K, V)>) -> (map: Self)
        ensures
            obeys_key_model::<K>() ==> map@ == extended(Map::<K, V>::empty(), pairs@),
    {
        let mut created_map = HashMap::new();
        created_map.par_extend(pairs);
        created_map
    }

    /// A map never holds more than finitely many keys.
    pub proof fn lemma_finite(&self)
        ensures
            self@.dom().finite(),
    {
        broadcast use vstd::std_specs::hash::group_hash_axioms;

    }
}

} // verus!
