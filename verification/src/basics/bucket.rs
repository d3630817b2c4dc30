//! A map from keys to the list of values inserted under each key.
use vstd::prelude::*;
use std::collections::HashMap;
use std::hash::Hash;

verus! {

use vstd::std_specs::hash::obeys_key_model;

broadcast use vstd::std_specs::hash::group_hash_axioms;

/// Values gathered under keys, in the order they were inserted.
pub struct HashMapBucket<K, V> {
    map: HashMap<K, Vec<V>>,
}

impl<K: Eq + Hash, V> HashMapBucket<K, V> {
    /// The values under each key.
    pub closed spec fn buckets(&self) -> Map<K, Seq<V>> {
        Map::new(|k: K| self.map@.contains_key(k), |k: K| self.map@[k]@)
    }

    /// An empty bucket map.
    pub fn new() -> (b: Self)
        ensures
            b.buckets() == Map::<K, Seq<V>>::empty(),
    {
        let b = Self { map: HashMap::new() };
        assert(b.buckets() =~= Map::<K, Seq<V>>::empty());
        b
    }

    /// Appends `value` to the values under `key`. What is stated holds for key
    /// types whose hashing and equality agree with equality of values.
    pub fn insert(&mut self, key: K, value: V)
        ensures
            obeys_key_model::<K>() ==> final(self).buckets() == old(self).buckets().insert(
                key,
                (if old(self).buckets().contains_key(key) {
                    old(self).buckets()[key]
                } else {
                    Seq::empty()
                }).push(value),
            ),
    {
        let mut values = match self.map.remove(&key) {
            Some(v) => v,
            None => Vec::new(),
        };
        values.push(value);
        self.map.insert(key, values);
        proof {
            if obeys_key_model::<K>() {
                assert(self.buckets() =~= old(self).buckets().insert(
                    key,
                    (if old(self).buckets().contains_key(key) {
                        old(self).buckets()[key]
                    } else {
                        Seq::empty()
                    }).push(value),
                ));
            }
        }
    }
}

} // verus!
