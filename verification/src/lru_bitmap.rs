//! An LRU cache of `i32` keys and values kept as a log of entries in a sparse
//! ring: every use appends the entry at the end of the log and empties its old
//! slot, so the log runs from least to most recently used. A map gives each
//! key's slot. When the log reaches the end of the ring it is compacted.
use vstd::prelude::*;
use std::collections::HashMap;

verus! {

use crate::lru_model::{
    has_key, keys_distinct, key_index, lru_get, lru_put, lru_valid, lemma_key_index_unique,
    lemma_remove_push_distinct, lemma_push_distinct, lemma_remove_key_absent, lemma_remove_absent,
};
use crate::sparse_ring::SparseRing;

broadcast use vstd::std_specs::hash::group_hash_axioms;

/// The cache under the name of its usual interface.
pub type LRUCache = LruCache;

/// An LRU cache whose entries live in a sparse ring.
pub struct LruCache {
    capacity: i32,
    len: i32,
    map: HashMap<i32, usize>,
    log: SparseRing<(i32, i32)>,
}

impl View for LruCache {
    type V = Seq<(i32, i32)>;

    /// The entries, least recently used first.
    closed spec fn view(&self) -> Seq<(i32, i32)> {
        self.log.live()
    }
}

impl LruCache {
    /// The number of entries the cache keeps.
    pub closed spec fn spec_capacity(&self) -> int {
        self.capacity as int
    }

    /// The cache's state is consistent: the map gives, for each key with an
    /// entry, the slot of the ring that holds that entry.
    pub closed spec fn wf(&self) -> bool {
        &&& self.log.wf()
        &&& 0 <= self.capacity
        &&& self.capacity * 20 <= i32::MAX
        &&& self.log.cap() >= self.capacity * 20
        &&& self.len == self.log.live().len()
        &&& self.len <= self.capacity
        &&& keys_distinct(self.log.live())
        &&& forall|k: i32| #[trigger] self.map@.contains_key(k) <==> has_key(self.log.live(), k)
        &&& forall|k: i32|
            #[trigger] self.map@.contains_key(k) ==> {
                &&& self.map@[k] < self.log.cap()
                &&& self.log.slot(self.map@[k] as int) is Some
                &&& self.log.slot(self.map@[k] as int).unwrap().0 == k
            }
    }

    /// A consistent cache holds distinct keys, no more of them than its capacity,
    /// which is not negative.
    pub proof fn lemma_valid(&self)
        requires
            self.wf(),
        ensures
            lru_valid(self@, self.spec_capacity()),
            self.spec_capacity() >= 0,
    {
    }

    proof fn lemma_entry_of_key(&self, k: i32)
        requires
            self.wf(),
            self.map@.contains_key(k),
        ensures
            self.log.pos(self.map@[k] as int) == key_index(self@, k),
            self@[key_index(self@, k)] == self.log.slot(self.map@[k] as int)->0,
            0 <= key_index(self@, k) < self@.len(),
    {
        let p = self.map@[k] as int;
        self.log.lemma_slot_live(p);
        lemma_key_index_unique(self@, k, self.log.pos(p));
    }

    /// Creates an empty cache that keeps at most `capacity` entries.
    pub fn new(capacity: i32) -> (c: Self)
        requires
            0 <= capacity,
            capacity * 20 <= i32::MAX,
            capacity * 20 + 63 <= isize::MAX,
        ensures
            c.wf(),
            c@ == Seq::<(i32, i32)>::empty(),
            c.spec_capacity() == capacity,
    {
        let c = Self {
            capacity,
            len: 0,
            map: HashMap::with_capacity(capacity as usize),
            log: SparseRing::new((capacity * 20) as usize),
        };
        c
    }

    /// Reads `key`: returns its value and makes it the most recently used, or
    /// returns `-1` when the key has no entry.
    pub fn get(&mut self, key: i32) -> (r: i32)
        requires
            old(self).wf(),
            old(self).spec_capacity() >= 1,
        ensures
            final(self).wf(),
            final(self).spec_capacity() == old(self).spec_capacity(),
            (final(self)@, r) == lru_get(old(self)@, key),
    {
        self.compress();
        let found: Option<usize> = match self.map.get(&key) {
            Some(i) => Some(*i),
            None => None,
        };
        match found {
            Some(idx) => {
                let ghost pre = *self;
                proof {
                    pre.lemma_entry_of_key(key);
                }
                let removed = self.log.remove(idx);
                let (k, v) = removed.unwrap();
                let pushed = self.log.push_back((k, v));
                let new_index = pushed.unwrap();
                self.map.insert(key, new_index);
                proof {
                    let j = key_index(pre@, key);
                    lemma_remove_key_absent(pre@, j);
                    lemma_remove_push_distinct(pre@, j, pre@[j]);
                    assert(self@ == pre@.remove(j).push(pre@[j]));
                    self.lemma_map_after_move(pre, key, idx, new_index);
                }
                v
            },
            None => {
                proof {
                    assert(!has_key(self@, key));
                }
                -1
            },
        }
    }

    /// Writes `value` under `key`, making it the most recently used entry; a new
    /// key in a full cache evicts the least recently used entry first.
    pub fn put(&mut self, key: i32, value: i32)
        requires
            old(self).wf(),
            old(self).spec_capacity() >= 1,
        ensures
            final(self).wf(),
            final(self).spec_capacity() == old(self).spec_capacity(),
            final(self)@ == lru_put(old(self)@, old(self).spec_capacity(), key, value),
    {
        self.compress();
        let found: Option<usize> = match self.map.get(&key) {
            Some(i) => Some(*i),
            None => None,
        };
        let ghost pre = *self;
        match found {
            Some(idx) => {
                proof {
                    pre.lemma_entry_of_key(key);
                }
                let _ = self.log.remove(idx).unwrap();
                let new_entry = self.log.push_back((key, value)).unwrap();
                self.map.insert(key, new_entry);
                proof {
                    let j = key_index(pre@, key);
                    lemma_remove_key_absent(pre@, j);
                    lemma_remove_push_distinct(pre@, j, (key, value));
                    assert(self@ == pre@.remove(j).push((key, value)));
                    self.lemma_map_after_move(pre, key, idx, new_entry);
                }
            },
            None => {
                if self.len >= self.capacity {
                    proof {
                        assert(!has_key(pre@, key));
                        assert(pre@.len() > 0);
                    }
                    let (k, _) = self.log.pop_front().unwrap();
                    let ghost mid = *self;
                    let new_entry = self.log.push_back((key, value)).unwrap();
                    self.map.insert(key, new_entry);
                    self.map.remove(&k);
                    proof {
                        lemma_remove_absent(pre@, 0, key);
                        lemma_remove_push_distinct(pre@, 0, (key, value));
                        assert(self@ == pre@.remove(0).push((key, value)));
                        assert(k == pre@[0].0);
                        assert forall|q: i32| #[trigger] self.map@.contains_key(q) implies {
                            &&& self.map@[q] < self.log.cap()
                            &&& self.log.slot(self.map@[q] as int) is Some
                            &&& self.log.slot(self.map@[q] as int).unwrap().0 == q
                        } by {
                            if q != key {
                                let p = pre.map@[q] as int;
                                assert(pre.map@.contains_key(q));
                                assert(p != pre.log.front()) by {
                                    pre.log.lemma_wf_facts();
                                    pre.log.lemma_slot_live(pre.log.front());
                                    pre.lemma_entry_of_key(q);
                                    if p == pre.log.front() {
                                        assert(pre.log.pos(p) == 0) by {
                                            pre.log.lemma_slot_live(p);
                                            lemma_key_index_unique(pre@, k, 0);
                                        }
                                    }
                                }
                                assert(mid.log.slot(p) == pre.log.slot(p));
                            }
                        }
                    }
                } else {
                    self.len = self.len + 1;
                    let index = self.log.push_back((key, value)).unwrap();
                    self.map.insert(key, index);
                    proof {
                        lemma_push_distinct(pre@, (key, value));
                        assert forall|q: i32| #[trigger] self.map@.contains_key(q) implies {
                            &&& self.map@[q] < self.log.cap()
                            &&& self.log.slot(self.map@[q] as int) is Some
                            &&& self.log.slot(self.map@[q] as int).unwrap().0 == q
                        } by {
                            if q != key {
                                assert(pre.map@.contains_key(q));
                            }
                        }
                    }
                }
            },
        }
    }

    /// After the entry of `key` moved from slot `from` to slot `to`, every map
    /// entry still names the slot of its key.
    proof fn lemma_map_after_move(&self, pre: Self, key: i32, from: usize, to: usize)
        requires
            pre.wf(),
            pre.map@.contains_key(key),
            pre.map@[key] == from,
            self.map@ == pre.map@.insert(key, to),
            self.log.wf(),
            self.log.cap() == pre.log.cap(),
            to < self.log.cap(),
            self.log.slot(to as int) is Some,
            self.log.slot(to as int).unwrap().0 == key,
            forall|q: int|
                0 <= q < pre.log.cap() && q != from && pre.log.slot(q) is Some && q != to
                    ==> #[trigger] self.log.slot(q) == pre.log.slot(q),
            pre.log.slot(to as int) is None || to == from,
        ensures
            forall|k: i32|
                #[trigger] self.map@.contains_key(k) ==> {
                    &&& self.map@[k] < self.log.cap()
                    &&& self.log.slot(self.map@[k] as int) is Some
                    &&& self.log.slot(self.map@[k] as int).unwrap().0 == k
                },
    {
        assert forall|k: i32| #[trigger] self.map@.contains_key(k) implies {
            &&& self.map@[k] < self.log.cap()
            &&& self.log.slot(self.map@[k] as int) is Some
            &&& self.log.slot(self.map@[k] as int).unwrap().0 == k
        } by {
            if k != key {
                assert(pre.map@.contains_key(k));
                let p = pre.map@[k] as int;
                assert(p != from);
                assert(p != to);
            }
        }
    }

    /// Compacts the log when it has reached the end of the ring, and points the
    /// map at the new slots.
    fn compress(&mut self)
        requires
            old(self).wf(),
            old(self).spec_capacity() >= 1,
        ensures
            final(self).wf(),
            final(self)@ == old(self)@,
            final(self).capacity == old(self).capacity,
            final(self).log.span_len() < final(self).log.cap(),
    {
        proof {
            self.log.lemma_wf_facts();
        }
        if self.log.is_full() {
            proof {
                self.log.lemma_wf_facts();
                self.log.lemma_slot_live(self.log.front());
            }
            self.log.compact();
            let n = self.log.len();
            let mut idx: usize = 0;
            while idx < n
                invariant
                    self.log.wf(),
                    n == self.log.span_len(),
                    n == self@.len(),
                    n <= self.log.cap(),
                    idx <= n,
                    self@ == old(self)@,
                    self.log.cap() == old(self).log.cap(),
                    self.capacity == old(self).capacity,
                    self.len == old(self).len,
                    keys_distinct(self@),
                    forall|k: int|
                        0 <= k < n ==> #[trigger] self.log.slot(k) == Some(self@[k]),
                    forall|k: i32| #[trigger] self.map@.contains_key(k) <==> has_key(self@, k),
                    forall|j: int|
                        0 <= j < idx ==> #[trigger] self.map@[self@[j].0] == j && self.map@.contains_key(self@[j].0),
                decreases n - idx,
            {
                let (key, _) = self.log.get(idx).unwrap();
                self.map.insert(key, idx);
                proof {
                    assert forall|j: int| 0 <= j < idx + 1 implies #[trigger] self.map@[self@[j].0]
                        == j && self.map@.contains_key(self@[j].0) by {
                        if j < idx {
                            assert(self@[j].0 != self@[idx as int].0);
                        }
                    }
                    assert forall|k: i32| #[trigger] self.map@.contains_key(k) <==> has_key(self@, k) by {
                        if k == key {
                            assert(self@[idx as int].0 == key);
                        }
                    }
                }
                idx = idx + 1;
            }
            proof {
                self.log.lemma_wf_facts();
                assert forall|k: i32| #[trigger] self.map@.contains_key(k) implies {
                    &&& self.map@[k] < self.log.cap()
                    &&& self.log.slot(self.map@[k] as int) is Some
                    &&& self.log.slot(self.map@[k] as int).unwrap().0 == k
                } by {
                    let j = choose|j: int| 0 <= j < self@.len() && #[trigger] self@[j].0 == k;
                    assert(self.map@[self@[j].0] == j);
                }
            }
        }
    }
}

} // verus!
