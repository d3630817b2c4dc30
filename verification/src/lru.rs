//! An LRU cache of `i32` keys and values kept as a recency list: the least
//! recently used entry first, the most recently used last.
use vstd::prelude::*;

verus! {

use crate::lru_model::{
    has_key, keys_distinct, lru_get, lru_put, lru_valid, lemma_key_index_unique, lemma_remove_push_distinct,
    lemma_push_distinct, lemma_remove_key_absent, lemma_remove_absent,
};

/// An LRU cache of at most `capacity` entries.
pub struct LRUCache {
    capacity: usize,
    list: Vec<(i32, i32)>,
}

impl View for LRUCache {
    type V = Seq<(i32, i32)>;

    /// The entries, least recently used first.
    closed spec fn view(&self) -> Seq<(i32, i32)> {
        self.list@
    }
}

impl LRUCache {
    /// The number of entries the cache keeps.
    pub closed spec fn spec_capacity(&self) -> int {
        self.capacity as int
    }

    /// Keys are distinct and the list is no longer than the capacity.
    pub closed spec fn wf(&self) -> bool {
        keys_distinct(self.list@) && self.list@.len() <= self.capacity
    }

    /// A consistent cache holds distinct keys, no more of them than its capacity,
    /// which is not negative.
    pub proof fn lemma_valid(&self)
        requires
            self.wf(),
        ensures
            lru_valid(self@, self.spec_capacity()),
            self.spec_capacity() >= 0,
    {
    }

    /// Creates an empty cache that keeps at most `capacity` entries.
    pub fn new(capacity: i32) -> (c: Self)
        requires
            0 <= capacity,
        ensures
            c.wf(),
            c@ == Seq::<(i32, i32)>::empty(),
            c.spec_capacity() == capacity,
    {
        LRUCache { capacity: capacity as usize, list: Vec::new() }
    }

    /// Reads `key`: returns its value and makes it the most recently used, or
    /// returns `-1` when the key has no entry.
    pub fn get(&mut self, key: i32) -> (r: i32)
        requires
            old(self).wf(),
        ensures
            final(self).wf(),
            final(self).spec_capacity() == old(self).spec_capacity(),
            (final(self)@, r) == lru_get(old(self)@, key),
    {
        match self.find(key) {
            Some(node) => {
                let ghost pre = self@;
                proof {
                    lemma_key_index_unique(pre, key, node as int);
                    lemma_remove_key_absent(pre, node as int);
                    lemma_remove_push_distinct(pre, node as int, pre[node as int]);
                }
                let value = self.list[node].1;
                self.move_to_head(node);
                value
            },
            None => -1,
        }
    }

    /// Writes `value` under `key`, making it the most recently used entry; a new
    /// key in a full cache evicts the least recently used entry first.
    pub fn put(&mut self, key: i32, value: i32)
        requires
            old(self).wf(),
            old(self).spec_capacity() >= 1,
        ensures
            final(self).wf(),
            final(self).spec_capacity() == old(self).spec_capacity(),
            final(self)@ == lru_put(old(self)@, old(self).spec_capacity(), key, value),
    {
        let ghost pre = self@;
        match self.find(key) {
            Some(node) => {
                proof {
                    lemma_key_index_unique(pre, key, node as int);
                    lemma_remove_key_absent(pre, node as int);
                    lemma_remove_push_distinct(pre, node as int, (key, value));
                }
                let _ = self.detach_node(node);
                self.attach_to_head((key, value));
            },
            None => {
                if self.list.len() >= self.capacity {
                    proof {
                        lemma_remove_absent(pre, 0, key);
                        lemma_remove_push_distinct(pre, 0, (key, value));
                    }
                    let _ = self.detach_node(0);
                } else {
                    proof {
                        lemma_push_distinct(pre, (key, value));
                    }
                }
                self.attach_to_head((key, value));
            },
        }
    }

    /// The place of the entry of `key`, if any.
    fn find(&self, key: i32) -> (r: Option<usize>)
        requires
            self.wf(),
        ensures
            r matches Some(i) ==> i < self@.len() && self@[i as int].0 == key,
            r is None ==> !has_key(self@, key),
    {
        let mut i: usize = 0;
        while i < self.list.len()
            invariant
                i <= self.list@.len(),
                forall|j: int| 0 <= j < i ==> #[trigger] self.list@[j].0 != key,
            decreases self.list@.len() - i,
        {
            if self.list[i].0 == key {
                return Some(i);
            }
            i = i + 1;
        }
        None
    }

    /// Unlinks the entry at `node` from the recency list and returns it.
    fn detach_node(&mut self, node: usize) -> (e: (i32, i32))
        requires
            node < old(self)@.len(),
        ensures
            e == old(self)@[node as int],
            final(self)@ == old(self)@.remove(node as int),
            final(self).capacity == old(self).capacity,
    {
        self.list.remove(node)
    }

    /// Links `e` in as the most recently used entry.
    fn attach_to_head(&mut self, e: (i32, i32))
        ensures
            final(self)@ == old(self)@.push(e),
            final(self).capacity == old(self).capacity,
    {
        self.list.push(e);
    }

    /// Makes the entry at `node` the most recently used.
    fn move_to_head(&mut self, node: usize)
        requires
            node < old(self)@.len(),
        ensures
            final(self)@ == old(self)@.remove(node as int).push(old(self)@[node as int]),
            final(self).capacity == old(self).capacity,
    {
        let e = self.detach_node(node);
        self.attach_to_head(e);
    }
}

} // verus!
