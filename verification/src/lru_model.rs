//! The abstract least-recently-used cache of `i32` keys and values that both LRU
//! caches of this crate implement: a sequence of entries, least recently used first.
use vstd::prelude::*;

verus! {

/// Whether `key` has an entry in `entries`.
pub open spec fn has_key(entries: Seq<(i32, i32)>, key: i32) -> bool {
    exists|j: int| 0 <= j < entries.len() && #[trigger] entries[j].0 == key
}

/// No key has two entries.
pub open spec fn keys_distinct(entries: Seq<(i32, i32)>) -> bool {
    forall|i: int, j: int|
        0 <= i < entries.len() && 0 <= j < entries.len() && i != j ==> #[trigger] entries[i].0
            != #[trigger] entries[j].0
}

/// The place of the entry of `key` (meaningful when `has_key(entries, key)`).
pub open spec fn key_index(entries: Seq<(i32, i32)>, key: i32) -> int {
    choose|j: int| 0 <= j < entries.len() && #[trigger] entries[j].0 == key
}

/// Reading `key`: its entry becomes the most recently used and its value is
/// returned; a missing key gives `-1` and changes nothing.
pub open spec fn lru_get(entries: Seq<(i32, i32)>, key: i32) -> (Seq<(i32, i32)>, i32) {
    if has_key(entries, key) {
        let j = key_index(entries, key);
        (entries.remove(j).push(entries[j]), entries[j].1)
    } else {
        (entries, -1i32)
    }
}

/// Writing `key`: its entry (old or new) becomes the most recently used with
/// `value`; a new key in a full cache first evicts the least recently used entry.
pub open spec fn lru_put(entries: Seq<(i32, i32)>, capacity: int, key: i32, value: i32) -> Seq<
    (i32, i32),
> {
    if has_key(entries, key) {
        entries.remove(key_index(entries, key)).push((key, value))
    } else if entries.len() >= capacity {
        entries.remove(0).push((key, value))
    } else {
        entries.push((key, value))
    }
}

/// The value stored for `key`, if any.
pub open spec fn lookup(entries: Seq<(i32, i32)>, key: i32) -> Option<i32> {
    if has_key(entries, key) {
        Some(entries[key_index(entries, key)].1)
    } else {
        None
    }
}

/// In a sequence of distinct keys, the entry of a key is the only one.
pub proof fn lemma_key_index_unique(entries: Seq<(i32, i32)>, key: i32, j: int)
    requires
        keys_distinct(entries),
        0 <= j < entries.len(),
        entries[j].0 == key,
    ensures
        has_key(entries, key),
        key_index(entries, key) == j,
{
    assert(has_key(entries, key));
    let k = key_index(entries, key);
    if k != j {
        assert(entries[k].0 != entries[j].0);
    }
}

/// Removing one entry and appending another keeps distinct keys when the new
/// key was not left behind.
pub proof fn lemma_remove_push_distinct(entries: Seq<(i32, i32)>, j: int, e: (i32, i32))
    requires
        keys_distinct(entries),
        0 <= j < entries.len(),
        !has_key(entries.remove(j), e.0),
    ensures
        keys_distinct(entries.remove(j).push(e)),
        forall|k: i32|
            #[trigger] has_key(entries.remove(j).push(e), k) <==> (k == e.0 || (has_key(entries, k)
                && k != entries[j].0)),
{
    let r = entries.remove(j);
    let t = r.push(e);
    assert forall|a: int, b: int|
        0 <= a < t.len() && 0 <= b < t.len() && a != b implies #[trigger] t[a].0 != #[trigger] t[b].0 by {
        if a == t.len() - 1 {
            assert(r[b].0 == t[b].0);
        } else if b == t.len() - 1 {
            assert(r[a].0 == t[a].0);
        } else {
            let ia = if a < j { a } else { a + 1 };
            let ib = if b < j { b } else { b + 1 };
            assert(t[a] == entries[ia]);
            assert(t[b] == entries[ib]);
        }
    }
    assert forall|k: i32| #[trigger] has_key(t, k) <==> (k == e.0 || (has_key(entries, k) && k
        != entries[j].0)) by {
        if has_key(t, k) {
            let a = choose|a: int| 0 <= a < t.len() && #[trigger] t[a].0 == k;
            if a < t.len() - 1 {
                let ia = if a < j { a } else { a + 1 };
                assert(t[a] == entries[ia]);
                assert(ia != j);
                assert(entries[ia].0 != entries[j].0);
            }
        }
        if k != e.0 && has_key(entries, k) && k != entries[j].0 {
            let i = choose|i: int| 0 <= i < entries.len() && #[trigger] entries[i].0 == k;
            let a = if i < j { i } else { i - 1 };
            assert(t[a] == entries[i]);
        }
        if k == e.0 {
            assert(t[t.len() - 1].0 == k);
        }
    }
}

/// Appending an entry with a new key keeps distinct keys.
pub proof fn lemma_push_distinct(entries: Seq<(i32, i32)>, e: (i32, i32))
    requires
        keys_distinct(entries),
        !has_key(entries, e.0),
    ensures
        keys_distinct(entries.push(e)),
        forall|k: i32| #[trigger] has_key(entries.push(e), k) <==> (k == e.0 || has_key(entries, k)),
{
    let t = entries.push(e);
    assert forall|a: int, b: int|
        0 <= a < t.len() && 0 <= b < t.len() && a != b implies #[trigger] t[a].0 != #[trigger] t[b].0 by {
        if a == t.len() - 1 {
            assert(t[b] == entries[b]);
        } else if b == t.len() - 1 {
            assert(t[a] == entries[a]);
        }
    }
    assert forall|k: i32| #[trigger] has_key(t, k) <==> (k == e.0 || has_key(entries, k)) by {
        if has_key(t, k) {
            let a = choose|a: int| 0 <= a < t.len() && #[trigger] t[a].0 == k;
            if a < t.len() - 1 {
                assert(t[a] == entries[a]);
            }
        }
        if has_key(entries, k) {
            let i = choose|i: int| 0 <= i < entries.len() && #[trigger] entries[i].0 == k;
            assert(t[i] == entries[i]);
        }
        if k == e.0 {
            assert(t[t.len() - 1].0 == k);
        }
    }
}

/// Entries of a cache of at most `capacity` entries with distinct keys.
pub open spec fn lru_valid(entries: Seq<(i32, i32)>, capacity: int) -> bool {
    keys_distinct(entries) && entries.len() <= capacity
}

/// Every write keeps the cache valid: distinct keys and no more entries than
/// the capacity.
pub proof fn law_put_keeps_valid(entries: Seq<(i32, i32)>, capacity: int, key: i32, value: i32)
    requires
        lru_valid(entries, capacity),
        capacity >= 1,
    ensures
        lru_valid(lru_put(entries, capacity, key, value), capacity),
{
    if has_key(entries, key) {
        let j = key_index(entries, key);
        lemma_key_index_unique(entries, key, j);
        lemma_remove_key_absent(entries, j);
        lemma_remove_push_distinct(entries, j, (key, value));
    } else if entries.len() >= capacity {
        lemma_remove_absent(entries, 0, key);
        lemma_remove_push_distinct(entries, 0, (key, value));
    } else {
        lemma_push_distinct(entries, (key, value));
    }
}

/// Every read keeps the cache valid.
pub proof fn law_get_keeps_valid(entries: Seq<(i32, i32)>, capacity: int, key: i32)
    requires
        lru_valid(entries, capacity),
    ensures
        lru_valid(lru_get(entries, key).0, capacity),
        lookup(lru_get(entries, key).0, key) == lookup(entries, key),
{
    if has_key(entries, key) {
        let j = key_index(entries, key);
        lemma_key_index_unique(entries, key, j);
        lemma_remove_key_absent(entries, j);
        lemma_remove_push_distinct(entries, j, entries[j]);
        let t = lru_get(entries, key).0;
        lemma_key_index_unique(t, key, t.len() - 1);
    }
}

/// After a key is written, reading it gives the value written.
pub proof fn law_get_after_put(entries: Seq<(i32, i32)>, capacity: int, key: i32, value: i32)
    requires
        lru_valid(entries, capacity),
        capacity >= 1,
    ensures
        lru_get(lru_put(entries, capacity, key, value), key).1 == value,
        lookup(lru_put(entries, capacity, key, value), key) == Some(value),
{
    law_put_keeps_valid(entries, capacity, key, value);
    let t = lru_put(entries, capacity, key, value);
    lemma_key_index_unique(t, key, t.len() - 1);
}

/// A read of a key with no entry returns `-1` and changes nothing.
pub proof fn law_get_missing(entries: Seq<(i32, i32)>, key: i32)
    requires
        !has_key(entries, key),
    ensures
        lru_get(entries, key) == (entries, -1i32),
{
}

/// Writing one key leaves the value of every other key that stays cached as it was;
/// the one key that can leave is the least recently used, and only when a new
/// key arrives in a full cache.
pub proof fn law_put_keeps_others(
    entries: Seq<(i32, i32)>,
    capacity: int,
    key: i32,
    value: i32,
    other: i32,
)
    requires
        lru_valid(entries, capacity),
        capacity >= 1,
        other != key,
    ensures
        lookup(lru_put(entries, capacity, key, value), other) == (if !has_key(entries, key)
            && entries.len() >= capacity && entries[0].0 == other {
            None
        } else {
            lookup(entries, other)
        }),
{
    law_put_keeps_valid(entries, capacity, key, value);
    let t = lru_put(entries, capacity, key, value);
    if has_key(entries, key) {
        let j = key_index(entries, key);
        lemma_key_index_unique(entries, key, j);
        lemma_remove_key_absent(entries, j);
        lemma_remove_push_distinct(entries, j, (key, value));
        lemma_lookup_after_remove_push(entries, j, (key, value), other);
    } else if entries.len() >= capacity {
        lemma_remove_absent(entries, 0, key);
        lemma_remove_push_distinct(entries, 0, (key, value));
        lemma_lookup_after_remove_push(entries, 0, (key, value), other);
    } else {
        lemma_push_distinct(entries, (key, value));
        if has_key(entries, other) {
            let i = key_index(entries, other);
            lemma_key_index_unique(t, other, i);
        }
    }
}

proof fn lemma_lookup_after_remove_push(entries: Seq<(i32, i32)>, j: int, e: (i32, i32), other: i32)
    requires
        keys_distinct(entries),
        0 <= j < entries.len(),
        keys_distinct(entries.remove(j).push(e)),
        other != e.0,
        forall|k: i32|
            #[trigger] has_key(entries.remove(j).push(e), k) <==> (k == e.0 || (has_key(entries, k)
                && k != entries[j].0)),
    ensures
        lookup(entries.remove(j).push(e), other) == (if entries[j].0 == other {
            None
        } else {
            lookup(entries, other)
        }),
{
    let t = entries.remove(j).push(e);
    if has_key(entries, other) && other != entries[j].0 {
        let i = key_index(entries, other);
        let a = if i < j { i } else { i - 1 };
        assert(i != j);
        assert(t[a] == entries[i]);
        lemma_key_index_unique(t, other, a);
    }
}

/// Removing the entry at `j` leaves no entry of its key.
pub proof fn lemma_remove_key_absent(entries: Seq<(i32, i32)>, j: int)
    requires
        keys_distinct(entries),
        0 <= j < entries.len(),
    ensures
        !has_key(entries.remove(j), entries[j].0),
{
    let r = entries.remove(j);
    if has_key(r, entries[j].0) {
        let a = choose|a: int| 0 <= a < r.len() && #[trigger] r[a].0 == entries[j].0;
        let ia = if a < j { a } else { a + 1 };
        assert(r[a] == entries[ia]);
    }
}

/// Removing an entry leaves absent keys absent.
pub proof fn lemma_remove_absent(entries: Seq<(i32, i32)>, j: int, key: i32)
    requires
        0 <= j < entries.len(),
        !has_key(entries, key),
    ensures
        !has_key(entries.remove(j), key),
{
    let r = entries.remove(j);
    if has_key(r, key) {
        let a = choose|a: int| 0 <= a < r.len() && #[trigger] r[a].0 == key;
        let ia = if a < j { a } else { a + 1 };
        assert(r[a] == entries[ia]);
    }
}


/// One call on a cache: a read of a key, or a write of a key and a value.
pub enum CacheOp {
    Get(i32),
    Put(i32, i32),
}

/// The entries after the calls `ops`, made in order on `entries` in a cache of
/// `capacity` entries.
pub open spec fn run_ops(entries: Seq<(i32, i32)>, capacity: int, ops: Seq<CacheOp>) -> Seq<
    (i32, i32),
>
    decreases ops.len(),
{
    if ops.len() == 0 {
        entries
    } else {
        let s = run_ops(entries, capacity, ops.drop_last());
        match ops.last() {
            CacheOp::Get(k) => lru_get(s, k).0,
            CacheOp::Put(k, v) => lru_put(s, capacity, k, v),
        }
    }
}

/// The keys that `ops` write.
pub open spec fn put_keys(ops: Seq<CacheOp>) -> Set<i32>
    decreases ops.len(),
{
    if ops.len() == 0 {
        Set::empty()
    } else {
        match ops.last() {
            CacheOp::Get(_) => put_keys(ops.drop_last()),
            CacheOp::Put(k, _) => put_keys(ops.drop_last()).insert(k),
        }
    }
}

/// The value of the last write of `key` in `ops`, if any.
pub open spec fn last_put(ops: Seq<CacheOp>, key: i32) -> Option<i32>
    decreases ops.len(),
{
    if ops.len() == 0 {
        None
    } else {
        match ops.last() {
            CacheOp::Put(k, v) => if k == key {
                Some(v)
            } else {
                last_put(ops.drop_last(), key)
            },
            CacheOp::Get(_) => last_put(ops.drop_last(), key),
        }
    }
}

/// The smaller of `a` and `b`.
pub open spec fn min_int(a: int, b: int) -> int {
    if a < b {
        a
    } else {
        b
    }
}

/// What holds of the entries `s` after the calls `ops` on an empty cache.
spec fn history_inv(s: Seq<(i32, i32)>, capacity: int, ops: Seq<CacheOp>) -> bool {
    &&& lru_valid(s, capacity)
    &&& put_keys(ops).finite()
    &&& s.len() == min_int(capacity, put_keys(ops).len() as int)
    &&& s.len() < capacity ==> forall|k: i32| #[trigger] has_key(s, k) <==> put_keys(ops).contains(k)
    &&& forall|k: i32|
        #[trigger] has_key(s, k) ==> put_keys(ops).contains(k) && lookup(s, k) == last_put(ops, k)
}

proof fn lemma_history(capacity: int, ops: Seq<CacheOp>)
    requires
        capacity >= 1,
    ensures
        history_inv(run_ops(Seq::empty(), capacity, ops), capacity, ops),
    decreases ops.len(),
{
    if ops.len() == 0 {
        let s = run_ops(Seq::<(i32, i32)>::empty(), capacity, ops);
        assert(put_keys(ops) == Set::<i32>::empty());
        assert forall|k: i32| !#[trigger] has_key(s, k) by {}
    } else {
        let pre = ops.drop_last();
        lemma_history(capacity, pre);
        let s = run_ops(Seq::<(i32, i32)>::empty(), capacity, pre);
        let d = put_keys(pre);
        let t = run_ops(Seq::<(i32, i32)>::empty(), capacity, ops);
        match ops.last() {
            CacheOp::Get(key) => {
                assert(put_keys(ops) == d);
                assert(t == lru_get(s, key).0);
                law_get_keeps_valid(s, capacity, key);
                if has_key(s, key) {
                    let j = key_index(s, key);
                    lemma_key_index_unique(s, key, j);
                    lemma_remove_key_absent(s, j);
                    lemma_remove_push_distinct(s, j, s[j]);
                    assert forall|k: i32| #[trigger] has_key(t, k) <==> has_key(s, k) by {}
                    assert forall|k: i32| #[trigger] has_key(t, k) implies d.contains(k) && lookup(t, k)
                        == last_put(ops, k) by {
                        if k != key {
                            lemma_lookup_after_remove_push(s, j, s[j], k);
                        }
                    }
                }
            },
            CacheOp::Put(key, value) => {
                let d2 = d.insert(key);
                assert(put_keys(ops) == d2);
                assert(t == lru_put(s, capacity, key, value));
                law_put_keeps_valid(s, capacity, key, value);
                law_get_after_put(s, capacity, key, value);
                if has_key(s, key) {
                    assert(d2 =~= d);
                    let j = key_index(s, key);
                    lemma_key_index_unique(s, key, j);
                    lemma_remove_key_absent(s, j);
                    lemma_remove_push_distinct(s, j, (key, value));
                    assert forall|k: i32| #[trigger] has_key(t, k) <==> has_key(s, k) by {}
                } else if s.len() >= capacity {
                    assert(d.len() >= capacity);
                    assert(!d.contains(key) ==> d2.len() == d.len() + 1);
                    assert(d2.len() >= d.len()) by {
                        if d.contains(key) {
                            assert(d2 =~= d);
                        }
                    }
                    lemma_remove_absent(s, 0, key);
                    lemma_remove_push_distinct(s, 0, (key, value));
                } else {
                    assert(!d.contains(key));
                    assert(d2.len() == d.len() + 1);
                    lemma_push_distinct(s, (key, value));
                    assert forall|k: i32| #[trigger] has_key(t, k) <==> d2.contains(k) by {}
                }
                assert forall|k: i32| #[trigger] has_key(t, k) implies d2.contains(k) && lookup(t, k)
                    == last_put(ops, k) by {
                    if k != key {
                        law_put_keeps_others(s, capacity, key, value, k);
                        assert(has_key(s, k));
                    }
                }
            },
        }
    }
}

/// Over any sequence of calls on an empty cache of capacity at least 1, the cache
/// keeps distinct keys, holds as many entries as the smaller of its capacity and the
/// number of keys written, holds only keys that were written, and holds for each the
/// value of its last write.
pub proof fn law_history(capacity: int, ops: Seq<CacheOp>)
    requires
        capacity >= 1,
    ensures
        lru_valid(run_ops(Seq::empty(), capacity, ops), capacity),
        put_keys(ops).finite(),
        run_ops(Seq::empty(), capacity, ops).len() == min_int(capacity, put_keys(ops).len() as int),
        forall|k: i32|
            #[trigger] has_key(run_ops(Seq::empty(), capacity, ops), k) ==> put_keys(ops).contains(k)
                && lookup(run_ops(Seq::empty(), capacity, ops), k) == last_put(ops, k),
{
    lemma_history(capacity, ops);
}


/// A read of a cached key returns its value and moves its entry, unchanged, to the
/// most recently used end; the other entries keep their order. This holds for every
/// cache size.
pub proof fn law_get_refreshes(entries: Seq<(i32, i32)>, key: i32, j: int)
    requires
        keys_distinct(entries),
        0 <= j < entries.len(),
        entries[j].0 == key,
    ensures
        lru_get(entries, key).1 == entries[j].1,
        lru_get(entries, key).0.len() == entries.len(),
        lru_get(entries, key).0.last() == entries[j],
        lru_get(entries, key).0.drop_last() == entries.remove(j),
{
    lemma_key_index_unique(entries, key, j);
    assert(entries.remove(j).push(entries[j]).drop_last() =~= entries.remove(j));
}

} // verus!
