//! A local cache of shared values under string keys with two eviction rules:
//! least recently used first when the cache is full, and expiry after a maximum
//! age. Entries are kept in two orders: by use (least recently used first) and
//! by insertion (oldest first), which is also the order of expiry because every
//! entry gets the same maximum age.
use vstd::prelude::*;
use std::sync::Arc;
use std::time::{SystemTime, UNIX_EPOCH};

verus! {

/// One entry of the model: key, value and expiry time in nanoseconds.
pub type EntryModel<T> = (Seq<char>, Arc<T>, u128);

/// The abstract cache: entries by use, least recently used first, and keys by
/// insertion, oldest first.
pub struct CacheModel<T> {
    pub lru: Seq<EntryModel<T>>,
    pub exp_order: Seq<Seq<char>>,
}

/// Whether `key` has an entry in the use order.
pub open spec fn lru_has<T>(lru: Seq<EntryModel<T>>, key: Seq<char>) -> bool {
    exists|j: int| 0 <= j < lru.len() && #[trigger] lru[j].0 == key
}

/// Whether `key` stands in the insertion order.
pub open spec fn order_has(order: Seq<Seq<char>>, key: Seq<char>) -> bool {
    exists|j: int| 0 <= j < order.len() && #[trigger] order[j] == key
}

/// Whether `key` has an entry.
pub open spec fn model_has<T>(m: CacheModel<T>, key: Seq<char>) -> bool {
    lru_has(m.lru, key)
}

/// The place of `key` in the use order (meaningful when it has an entry).
pub open spec fn lru_index<T>(lru: Seq<EntryModel<T>>, key: Seq<char>) -> int {
    choose|j: int| 0 <= j < lru.len() && #[trigger] lru[j].0 == key
}

/// The place of `key` in the insertion order (meaningful when it is there).
pub open spec fn order_index(order: Seq<Seq<char>>, key: Seq<char>) -> int {
    choose|j: int| 0 <= j < order.len() && #[trigger] order[j] == key
}

/// The use order without the entry of `key`.
pub open spec fn lru_without<T>(lru: Seq<EntryModel<T>>, key: Seq<char>) -> Seq<EntryModel<T>> {
    if lru_has(lru, key) {
        lru.remove(lru_index(lru, key))
    } else {
        lru
    }
}

/// The insertion order without `key`.
pub open spec fn order_without(order: Seq<Seq<char>>, key: Seq<char>) -> Seq<Seq<char>> {
    if order_has(order, key) {
        order.remove(order_index(order, key))
    } else {
        order
    }
}

/// The cache without the entry of `key`.
pub open spec fn model_remove<T>(m: CacheModel<T>, key: Seq<char>) -> CacheModel<T> {
    CacheModel { lru: lru_without(m.lru, key), exp_order: order_without(m.exp_order, key) }
}

/// Reading `key` at time `now`: a live entry is returned and becomes the most
/// recently used; a missing or expired entry gives `None` and changes nothing.
pub open spec fn model_get<T>(m: CacheModel<T>, key: Seq<char>, now: u128) -> (
    CacheModel<T>,
    Option<Arc<T>>,
) {
    if !model_has(m, key) {
        (m, None)
    } else {
        let j = lru_index(m.lru, key);
        let e = m.lru[j];
        if now > e.2 {
            (m, None)
        } else {
            (CacheModel { lru: m.lru.remove(j).push(e), exp_order: m.exp_order }, Some(e.1))
        }
    }
}

/// Drops entries in insertion order while the oldest one has expired at `now`.
pub open spec fn drop_expired<T>(m: CacheModel<T>, now: u128) -> CacheModel<T>
    decreases m.exp_order.len(),
{
    if m.exp_order.len() == 0 {
        m
    } else {
        let k = m.exp_order[0];
        if m.lru[lru_index(m.lru, k)].2 > now {
            m
        } else {
            drop_expired(
                CacheModel {
                    lru: lru_without(m.lru, k),
                    exp_order: m.exp_order.subrange(1, m.exp_order.len() as int),
                },
                now,
            )
        }
    }
}

/// Evicts least recently used entries until fewer than `max` remain.
pub open spec fn evict_lru<T>(m: CacheModel<T>, max: nat) -> CacheModel<T>
    decreases m.lru.len(),
{
    if m.lru.len() < max || m.lru.len() == 0 {
        m
    } else {
        evict_lru(
            CacheModel {
                lru: m.lru.subrange(1, m.lru.len() as int),
                exp_order: order_without(m.exp_order, m.lru[0].0),
            },
            max,
        )
    }
}

/// Makes room at time `now`: nothing happens while fewer than `max` entries are
/// held; otherwise expired entries go first, then least recently used ones
/// until fewer than `max` remain.
pub open spec fn model_clean<T>(m: CacheModel<T>, max: nat, now: u128) -> CacheModel<T> {
    if m.lru.len() < max {
        m
    } else {
        evict_lru(drop_expired(m, now), max)
    }
}

/// Writing `key` at time `now`: its old entry goes, room is made, and the new
/// entry, expiring at `now + max_age`, becomes the most recently used and the
/// newest.
pub open spec fn model_put<T>(
    m: CacheModel<T>,
    max: nat,
    max_age: u128,
    key: Seq<char>,
    value: Arc<T>,
    now: u128,
) -> CacheModel<T> {
    let c = model_clean(model_remove(m, key), max, now);
    CacheModel {
        lru: c.lru.push((key, value, (now + max_age) as u128)),
        exp_order: c.exp_order.push(key),
    }
}

/// No key has two entries in the use order.
pub open spec fn lru_distinct<T>(lru: Seq<EntryModel<T>>) -> bool {
    forall|i: int, j: int|
        0 <= i < lru.len() && 0 <= j < lru.len() && i != j ==> #[trigger] lru[i].0
            != #[trigger] lru[j].0
}

/// No key stands twice in the insertion order.
pub open spec fn order_distinct(order: Seq<Seq<char>>) -> bool {
    forall|i: int, j: int|
        0 <= i < order.len() && 0 <= j < order.len() && i != j ==> #[trigger] order[i]
            != #[trigger] order[j]
}

/// Keys are distinct in both orders, and both orders hold the same keys.
pub open spec fn model_wf<T>(m: CacheModel<T>) -> bool {
    &&& m.lru.len() == m.exp_order.len()
    &&& lru_distinct(m.lru)
    &&& order_distinct(m.exp_order)
    &&& forall|k: Seq<char>| #[trigger] lru_has(m.lru, k) <==> order_has(m.exp_order, k)
}

proof fn lemma_lru_unique<T>(lru: Seq<EntryModel<T>>, key: Seq<char>, i: int)
    requires
        lru_distinct(lru),
        0 <= i < lru.len(),
        lru[i].0 == key,
    ensures
        lru_has(lru, key),
        lru_index(lru, key) == i,
{
    assert(lru_has(lru, key));
    let k = lru_index(lru, key);
    if k != i {
        assert(lru[k].0 != lru[i].0);
    }
}

proof fn lemma_order_unique(order: Seq<Seq<char>>, key: Seq<char>, i: int)
    requires
        order_distinct(order),
        0 <= i < order.len(),
        order[i] == key,
    ensures
        order_has(order, key),
        order_index(order, key) == i,
{
    assert(order_has(order, key));
    let k = order_index(order, key);
    if k != i {
        assert(order[k] != order[i]);
    }
}

/// Removing a key keeps the model consistent and removes exactly that key.
proof fn lemma_model_remove<T>(m: CacheModel<T>, key: Seq<char>)
    requires
        model_wf(m),
    ensures
        model_wf(model_remove(m, key)),
        forall|k: Seq<char>|
            #[trigger] model_has(model_remove(m, key), k) <==> (model_has(m, k) && k != key),
{
    let r = model_remove(m, key);
    if lru_has(m.lru, key) {
        let i = lru_index(m.lru, key);
        let j = order_index(m.exp_order, key);
        assert(order_has(m.exp_order, key));
        assert forall|a: int, b: int|
            0 <= a < r.lru.len() && 0 <= b < r.lru.len() && a != b implies #[trigger] r.lru[a].0
            != #[trigger] r.lru[b].0 by {
            let ia = if a < i { a } else { a + 1 };
            let ib = if b < i { b } else { b + 1 };
            assert(r.lru[a] == m.lru[ia]);
            assert(r.lru[b] == m.lru[ib]);
        }
        assert forall|a: int, b: int|
            0 <= a < r.exp_order.len() && 0 <= b < r.exp_order.len() && a != b implies #[trigger] r.exp_order[a]
            != #[trigger] r.exp_order[b] by {
            let ia = if a < j { a } else { a + 1 };
            let ib = if b < j { b } else { b + 1 };
            assert(r.exp_order[a] == m.exp_order[ia]);
            assert(r.exp_order[b] == m.exp_order[ib]);
        }
        assert forall|k: Seq<char>| #[trigger] lru_has(r.lru, k) <==> (lru_has(m.lru, k) && k != key) by {
            if lru_has(r.lru, k) {
                let a = choose|a: int| 0 <= a < r.lru.len() && #[trigger] r.lru[a].0 == k;
                let ia = if a < i { a } else { a + 1 };
                assert(r.lru[a] == m.lru[ia]);
                assert(m.lru[ia].0 != m.lru[i].0);
            }
            if lru_has(m.lru, k) && k != key {
                let b = choose|b: int| 0 <= b < m.lru.len() && #[trigger] m.lru[b].0 == k;
                let a = if b < i { b } else { b - 1 };
                assert(r.lru[a] == m.lru[b]);
            }
        }
        assert forall|k: Seq<char>| #[trigger] order_has(r.exp_order, k) <==> (order_has(m.exp_order, k) && k != key) by {
            if order_has(r.exp_order, k) {
                let a = choose|a: int| 0 <= a < r.exp_order.len() && #[trigger] r.exp_order[a] == k;
                let ia = if a < j { a } else { a + 1 };
                assert(r.exp_order[a] == m.exp_order[ia]);
                assert(m.exp_order[ia] != m.exp_order[j]);
            }
            if order_has(m.exp_order, k) && k != key {
                let b = choose|b: int| 0 <= b < m.exp_order.len() && #[trigger] m.exp_order[b] == k;
                let a = if b < j { b } else { b - 1 };
                assert(r.exp_order[a] == m.exp_order[b]);
            }
        }
        assert forall|k: Seq<char>| #[trigger] lru_has(r.lru, k) <==> order_has(r.exp_order, k) by {
            assert(lru_has(r.lru, k) <==> (lru_has(m.lru, k) && k != key));
            assert(order_has(r.exp_order, k) <==> (order_has(m.exp_order, k) && k != key));
        }
    } else {
        assert(!order_has(m.exp_order, key));
        assert(r == m);
    }
}

/// Appending a new key to both orders keeps the model consistent.
proof fn lemma_model_push<T>(m: CacheModel<T>, e: EntryModel<T>)
    requires
        model_wf(m),
        !model_has(m, e.0),
    ensures
        model_wf(CacheModel { lru: m.lru.push(e), exp_order: m.exp_order.push(e.0) }),
{
    let r = CacheModel { lru: m.lru.push(e), exp_order: m.exp_order.push(e.0) };
    assert(!order_has(m.exp_order, e.0));
    assert forall|a: int, b: int|
        0 <= a < r.lru.len() && 0 <= b < r.lru.len() && a != b implies #[trigger] r.lru[a].0
        != #[trigger] r.lru[b].0 by {
        if a == m.lru.len() {
            assert(r.lru[b] == m.lru[b]);
        } else if b == m.lru.len() {
            assert(r.lru[a] == m.lru[a]);
        }
    }
    assert forall|a: int, b: int|
        0 <= a < r.exp_order.len() && 0 <= b < r.exp_order.len() && a != b implies #[trigger] r.exp_order[a]
        != #[trigger] r.exp_order[b] by {
        if a == m.exp_order.len() {
            assert(r.exp_order[b] == m.exp_order[b]);
        } else if b == m.exp_order.len() {
            assert(r.exp_order[a] == m.exp_order[a]);
        }
    }
    assert forall|k: Seq<char>| #[trigger] lru_has(r.lru, k) <==> order_has(r.exp_order, k) by {
        if lru_has(r.lru, k) {
            let a = choose|a: int| 0 <= a < r.lru.len() && #[trigger] r.lru[a].0 == k;
            if a < m.lru.len() {
                assert(r.lru[a] == m.lru[a]);
                assert(lru_has(m.lru, k));
                let b = choose|b: int| 0 <= b < m.exp_order.len() && #[trigger] m.exp_order[b] == k;
                assert(r.exp_order[b] == m.exp_order[b]);
            } else {
                assert(r.exp_order[m.exp_order.len() as int] == k);
            }
        }
        if order_has(r.exp_order, k) {
            let a = choose|a: int| 0 <= a < r.exp_order.len() && #[trigger] r.exp_order[a] == k;
            if a < m.exp_order.len() {
                assert(r.exp_order[a] == m.exp_order[a]);
                assert(order_has(m.exp_order, k));
                assert(lru_has(m.lru, k));
                let b = choose|b: int| 0 <= b < m.lru.len() && #[trigger] m.lru[b].0 == k;
                assert(r.lru[b] == m.lru[b]);
            } else {
                assert(r.lru[m.lru.len() as int].0 == k);
            }
        }
    }
}

/// Dropping the oldest key of a consistent model is removing it.
proof fn lemma_drop_oldest<T>(m: CacheModel<T>)
    requires
        model_wf(m),
        m.exp_order.len() > 0,
    ensures
        model_remove(m, m.exp_order[0]) == (CacheModel {
            lru: lru_without(m.lru, m.exp_order[0]),
            exp_order: m.exp_order.subrange(1, m.exp_order.len() as int),
        }),
{
    lemma_order_unique(m.exp_order, m.exp_order[0], 0);
    assert(m.exp_order.remove(0) =~= m.exp_order.subrange(1, m.exp_order.len() as int));
}

/// Dropping expired entries keeps the model consistent and adds no key.
proof fn lemma_drop_expired<T>(m: CacheModel<T>, now: u128)
    requires
        model_wf(m),
    ensures
        model_wf(drop_expired(m, now)),
        drop_expired(m, now).lru.len() <= m.lru.len(),
        forall|k: Seq<char>| #[trigger] model_has(drop_expired(m, now), k) ==> model_has(m, k),
    decreases m.exp_order.len(),
{
    if m.exp_order.len() > 0 {
        let k = m.exp_order[0];
        if m.lru[lru_index(m.lru, k)].2 <= now {
            lemma_drop_oldest(m);
            lemma_model_remove(m, k);
            let r = model_remove(m, k);
            lemma_drop_expired(r, now);
        }
    }
}

/// Evicting least recently used entries keeps the model consistent, adds no key,
/// and leaves fewer than `max` entries.
proof fn lemma_evict_lru<T>(m: CacheModel<T>, max: nat)
    requires
        model_wf(m),
        max >= 1,
    ensures
        model_wf(evict_lru(m, max)),
        evict_lru(m, max).lru.len() < max,
        forall|k: Seq<char>| #[trigger] model_has(evict_lru(m, max), k) ==> model_has(m, k),
    decreases m.lru.len(),
{
    if m.lru.len() >= max && m.lru.len() > 0 {
        let k = m.lru[0].0;
        lemma_lru_unique(m.lru, k, 0);
        assert(m.lru.remove(0) =~= m.lru.subrange(1, m.lru.len() as int));
        lemma_model_remove(m, k);
        lemma_evict_lru(model_remove(m, k), max);
    }
}

/// Writing keeps the model consistent, leaves at most `max` entries, and the key
/// written is the most recently used and the newest, with the value written.
proof fn lemma_model_put<T>(
    m: CacheModel<T>,
    max: nat,
    max_age: u128,
    key: Seq<char>,
    value: Arc<T>,
    now: u128,
)
    requires
        model_wf(m),
        max >= 1,
    ensures
        model_wf(model_put(m, max, max_age, key, value, now)),
        model_put(m, max, max_age, key, value, now).lru.len() <= max,
        model_has(model_put(m, max, max_age, key, value, now), key),
        lru_index(model_put(m, max, max_age, key, value, now).lru, key) == model_put(
            m,
            max,
            max_age,
            key,
            value,
            now,
        ).lru.len() - 1,
{
    let r = model_remove(m, key);
    lemma_model_remove(m, key);
    let c = model_clean(r, max, now);
    if r.lru.len() >= max {
        lemma_drop_expired(r, now);
        lemma_evict_lru(drop_expired(r, now), max);
    }
    assert(!model_has(c, key));
    lemma_model_push(c, (key, value, (now + max_age) as u128));
    let p = model_put(m, max, max_age, key, value, now);
    lemma_lru_unique(p.lru, key, p.lru.len() - 1);
}

/// A read of a key at any time up to `max_age` after a write of it gives back the
/// value written.
pub proof fn law_get_after_put<T>(
    m: CacheModel<T>,
    max: nat,
    max_age: u128,
    key: Seq<char>,
    value: Arc<T>,
    now: u128,
    later: u128,
)
    requires
        model_wf(m),
        max >= 1,
        now + max_age <= u128::MAX,
        later <= now + max_age,
    ensures
        model_get(model_put(m, max, max_age, key, value, now), key, later).1 == Some(value),
{
    lemma_model_put(m, max, max_age, key, value, now);
}

/// A read of a key more than `max_age` after a write of it gives nothing and
/// changes nothing.
pub proof fn law_get_after_expiry<T>(
    m: CacheModel<T>,
    max: nat,
    max_age: u128,
    key: Seq<char>,
    value: Arc<T>,
    now: u128,
    later: u128,
)
    requires
        model_wf(m),
        max >= 1,
        now + max_age <= u128::MAX,
        later > now + max_age,
    ensures
        model_get(model_put(m, max, max_age, key, value, now), key, later) == (
            model_put(m, max, max_age, key, value, now),
            None::<Arc<T>>,
        ),
{
    lemma_model_put(m, max, max_age, key, value, now);
}

/// After a write the cache holds at most `max` entries, whatever it held before,
/// and stays consistent.
pub proof fn law_put_bounded<T>(
    m: CacheModel<T>,
    max: nat,
    max_age: u128,
    key: Seq<char>,
    value: Arc<T>,
    now: u128,
)
    requires
        model_wf(m),
        max >= 1,
    ensures
        model_wf(model_put(m, max, max_age, key, value, now)),
        model_put(m, max, max_age, key, value, now).lru.len() <= max,
{
    lemma_model_put(m, max, max_age, key, value, now);
}

/// Writing a new key into a full cache in which nothing has expired evicts exactly
/// the least recently used entry.
pub proof fn law_put_evicts_least_recent<T>(
    m: CacheModel<T>,
    max: nat,
    max_age: u128,
    key: Seq<char>,
    value: Arc<T>,
    now: u128,
)
    requires
        model_wf(m),
        max >= 1,
        m.lru.len() == max,
        !model_has(m, key),
        forall|j: int| 0 <= j < m.lru.len() ==> #[trigger] m.lru[j].2 > now,
    ensures
        model_put(m, max, max_age, key, value, now).lru == m.lru.subrange(1, m.lru.len() as int).push(
            (key, value, (now + max_age) as u128),
        ),
{
    assert(!order_has(m.exp_order, key));
    assert(model_remove(m, key) == m);
    let k = m.exp_order[0];
    assert(order_has(m.exp_order, k));
    assert(lru_has(m.lru, k));
    assert(drop_expired(m, now) == m);
    let k0 = m.lru[0].0;
    let e1 = CacheModel {
        lru: m.lru.subrange(1, m.lru.len() as int),
        exp_order: order_without(m.exp_order, k0),
    };
    assert(evict_lru(m, max) == evict_lru(e1, max));
    assert(evict_lru(e1, max) == e1);
}

/// A read keeps the keys held and the model consistent; a hit makes its key the most
/// recently used.
pub proof fn law_get_keeps_keys<T>(m: CacheModel<T>, key: Seq<char>, now: u128)
    requires
        model_wf(m),
    ensures
        model_wf(model_get(m, key, now).0),
        forall|k: Seq<char>| #[trigger] model_has(model_get(m, key, now).0, k) <==> model_has(m, k),
        model_get(m, key, now).1 is Some ==> model_get(m, key, now).0.lru.last().0 == key,
{
    if model_has(m, key) {
        let j = lru_index(m.lru, key);
        let e = m.lru[j];
        if now <= e.2 {
            let r = model_get(m, key, now).0;
            assert(r.lru == m.lru.remove(j).push(e));
            assert forall|a: int, b: int|
                0 <= a < r.lru.len() && 0 <= b < r.lru.len() && a != b implies #[trigger] r.lru[a].0
                != #[trigger] r.lru[b].0 by {
                let ia = if a == r.lru.len() - 1 { j } else if a < j { a } else { a + 1 };
                let ib = if b == r.lru.len() - 1 { j } else if b < j { b } else { b + 1 };
                assert(r.lru[a] == m.lru[ia]);
                assert(r.lru[b] == m.lru[ib]);
            }
            assert forall|k: Seq<char>| #[trigger] lru_has(r.lru, k) <==> lru_has(m.lru, k) by {
                if lru_has(r.lru, k) {
                    let a = choose|a: int| 0 <= a < r.lru.len() && #[trigger] r.lru[a].0 == k;
                    let ia = if a == r.lru.len() - 1 { j } else if a < j { a } else { a + 1 };
                    assert(r.lru[a] == m.lru[ia]);
                }
                if lru_has(m.lru, k) {
                    let b = choose|b: int| 0 <= b < m.lru.len() && #[trigger] m.lru[b].0 == k;
                    let a = if b == j { r.lru.len() - 1 } else if b < j { b } else { b - 1 };
                    assert(r.lru[a] == m.lru[b]);
                }
            }
            assert forall|k: Seq<char>| #[trigger] model_has(r, k) <==> model_has(m, k) by {
                assert(lru_has(r.lru, k) <==> lru_has(m.lru, k));
            }
            assert forall|k: Seq<char>| #[trigger] lru_has(r.lru, k) <==> order_has(r.exp_order, k) by {
                assert(lru_has(r.lru, k) <==> lru_has(m.lru, k));
            }
        }
    }
}

/// Clones the handle to a shared value (`Arc::clone`): the clone points to the
/// same value.
#[verifier::external_body]
fn arc_clone<T>(a: &Arc<T>) -> (r: Arc<T>)
    ensures
        r == *a,
{
    Arc::clone(a)
}

/// Reads the system clock (`SystemTime::now`) as nanoseconds since the Unix
/// epoch; `None` when the clock reads before the epoch (`duration_since` fails).
/// Nothing is stated of the value: it is the time.
#[verifier::external_body]
fn unix_now_nanos() -> Option<u128> {
    SystemTime::now().duration_since(UNIX_EPOCH).ok().map(|d| d.as_nanos())
}

struct CacheEntity<T> {
    key: String,
    value: Arc<T>,
    exp: u128,
}

impl<T> CacheEntity<T> {
    spec fn model(&self) -> EntryModel<T> {
        (self.key@, self.value, self.exp)
    }
}

/// The cache's state: at most `max_numbers` entries that live `max_age_ns`
/// nanoseconds, with the time given by the caller.
pub struct InnerLocalCache<T> {
    max_numbers: usize,
    max_age_ns: u128,
    lru: Vec<CacheEntity<T>>,
    exp_order: Vec<String>,
}

impl<T> View for InnerLocalCache<T> {
    type V = CacheModel<T>;

    closed spec fn view(&self) -> CacheModel<T> {
        CacheModel {
            lru: Seq::new(self.lru@.len(), |i: int| self.lru@[i].model()),
            exp_order: Seq::new(self.exp_order@.len(), |i: int| self.exp_order@[i]@),
        }
    }
}

impl<T> InnerLocalCache<T> {
    /// The number of entries at which the cache makes room.
    pub closed spec fn spec_max_numbers(&self) -> nat {
        self.max_numbers as nat
    }

    /// How long an entry lives, in nanoseconds.
    pub closed spec fn spec_max_age(&self) -> u128 {
        self.max_age_ns
    }

    /// The model is consistent.
    pub open spec fn wf(&self) -> bool {
        model_wf(self@)
    }

    /// Creates an empty cache.
    pub fn new(max_numbers: usize, max_age_ns: u128) -> (c: Self)
        ensures
            c.wf(),
            c@.lru == Seq::<EntryModel<T>>::empty(),
            c@.exp_order == Seq::<Seq<char>>::empty(),
            c.spec_max_numbers() == max_numbers,
            c.spec_max_age() == max_age_ns,
    {
        let c = Self { max_numbers, max_age_ns, lru: Vec::new(), exp_order: Vec::new() };
        assert(c@.lru =~= Seq::<EntryModel<T>>::empty());
        assert(c@.exp_order =~= Seq::<Seq<char>>::empty());
        c
    }

    /// Reads `key` at time `now`: a live entry's value, which becomes the most
    /// recently used; `None` for a missing or expired entry.
    pub fn get(&mut self, key: &String, now: u128) -> (r: Option<Arc<T>>)
        requires
            old(self).wf(),
        ensures
            final(self).wf(),
            final(self).spec_max_numbers() == old(self).spec_max_numbers(),
            final(self).spec_max_age() == old(self).spec_max_age(),
            (final(self)@, r) == model_get(old(self)@, key@, now),
    {
        let ghost pre = self@;
        match self.find_lru(key) {
            None => None,
            Some(i) => {
                proof {
                    lemma_lru_unique(pre.lru, key@, i as int);
                }
                if now > self.lru[i].exp {
                    return None;
                }
                let entity = self.remove_lru(i);
                let value = arc_clone(&entity.value);
                self.lru.push(entity);
                proof {
                    let e = pre.lru[i as int];
                    assert(self@.lru =~= pre.lru.remove(i as int).push(e));
                    assert(self@.exp_order =~= pre.exp_order);
                    let r = self@;
                    assert forall|a: int, b: int|
                        0 <= a < r.lru.len() && 0 <= b < r.lru.len() && a != b implies #[trigger] r.lru[a].0
                        != #[trigger] r.lru[b].0 by {
                        let ia = if a == r.lru.len() - 1 { i as int } else if a < i { a } else { a + 1 };
                        let ib = if b == r.lru.len() - 1 { i as int } else if b < i { b } else { b + 1 };
                        assert(r.lru[a] == pre.lru[ia]);
                        assert(r.lru[b] == pre.lru[ib]);
                    }
                    assert forall|k: Seq<char>| #[trigger] lru_has(r.lru, k) <==> lru_has(pre.lru, k) by {
                        if lru_has(r.lru, k) {
                            let a = choose|a: int| 0 <= a < r.lru.len() && #[trigger] r.lru[a].0 == k;
                            let ia = if a == r.lru.len() - 1 { i as int } else if a < i { a } else { a + 1 };
                            assert(r.lru[a] == pre.lru[ia]);
                        }
                        if lru_has(pre.lru, k) {
                            let b = choose|b: int| 0 <= b < pre.lru.len() && #[trigger] pre.lru[b].0 == k;
                            let a = if b == i { r.lru.len() - 1 } else if b < i { b } else { b - 1 };
                            assert(r.lru[a] == pre.lru[b]);
                        }
                    }
                    assert forall|k: Seq<char>| #[trigger] lru_has(r.lru, k) <==> order_has(r.exp_order, k) by {
                        assert(lru_has(r.lru, k) <==> lru_has(pre.lru, k));
                    }
                }
                Some(value)
            },
        }
    }

    /// Writes `value` under `key` at time `now`: the old entry of the key goes,
    /// room is made, and the new entry expires at `now + max_age`.
    pub fn put(&mut self, key: String, value: Arc<T>, now: u128)
        requires
            old(self).wf(),
            old(self).spec_max_numbers() >= 1,
            now + old(self).spec_max_age() <= u128::MAX,
        ensures
            final(self).wf(),
            final(self).spec_max_numbers() == old(self).spec_max_numbers(),
            final(self).spec_max_age() == old(self).spec_max_age(),
            final(self)@ == model_put(
                old(self)@,
                old(self).spec_max_numbers(),
                old(self).spec_max_age(),
                key@,
                value,
                now,
            ),
    {
        self.remove(&key);
        let ghost removed = self@;
        self.clean(now);
        proof {
            assert(!model_has(removed, key@));
            assert(!model_has(self@, key@));
            lemma_model_push(self@, (key@, value, (now + self.max_age_ns) as u128));
        }
        let exp = now + self.max_age_ns;
        let key2 = key.clone();
        let ghost before = self@;
        self.lru.push(CacheEntity { key, value, exp });
        self.exp_order.push(key2);
        proof {
            assert(self@.lru =~= before.lru.push((key@, value, exp)));
            assert(self@.exp_order =~= before.exp_order.push(key@));
        }
    }

    /// Makes room at time `now` once the cache holds `max_numbers` entries:
    /// expired entries go first, oldest first, then least recently used ones
    /// until fewer than `max_numbers` remain.
    fn clean(&mut self, now: u128)
        requires
            old(self).wf(),
            old(self).spec_max_numbers() >= 1,
        ensures
            final(self).wf(),
            final(self).max_numbers == old(self).max_numbers,
            final(self).max_age_ns == old(self).max_age_ns,
            final(self)@ == model_clean(old(self)@, old(self).spec_max_numbers(), now),
            forall|k: Seq<char>| #[trigger] model_has(final(self)@, k) ==> model_has(old(self)@, k),
    {
        if self.lru.len() < self.max_numbers {
            return;
        }
        let ghost m0 = self@;
        let mut done = false;
        while !done && self.exp_order.len() > 0
            invariant
                self.wf(),
                self.max_numbers == old(self).max_numbers,
                self.max_age_ns == old(self).max_age_ns,
                drop_expired(self@, now) == drop_expired(m0, now),
                done ==> drop_expired(self@, now) == self@,
                forall|k: Seq<char>| #[trigger] model_has(self@, k) ==> model_has(m0, k),
            decreases self.exp_order@.len() + (if done { 0int } else { 1int }),
        {
            let k = self.exp_order[0].clone();
            let ghost m = self@;
            proof {
                lemma_order_unique(m.exp_order, k@, 0);
                assert(lru_has(m.lru, k@));
            }
            match self.find_lru(&k) {
                Some(i) => {
                    proof {
                        lemma_lru_unique(m.lru, k@, i as int);
                    }
                    if self.lru[i].exp > now {
                        done = true;
                    } else {
                        self.remove(&k);
                        proof {
                            assert(m.exp_order.remove(0) =~= m.exp_order.subrange(
                                1,
                                m.exp_order.len() as int,
                            ));
                            lemma_model_remove(m, k@);
                        }
                    }
                },
                None => {
                    done = true;
                },
            }
        }
        if self.exp_order.len() == 0 {
            proof {
                assert(drop_expired(self@, now) == self@);
            }
        }
        let ghost m1 = self@;
        while self.lru.len() >= self.max_numbers
            invariant
                self.wf(),
                self.max_numbers == old(self).max_numbers,
                self.max_numbers >= 1,
                self.max_age_ns == old(self).max_age_ns,
                evict_lru(self@, self.max_numbers as nat) == evict_lru(m1, self.max_numbers as nat),
                forall|k: Seq<char>| #[trigger] model_has(self@, k) ==> model_has(m0, k),
            decreases self.lru@.len(),
        {
            let key = self.lru[0].key.clone();
            let ghost m = self@;
            proof {
                lemma_lru_unique(m.lru, key@, 0);
                lemma_model_remove(m, key@);
                assert(m.lru.remove(0) =~= m.lru.subrange(1, m.lru.len() as int));
            }
            self.remove(&key);
        }
    }

    /// Removes the entry of `key`, if any, from both orders.
    fn remove(&mut self, key: &String)
        requires
            old(self).wf(),
        ensures
            final(self).wf(),
            final(self).max_numbers == old(self).max_numbers,
            final(self).max_age_ns == old(self).max_age_ns,
            final(self)@ == model_remove(old(self)@, key@),
            forall|k: Seq<char>|
                #[trigger] model_has(final(self)@, k) <==> (model_has(old(self)@, k) && k != key@),
    {
        let ghost pre = self@;
        proof {
            lemma_model_remove(pre, key@);
        }
        match self.find_lru(key) {
            Some(i) => {
                proof {
                    lemma_lru_unique(pre.lru, key@, i as int);
                    assert(order_has(pre.exp_order, key@));
                }
                let _ = self.remove_lru(i);
                match self.find_exp(key) {
                    Some(j) => {
                        proof {
                            lemma_order_unique(pre.exp_order, key@, j as int);
                        }
                        self.remove_exp(j);
                    },
                    None => {},
                }
                proof {
                    assert(self@.lru =~= pre.lru.remove(i as int));
                }
            },
            None => {
                proof {
                    assert(!order_has(pre.exp_order, key@));
                    assert(self@ =~= pre);
                }
            },
        }
    }

    /// Takes the entry at place `i` out of the use order.
    fn remove_lru(&mut self, i: usize) -> (e: CacheEntity<T>)
        requires
            i < old(self)@.lru.len(),
        ensures
            e.model() == old(self)@.lru[i as int],
            final(self)@.lru == old(self)@.lru.remove(i as int),
            final(self)@.exp_order == old(self)@.exp_order,
            final(self).max_numbers == old(self).max_numbers,
            final(self).max_age_ns == old(self).max_age_ns,
    {
        let e = self.lru.remove(i);
        assert(self@.lru =~= old(self)@.lru.remove(i as int));
        assert(self@.exp_order =~= old(self)@.exp_order);
        e
    }

    /// Takes the key at place `j` out of the insertion order.
    fn remove_exp(&mut self, j: usize)
        requires
            j < old(self)@.exp_order.len(),
        ensures
            final(self)@.exp_order == old(self)@.exp_order.remove(j as int),
            final(self)@.lru == old(self)@.lru,
            final(self).max_numbers == old(self).max_numbers,
            final(self).max_age_ns == old(self).max_age_ns,
    {
        let _ = self.exp_order.remove(j);
        assert(self@.exp_order =~= old(self)@.exp_order.remove(j as int));
        assert(self@.lru =~= old(self)@.lru);
    }

    /// The place of `key` in the use order.
    fn find_lru(&self, key: &String) -> (r: Option<usize>)
        ensures
            r matches Some(i) ==> i < self@.lru.len() && self@.lru[i as int].0 == key@,
            r is None ==> !lru_has(self@.lru, key@),
    {
        let mut i: usize = 0;
        while i < self.lru.len()
            invariant
                i <= self.lru@.len(),
                forall|j: int| 0 <= j < i ==> #[trigger] self@.lru[j].0 != key@,
            decreases self.lru@.len() - i,
        {
            if self.lru[i].key == *key {
                return Some(i);
            }
            i = i + 1;
        }
        None
    }

    /// The place of `key` in the insertion order.
    fn find_exp(&self, key: &String) -> (r: Option<usize>)
        ensures
            r matches Some(j) ==> j < self@.exp_order.len() && self@.exp_order[j as int] == key@,
            r is None ==> !order_has(self@.exp_order, key@),
    {
        let mut j: usize = 0;
        while j < self.exp_order.len()
            invariant
                j <= self.exp_order@.len(),
                forall|k: int| 0 <= k < j ==> #[trigger] self@.exp_order[k] != key@,
            decreases self.exp_order@.len() - j,
        {
            if self.exp_order[j] == *key {
                return Some(j);
            }
            j = j + 1;
        }
        None
    }
}

/// The cache with the system clock as its time source. It is used by one owner at
/// a time; sharing it between threads is the caller's business.
pub struct LocalCache<T>(InnerLocalCache<T>);

impl<T> View for LocalCache<T> {
    type V = CacheModel<T>;

    closed spec fn view(&self) -> CacheModel<T> {
        self.0@
    }
}

impl<T> LocalCache<T> {
    /// The number of entries at which the cache makes room.
    pub closed spec fn spec_max_numbers(&self) -> nat {
        self.0.spec_max_numbers()
    }

    /// How long an entry lives, in nanoseconds.
    pub closed spec fn spec_max_age(&self) -> u128 {
        self.0.spec_max_age()
    }

    /// The model is consistent.
    pub open spec fn wf(&self) -> bool {
        model_wf(self@)
    }

    /// Creates an empty cache of at most `max_numbers` entries that live
    /// `max_age_secs` seconds.
    pub fn new(max_numbers: usize, max_age_secs: u64) -> (c: Self)
        ensures
            c.wf(),
            c@.lru == Seq::<EntryModel<T>>::empty(),
            c@.exp_order == Seq::<Seq<char>>::empty(),
            c.spec_max_numbers() == max_numbers,
            c.spec_max_age() == max_age_secs as u128 * 1_000_000_000,
    {
        LocalCache(InnerLocalCache::new(max_numbers, secs_to_nanos(max_age_secs)))
    }

    /// Reads `key` now: a live entry's value, which becomes the most recently
    /// used; `None` for a missing or expired entry. When the clock reads before
    /// the Unix epoch the cache is left as it was and `None` is returned.
    pub fn get(&mut self, key: &String) -> (r: Option<Arc<T>>)
        requires
            old(self).wf(),
        ensures
            final(self).wf(),
            final(self).spec_max_numbers() == old(self).spec_max_numbers(),
            final(self).spec_max_age() == old(self).spec_max_age(),
            (r is None && final(self)@ == old(self)@) || exists|now: u128|
                (final(self)@, r) == model_get(old(self)@, key@, now),
    {
        match unix_now_nanos() {
            Some(now) => self.0.get(key, now),
            None => None,
        }
    }

    /// Writes `value` under `key` now. The clock is read once; if it reads
    /// before the Unix epoch, or the expiry time would not fit in 128 bits, the
    /// cache is left as it was.
    pub fn put(&mut self, key: String, value: Arc<T>)
        requires
            old(self).wf(),
            old(self).spec_max_numbers() >= 1,
        ensures
            final(self).wf(),
            final(self).spec_max_numbers() == old(self).spec_max_numbers(),
            final(self).spec_max_age() == old(self).spec_max_age(),
            final(self)@ == old(self)@ || exists|now: u128|
                #[trigger] put_outcome(
                    old(self)@,
                    final(self)@,
                    old(self).spec_max_numbers(),
                    old(self).spec_max_age(),
                    key@,
                    value,
                    now,
                ),
    {
        let now = match unix_now_nanos() {
            Some(now) => now,
            None => return,
        };
        let ghost pre = self@;
        let ghost k = key@;
        if now <= u128::MAX - self.0.max_age_ns {
            self.0.put(key, value, now);
            proof {
                assert(put_outcome(pre, self@, old(self).spec_max_numbers(), old(self).spec_max_age(), k, value, now));
            }
        } else {
            proof {
                assert(put_outcome(pre, self@, old(self).spec_max_numbers(), old(self).spec_max_age(), k, value, now));
            }
        }
    }
}

/// A write of `key` at time `now` took `before` to `after`: the write happened when
/// its expiry time fits in 128 bits, and nothing changed otherwise.
pub open spec fn put_outcome<T>(
    before: CacheModel<T>,
    after: CacheModel<T>,
    max: nat,
    max_age: u128,
    key: Seq<char>,
    value: Arc<T>,
    now: u128,
) -> bool {
    if now + max_age <= u128::MAX {
        after == model_put(before, max, max_age, key, value, now)
    } else {
        after == before
    }
}

/// Seconds as nanoseconds (`Duration::from_secs(secs).as_nanos()`).
fn secs_to_nanos(secs: u64) -> (r: u128)
    ensures
        r == secs as u128 * 1_000_000_000,
{
    assert(secs as u128 * 1_000_000_000 <= u128::MAX) by (nonlinear_arith)
        requires
            secs <= u64::MAX,
    ;
    (secs as u128) * 1_000_000_000
}

} // verus!
