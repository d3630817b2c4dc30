//! A ring buffer whose slots may be emptied anywhere; a bitmap records which
//! slots hold a value. The occupied span runs from `offset` for `len` slots,
//! wrapping round the end of the buffer.
use vstd::prelude::*;

verus! {

use crate::bitmap::{Bitmap, ring_bit, padded_len};

// ---------------------------------------------------------------------------
// The values of a sequence of optional slots, in order, skipping empty slots.

/// The values held in `s`, in order, skipping the empty slots.
pub open spec fn live_of<T>(s: Seq<Option<T>>) -> Seq<T>
    decreases s.len(),
{
    if s.len() == 0 {
        Seq::empty()
    } else {
        let rest = live_of(s.drop_last());
        match s.last() {
            Some(x) => rest.push(x),
            None => rest,
        }
    }
}

proof fn lemma_live_concat<T>(a: Seq<Option<T>>, b: Seq<Option<T>>)
    ensures
        live_of(a + b) == live_of(a) + live_of(b),
    decreases b.len(),
{
    if b.len() == 0 {
        assert(a + b =~= a);
        assert(live_of(a) + live_of(b) =~= live_of(a));
    } else {
        assert((a + b).drop_last() =~= a + b.drop_last());
        lemma_live_concat(a, b.drop_last());
        match b.last() {
            Some(x) => {
                assert(live_of(a) + live_of(b) =~= (live_of(a) + live_of(b.drop_last())).push(x));
            },
            None => {},
        }
    }
}

proof fn lemma_live_len<T>(s: Seq<Option<T>>)
    ensures
        live_of(s).len() <= s.len(),
    decreases s.len(),
{
    if s.len() > 0 {
        lemma_live_len(s.drop_last());
    }
}

proof fn lemma_live_none<T>(s: Seq<Option<T>>)
    requires
        forall|k: int| 0 <= k < s.len() ==> s[k] is None,
    ensures
        live_of(s) == Seq::<T>::empty(),
    decreases s.len(),
{
    if s.len() > 0 {
        lemma_live_none(s.drop_last());
    }
}

proof fn lemma_live_some<T>(v: Seq<T>)
    ensures
        live_of(Seq::new(v.len(), |k: int| Some(v[k]))) == v,
    decreases v.len(),
{
    let s = Seq::new(v.len(), |k: int| Some(v[k]));
    if v.len() > 0 {
        lemma_live_some(v.drop_last());
        assert(s.drop_last() =~= Seq::new(v.drop_last().len(), |k: int| Some(v.drop_last()[k])));
        assert(live_of(s) =~= v);
    } else {
        assert(live_of(s) =~= v);
    }
}

proof fn lemma_live_take_step<T>(s: Seq<Option<T>>, k: int)
    requires
        0 <= k < s.len(),
    ensures
        live_of(s.take(k + 1)) == (match s[k] {
            Some(x) => live_of(s.take(k)).push(x),
            None => live_of(s.take(k)),
        }),
{
    assert(s.take(k + 1).drop_last() =~= s.take(k));
}

/// Splits `s` round slot `k`: the values before it, its own, and those after it.
proof fn lemma_live_split<T>(s: Seq<Option<T>>, k: int)
    requires
        0 <= k < s.len(),
    ensures
        live_of(s) == live_of(s.take(k)) + (match s[k] {
            Some(x) => seq![x],
            None => Seq::empty(),
        }) + live_of(s.skip(k + 1)),
{
    assert(s =~= s.take(k + 1) + s.skip(k + 1));
    lemma_live_concat(s.take(k + 1), s.skip(k + 1));
    lemma_live_take_step(s, k);
    match s[k] {
        Some(x) => {
            assert(live_of(s.take(k)).push(x) =~= live_of(s.take(k)) + seq![x]);
        },
        None => {
            assert(live_of(s.take(k)) =~= live_of(s.take(k)) + Seq::<T>::empty());
        },
    }
}

/// The value of a full slot stands in the values at the count of the values before it.
proof fn lemma_live_index<T>(s: Seq<Option<T>>, k: int)
    requires
        0 <= k < s.len(),
        s[k] is Some,
    ensures
        live_of(s.take(k)).len() < live_of(s).len(),
        live_of(s)[live_of(s.take(k)).len() as int] == s[k]->0,
{
    lemma_live_split(s, k);
}

/// Emptying a full slot removes its value from the values.
proof fn lemma_live_clear<T>(s: Seq<Option<T>>, k: int, q: int)
    requires
        0 <= k < s.len(),
        s[k] is Some,
        0 <= q < s.len(),
    ensures
        live_of(s.update(k, None)) == live_of(s).remove(live_of(s.take(k)).len() as int),
        q != k ==> live_of(s.update(k, None).take(q)).len() == (if q > k {
            live_of(s.take(q)).len() - 1
        } else {
            live_of(s.take(q)).len() as int
        }),
{
    let t = s.update(k, None);
    lemma_live_split(s, k);
    lemma_live_split(t, k);
    assert(t.take(k) =~= s.take(k));
    assert(t.skip(k + 1) =~= s.skip(k + 1));
    let j = live_of(s.take(k)).len() as int;
    assert(live_of(t) =~= live_of(s).remove(j));
    if q > k {
        lemma_live_split(s.take(q), k);
        lemma_live_split(t.take(q), k);
        assert(s.take(q).take(k) =~= s.take(k));
        assert(t.take(q).take(k) =~= s.take(k));
        assert(t.take(q).skip(k + 1) =~= s.take(q).skip(k + 1));
    } else if q < k {
        assert(t.take(q) =~= s.take(q));
    }
}

/// Dropping leading empty slots keeps the values.
proof fn lemma_live_drop_empty<T>(s: Seq<Option<T>>, z: int, q: int)
    requires
        0 <= z <= q <= s.len(),
        forall|k: int| 0 <= k < z ==> s[k] is None,
    ensures
        live_of(s.skip(z)) == live_of(s),
        live_of(s.skip(z).take(q - z)) == live_of(s.take(q)),
{
    assert(s =~= s.take(z) + s.skip(z));
    lemma_live_concat(s.take(z), s.skip(z));
    lemma_live_none(s.take(z));
    assert(live_of(s) =~= live_of(s.skip(z)));
    assert(s.take(q) =~= s.take(z) + s.skip(z).take(q - z));
    lemma_live_concat(s.take(z), s.skip(z).take(q - z));
    assert(live_of(s.take(q)) =~= live_of(s.skip(z).take(q - z)));
}

/// Trailing empty slots add no value.
proof fn lemma_live_trailing_empty<T>(s: Seq<Option<T>>, n: int)
    requires
        0 <= n <= s.len(),
        forall|k: int| n <= k < s.len() ==> s[k] is None,
    ensures
        live_of(s) == live_of(s.take(n)),
{
    assert(s =~= s.take(n) + s.skip(n));
    lemma_live_concat(s.take(n), s.skip(n));
    lemma_live_none(s.skip(n));
    assert(live_of(s) =~= live_of(s.take(n)));
}

/// Rotates `v` left by `mid`: the first `mid` elements move to the end.
#[verifier::external_body]
fn rotate_left<T>(v: &mut Vec<T>, mid: usize)
    requires
        mid <= old(v)@.len(),
    ensures
        final(v)@ == old(v)@.subrange(mid as int, old(v)@.len() as int) + old(v)@.subrange(
            0,
            mid as int,
        ),
{
    v.rotate_left(mid);
}

/// A ring of slots; `Some` entries of the buffer are meaningful only where the
/// bitmap is set.
pub struct SparseRing<T> {
    buffer: Vec<Option<T>>,
    bitmap: Bitmap,
    offset: usize,
    len: usize,
    capacity: usize,
}

impl<T: Copy> SparseRing<T> {
    /// Number of slots.
    pub closed spec fn cap(&self) -> nat {
        self.capacity as nat
    }

    /// Number of slots from the front of the span to its end, empty ones included.
    pub closed spec fn span_len(&self) -> nat {
        self.len as nat
    }

    /// The slot at the front of the span.
    pub closed spec fn front(&self) -> int {
        self.offset as int
    }

    /// What physical slot `i` holds.
    pub closed spec fn slot(&self, i: int) -> Option<T> {
        if self.bitmap@[i] {
            self.buffer@[i]
        } else {
            None
        }
    }

    /// The physical slot `k` places after the front.
    pub closed spec fn phys(&self, k: int) -> int {
        if k + self.offset < self.capacity {
            k + self.offset
        } else {
            k + self.offset - self.capacity
        }
    }

    /// How many places after the front physical slot `i` stands.
    pub closed spec fn rank(&self, i: int) -> int {
        if i >= self.offset {
            i - self.offset
        } else {
            i + self.capacity - self.offset
        }
    }

    /// The slots of the span, front first.
    pub closed spec fn span(&self) -> Seq<Option<T>> {
        Seq::new(self.len as nat, |k: int| self.slot(self.phys(k)))
    }

    /// The values held, front (oldest) first.
    pub closed spec fn live(&self) -> Seq<T> {
        live_of(self.span())
    }

    /// Where the value of physical slot `i` stands in `live()`.
    pub closed spec fn pos(&self, i: int) -> int {
        live_of(self.span().take(self.rank(i))).len() as int
    }

    /// The representation's shape: sizes agree, and every set bit has a value.
    pub closed spec fn raw_ok(&self) -> bool {
        &&& self.bitmap.wf()
        &&& self.bitmap@.len() == self.capacity
        &&& self.buffer@.len() == self.capacity
        &&& self.capacity % 64 == 0
        &&& self.capacity <= isize::MAX
        &&& self.len <= self.capacity
        &&& (self.capacity > 0 ==> self.offset < self.capacity)
        &&& (self.capacity == 0 ==> self.offset == 0)
        &&& forall|i: int| 0 <= i < self.capacity && #[trigger] self.bitmap@[i] ==> self.buffer@[i] is Some
    }

    /// No value outside the span, and a value at the front of a span that is not empty.
    pub closed spec fn span_ok(&self) -> bool {
        &&& forall|i: int|
            0 <= i < self.capacity && (#[trigger] self.slot(i)) is Some ==> self.rank(i) < self.len
        &&& (self.len > 0 ==> self.slot(self.offset as int) is Some)
    }

    pub open spec fn wf(&self) -> bool {
        self.raw_ok() && self.span_ok()
    }

    /// The physical slot `d` places after slot `front`.
    pub open spec fn ring_at(&self, front: int, d: int) -> int {
        (front + d) % (self.cap() as int)
    }

    /// Where the front stands after the slot at the front `old_front` of a span of
    /// `old_len` slots was emptied: `z` places on, at the next full slot, with the span
    /// `z` slots shorter; or, when no slot of the span is full any more, at 0 with an
    /// empty span and an empty ring.
    pub open spec fn front_moved_on(&self, old_front: int, old_len: int) -> bool {
        ||| exists|z: int|
            #![trigger self.ring_at(old_front, z)]
            0 < z < old_len && self.front() == self.ring_at(old_front, z) && self.span_len()
                == old_len - z && self.slot(self.front()) is Some && forall|d: int|
                0 <= d < z ==> (#[trigger] self.slot(self.ring_at(old_front, d))) is None
        ||| self.front() == 0 && self.span_len() == 0 && forall|q: int|
            0 <= q < self.cap() ==> (#[trigger] self.slot(q)) is None
    }

    proof fn lemma_phys_mod(&self, k: int)
        requires
            self.raw_ok(),
            self.capacity > 0,
            0 <= k < self.capacity,
        ensures
            self.phys(k) == (self.offset + k) % (self.capacity as int),
    {
        if self.offset + k >= self.capacity {
            vstd::arithmetic::div_mod::lemma_fundamental_div_mod_converse(
                self.offset + k,
                self.capacity as int,
                1,
                self.offset + k - self.capacity,
            );
        } else {
            vstd::arithmetic::div_mod::lemma_small_mod(
                (self.offset + k) as nat,
                self.capacity as nat,
            );
        }
    }

    proof fn lemma_phys_rank(&self, i: int, k: int)
        requires
            self.raw_ok(),
            self.capacity > 0,
        ensures
            0 <= i < self.capacity ==> 0 <= self.rank(i) < self.capacity && self.phys(self.rank(i))
                == i,
            0 <= k < self.capacity ==> 0 <= self.phys(k) < self.capacity && self.rank(self.phys(k))
                == k,
    {
    }

    /// Basic facts of a consistent ring: the span fits in the ring, the front is
    /// a slot, a non-empty span starts with a value, and there are no more
    /// values than slots of the span.
    pub proof fn lemma_wf_facts(&self)
        requires
            self.wf(),
        ensures
            self.span_len() <= self.cap(),
            self.cap() > 0 ==> 0 <= self.front() < self.cap(),
            self.span_len() > 0 ==> self.cap() > 0 && self.slot(self.front()) is Some,
            self.live().len() <= self.span_len(),
    {
        lemma_live_len(self.span());
    }

    /// A full slot's value is the value at its place in `live()`.
    pub proof fn lemma_slot_live(&self, i: int)
        requires
            self.wf(),
            0 <= i < self.cap(),
            self.slot(i) is Some,
        ensures
            0 <= self.pos(i) < self.live().len(),
            self.live()[self.pos(i)] == self.slot(i)->0,
    {
        self.lemma_phys_rank(i, 0);
        let k = self.rank(i);
        assert(self.span()[k] == self.slot(i));
        lemma_live_index(self.span(), k);
    }

    /// Creates a ring of at least `capacity` slots, rounded up to whole bitmap pages.
    pub fn new(capacity: usize) -> (r: Self)
        requires
            capacity <= isize::MAX - 63,
        ensures
            r.wf(),
            r.cap() == padded_len(capacity as nat),
            r.cap() >= capacity,
            r.span_len() == 0,
            r.front() == 0,
            r.live() == Seq::<T>::empty(),
    {
        let tot = (capacity + 63) / 64 * 64;
        let mut buffer: Vec<Option<T>> = Vec::new();
        while buffer.len() < tot
            invariant
                buffer.len() <= tot,
            decreases tot - buffer.len(),
        {
            buffer.push(None);
        }
        let r = SparseRing { buffer, bitmap: Bitmap::new(tot), offset: 0, len: 0, capacity: tot };
        assert forall|i: int| 0 <= i < r.capacity && (#[trigger] r.slot(i)) is Some implies r.rank(
            i,
        ) < r.len by {
            assert(!r.bitmap@[i]);
        }
        assert(r.live() =~= Seq::<T>::empty());
        r
    }

    /// Appends `val` after the end of the span; `None` when the span fills the ring.
    pub fn push_back(&mut self, val: T) -> (r: Option<usize>)
        requires
            old(self).wf(),
        ensures
            final(self).wf(),
            final(self).cap() == old(self).cap(),
            r is None <==> old(self).span_len() == old(self).cap(),
            r is None ==> *final(self) == *old(self),
            r matches Some(i) ==> {
                &&& i < old(self).cap()
                &&& i == old(self).ring_at(old(self).front(), old(self).span_len() as int)
                &&& final(self).front() == old(self).front()
                &&& old(self).slot(i as int) is None
                &&& final(self).slot(i as int) == Some(val)
                &&& final(self).span_len() == old(self).span_len() + 1
                &&& final(self).live() == old(self).live().push(val)
                &&& final(self).pos(i as int) == old(self).live().len()
                &&& forall|q: int|
                    0 <= q < old(self).cap() && q != i ==> #[trigger] final(self).slot(q) == old(self).slot(q) && (old(self).slot(q) is Some ==> final(self).pos(q) == old(self).pos(q))
            },
    {
        if self.len >= self.buffer.len() {
            return None;
        }
        let i = self.physical_index(self.len);
        let ghost pre = *self;
        proof {
            pre.lemma_phys_mod(pre.len as int);
            pre.lemma_phys_rank(i as int, pre.len as int);
            if pre.slot(i as int) is Some {
                assert(pre.rank(i as int) < pre.len);
            }
        }
        self.set(i, val);
        self.len = self.len + 1;
        proof {
            let new = *self;
            assert(new.slot(i as int) == Some(val));
            assert forall|q: int| 0 <= q < new.capacity && q != i implies #[trigger] new.slot(q)
                == pre.slot(q) by {}
            assert forall|q: int|
                0 <= q < new.capacity && (#[trigger] new.slot(q)) is Some implies new.rank(q)
                < new.len by {
                if q != i {
                    assert(pre.slot(q) is Some);
                }
            }
            if pre.len > 0 {
                assert(new.slot(new.offset as int) == pre.slot(pre.offset as int));
            }
            assert(new.span() =~= pre.span().push(Some(val)));
            assert(new.span().drop_last() =~= pre.span());
            assert(new.span().take(pre.len as int) =~= pre.span());
            assert forall|q: int|
                0 <= q < pre.capacity && q != i && pre.slot(q) is Some implies new.pos(q)
                == pre.pos(q) by {
                pre.lemma_phys_rank(q, 0);
                assert(new.span().take(pre.rank(q)) =~= pre.span().take(pre.rank(q)));
            }
        }
        Some(i)
    }

    /// Removes the value at the front of the span, if any.
    pub fn pop_front(&mut self) -> (r: Option<T>)
        requires
            old(self).wf(),
            old(self).cap() > 0,
        ensures
            final(self).wf(),
            final(self).cap() == old(self).cap(),
            final(self).span_len() <= old(self).span_len(),
            old(self).span_len() == 0 ==> final(self).front() == 0 && final(self).span_len() == 0,
            final(self).slot(old(self).front()) is None,
            forall|q: int|
                0 <= q < old(self).cap() && q != old(self).front() ==> #[trigger] final(self).slot(q)
                    == old(self).slot(q),
            old(self).span_len() > 0 ==> final(self).front_moved_on(
                old(self).front(),
                old(self).span_len() as int,
            ),
            old(self).live().len() == 0 ==> r is None && final(self).live() == old(self).live(),
            old(self).live().len() > 0 ==> {
                &&& r == Some(old(self).live()[0])
                &&& final(self).live() == old(self).live().remove(0)
                &&& old(self).slot(old(self).front()) == r
                &&& forall|q: int|
                    0 <= q < old(self).cap() && q != old(self).front() && old(self).slot(q) is Some
                        ==> #[trigger] final(self).slot(q) == old(self).slot(q) && final(self).pos(q)
                        == old(self).pos(q) - 1
            },
    {
        proof {
            if self.live().len() > 0 {
                if self.len == 0 {
                    assert(self.span() =~= Seq::<Option<T>>::empty());
                }
                assert(self.slot(self.offset as int) is Some);
                assert(self.pos(self.offset as int) == 0) by {
                    assert(self.rank(self.offset as int) == 0);
                    assert(self.span().take(0) =~= Seq::<Option<T>>::empty());
                }
                self.lemma_slot_live(self.offset as int);
            } else if self.len > 0 {
                self.lemma_slot_live(self.offset as int);
            }
        }
        let ghost pre = *self;
        let r = self.remove(self.offset);
        proof {
            if pre.live().len() > 0 {
                assert forall|q: int|
                    0 <= q < pre.cap() && q != pre.front() && pre.slot(q) is Some implies self.pos(q) == pre.pos(q) - 1 by {
                    pre.lemma_slot_live(q);
                    if pre.pos(q) == 0 {
                        pre.lemma_phys_rank(q, 0);
                        assert(pre.span().take(pre.rank(q)).take(0) =~= pre.span().take(0));
                        lemma_live_split(pre.span(), 0);
                        assert(pre.rank(q) > 0);
                        lemma_live_split(pre.span().take(pre.rank(q)), 0);
                        assert(pre.span().take(pre.rank(q))[0] == pre.span()[0]);
                    }
                }
            }
        }
        r
    }

    /// Empties physical slot `idx` and returns what it held.
    pub fn remove(&mut self, idx: usize) -> (r: Option<T>)
        requires
            old(self).wf(),
            idx < old(self).cap(),
        ensures
            final(self).wf(),
            final(self).cap() == old(self).cap(),
            final(self).span_len() <= old(self).span_len(),
            r == old(self).slot(idx as int),
            final(self).slot(idx as int) is None,
            old(self).span_len() > 0 && idx != old(self).front() ==> final(self).front() == old(
                self,
            ).front() && final(self).span_len() == old(self).span_len(),
            old(self).span_len() == 0 ==> final(self).front() == 0 && final(self).span_len() == 0,
            old(self).span_len() > 0 && idx == old(self).front() ==> final(self).front_moved_on(
                old(self).front(),
                old(self).span_len() as int,
            ),
            forall|q: int|
                0 <= q < old(self).cap() && q != idx ==> #[trigger] final(self).slot(q) == old(self).slot(q),
            r is Some ==> final(self).live() == old(self).live().remove(old(self).pos(idx as int)),
            r is Some ==> forall|q: int|
                0 <= q < old(self).cap() && q != idx && old(self).slot(q) is Some
                    ==> #[trigger] final(self).pos(q) == (if old(self).pos(q) > old(self).pos(
                    idx as int,
                ) {
                    old(self).pos(q) - 1
                } else {
                    old(self).pos(q)
                }),
            r is None ==> final(self).live() == old(self).live(),
            r is None ==> forall|q: int|
                0 <= q < old(self).cap() && old(self).slot(q) is Some ==> #[trigger] final(self).pos(q) == old(self).pos(q),
    {
        let ghost pre = *self;
        let removed_item = self.get(idx);
        self.bitmap.set(idx, false);
        let ghost mid = *self;
        proof {
            pre.lemma_phys_rank(idx as int, 0);
            let k = pre.rank(idx as int);
            assert forall|q: int| 0 <= q < mid.capacity && q != idx implies #[trigger] mid.slot(q)
                == pre.slot(q) by {}
            assert(mid.slot(idx as int) is None);
            if removed_item is Some {
                assert(k < pre.len);
                assert(mid.span() =~= pre.span().update(k, None));
                lemma_live_clear(pre.span(), k, 0);
                assert forall|q: int|
                    0 <= q < pre.capacity && q != idx && pre.slot(q) is Some implies #[trigger] mid.pos(
                    q,
                ) == (if pre.pos(q) > pre.pos(idx as int) {
                    pre.pos(q) - 1
                } else {
                    pre.pos(q)
                }) by {
                    pre.lemma_phys_rank(q, 0);
                    let kq = pre.rank(q);
                    assert(kq < pre.len);
                    lemma_live_clear(pre.span(), k, kq);
                    if kq > k {
                        assert(pre.span().take(kq).take(k) =~= pre.span().take(k));
                        lemma_live_split(pre.span().take(kq), k);
                        assert(pre.pos(q) > pre.pos(idx as int));
                    } else {
                        assert(kq < k);
                        assert(pre.span().take(k).take(kq) =~= pre.span().take(kq));
                        lemma_live_split(pre.span().take(k), kq);
                        assert(pre.pos(q) < pre.pos(idx as int));
                    }
                }
            } else {
                assert(mid.span() =~= pre.span());
            }
        }
        self.advance();
        removed_item
    }

    /// Whether the span fills the whole ring.
    pub fn is_full(&self) -> (r: bool)
        ensures
            r == (self.span_len() == self.cap()),
    {
        self.len == self.capacity
    }

    /// Number of slots in the span, empty ones included.
    pub fn len(&self) -> (r: usize)
        ensures
            r == self.span_len(),
    {
        self.len
    }

    fn set(&mut self, idx: usize, val: T)
        requires
            old(self).raw_ok(),
            idx < old(self).capacity,
        ensures
            final(self).raw_ok(),
            final(self).bitmap@ == old(self).bitmap@.update(idx as int, true),
            final(self).buffer@ == old(self).buffer@.update(idx as int, Some(val)),
            final(self).offset == old(self).offset,
            final(self).len == old(self).len,
            final(self).capacity == old(self).capacity,
    {
        self.bitmap.set(idx, true);
        self.buffer.set(idx, Some(val));
    }

    /// What physical slot `idx` holds.
    pub fn get(&self, idx: usize) -> (r: Option<T>)
        requires
            self.raw_ok(),
            idx < self.cap(),
        ensures
            r == self.slot(idx as int),
    {
        if self.bitmap.get(idx) {
            self.buffer[idx]
        } else {
            None
        }
    }

    /// Moves the front past empty slots; empties the span when no slot is full.
    fn advance(&mut self)
        requires
            old(self).raw_ok(),
            old(self).capacity > 0,
            forall|i: int|
                0 <= i < old(self).capacity && (#[trigger] old(self).slot(i)) is Some ==> old(self).rank(i) < old(self).len,
        ensures
            final(self).wf(),
            final(self).capacity == old(self).capacity,
            final(self).len <= old(self).len,
            final(self).live() == old(self).live(),
            forall|q: int| 0 <= q < old(self).capacity ==> #[trigger] final(self).slot(q) == old(self).slot(q),
            forall|q: int|
                0 <= q < old(self).capacity && old(self).slot(q) is Some ==> #[trigger] final(self).pos(q) == old(self).pos(q),
            old(self).slot(old(self).offset as int) is Some ==> final(self).offset == old(self).offset
                && final(self).len == old(self).len,
            old(self).slot(old(self).offset as int) is None ==> final(self).front_moved_on(
                old(self).offset as int,
                old(self).len as int,
            ),
    {
        if self.bitmap.get(self.offset) {
            proof {
                assert(self.len > 0) by {
                    assert(self.slot(self.offset as int) is Some);
                }
            }
            return;
        }
        let ghost pre = *self;
        let zeros = self.bitmap.zero_run(self.offset);
        proof {
            assert(padded_len(pre.capacity as nat) == pre.capacity) by {
                assert(((pre.capacity + 63) / 64) * 64 == pre.capacity);
            }
            assert forall|d: int| 0 <= d < zeros && d < pre.len implies #[trigger] pre.span()[d] is None by {
                assert(!ring_bit(pre.bitmap@, pre.offset as int, d));
                pre.lemma_phys_mod(d);
                pre.lemma_phys_rank(0, d);
            }
        }
        if zeros != self.capacity {
            proof {
                let p = pre.phys(zeros as int);
                pre.lemma_phys_mod(zeros as int);
                assert(ring_bit(pre.bitmap@, pre.offset as int, zeros as int));
                assert(pre.bitmap@[p]);
                pre.lemma_phys_rank(0, zeros as int);
                assert(pre.slot(p) is Some);
                assert(zeros < pre.len);
            }
            self.offset = (self.offset + zeros) % self.buffer.len();
            self.len = self.len - zeros;
            proof {
                let new = *self;
                let z = zeros as int;
                pre.lemma_phys_mod(z);
                assert(new.offset == pre.phys(z));
                assert forall|k: int| 0 <= k < new.len implies new.phys(k) == pre.phys(k + z) by {}
                assert(new.span() =~= pre.span().skip(z));
                assert forall|k: int| 0 <= k < z implies pre.span()[k] is None by {
                    assert(pre.span()[k] is None);
                }
                lemma_live_drop_empty(pre.span(), z, z);
                assert(new.slot(new.offset as int) == pre.slot(pre.phys(z)));
                assert forall|i: int|
                    0 <= i < new.capacity && (#[trigger] new.slot(i)) is Some implies new.rank(i)
                    < new.len by {
                    assert(pre.slot(i) is Some);
                    pre.lemma_phys_rank(i, 0);
                    let k = pre.rank(i);
                    if k < z {
                        assert(pre.span()[k] is None);
                        assert(false);
                    }
                    assert(new.rank(i) == k - z);
                }
                assert forall|q: int| 0 <= q < pre.capacity && pre.slot(q) is Some implies #[trigger] new.pos(
                    q,
                ) == pre.pos(q) by {
                    pre.lemma_phys_rank(q, 0);
                    let k = pre.rank(q);
                    if k < z {
                        assert(pre.span()[k] is None);
                        assert(false);
                    }
                    assert(new.rank(q) == k - z);
                    lemma_live_drop_empty(pre.span(), z, k);
                }
                assert(new.front() == new.ring_at(pre.offset as int, z));
                assert forall|d: int| 0 <= d < z implies (#[trigger] new.slot(
                    new.ring_at(pre.offset as int, d),
                )) is None by {
                    pre.lemma_phys_mod(d);
                    pre.lemma_phys_rank(0, d);
                    assert(!ring_bit(pre.bitmap@, pre.offset as int, d));
                    assert(new.slot(pre.phys(d)) == pre.slot(pre.phys(d)));
                }
                assert(new.front_moved_on(pre.offset as int, pre.len as int));
            }
        } else {
            self.offset = 0;
            self.len = 0;
            proof {
                let new = *self;
                assert forall|i: int| 0 <= i < pre.capacity implies #[trigger] pre.slot(i) is None by {
                    if pre.slot(i) is Some {
                        pre.lemma_phys_rank(i, 0);
                        let k = pre.rank(i);
                        assert(k < pre.len);
                        assert(pre.span()[k] is None);
                    }
                }
                assert forall|k: int| 0 <= k < pre.len implies pre.span()[k] is None by {
                    pre.lemma_phys_rank(0, k);
                }
                lemma_live_none(pre.span());
                assert forall|i: int| 0 <= i < new.capacity implies #[trigger] new.slot(i) is None by {
                    assert(pre.slot(i) is None);
                }
                assert(new.span() =~= Seq::<Option<T>>::empty());
                assert(new.live() =~= pre.live());
            }
        }
    }

    /// Moves every value to the start of the buffer, front first, and makes the
    /// span exactly the values.
    #[verifier::rlimit(40)]
    pub fn compact(&mut self)
        requires
            old(self).wf(),
            old(self).live().len() > 0,
        ensures
            final(self).wf(),
            final(self).cap() == old(self).cap(),
            final(self).live() == old(self).live(),
            final(self).span_len() == old(self).live().len(),
            final(self).front() == 0,
            forall|k: int|
                final(self).span_len() <= k < final(self).cap() ==> (#[trigger] final(self).slot(k)) is None,
            forall|k: int|
                0 <= k < final(self).span_len() ==> #[trigger] final(self).slot(k) == Some(
                    old(self).live()[k],
                ) && final(self).pos(k) == k,
    {
        let ghost pre = *self;
        let ghost lv = pre.live();
        let ghost rs = Seq::new(pre.capacity as nat, |k: int| pre.slot(pre.phys(k)));
        proof {
            if pre.capacity == 0 {
                assert(pre.span() =~= Seq::<Option<T>>::empty());
            }
            assert(rs.take(pre.len as int) =~= pre.span());
            assert forall|k: int| pre.len <= k < rs.len() implies rs[k] is None by {
                pre.lemma_phys_rank(0, k);
            }
            lemma_live_trailing_empty(rs, pre.len as int);
        }
        let mut write: usize = 0;
        let mut read: usize = 0;
        while read < self.capacity
            invariant
                self.raw_ok(),
                self.offset == pre.offset,
                self.len == pre.len,
                self.capacity == pre.capacity,
                pre.capacity > 0,
                pre.raw_ok(),
                rs == Seq::new(pre.capacity as nat, |k: int| pre.slot(pre.phys(k))),
                live_of(rs) == lv,
                write <= read <= self.capacity,
                write == live_of(rs.take(read as int)).len(),
                forall|k: int|
                    #![trigger pre.phys(k)]
                    0 <= k < write ==> self.bitmap@[pre.phys(k)] && self.buffer@[pre.phys(
                        k,
                    )] == Some(lv[k]),
                forall|k: int|
                    #![trigger pre.phys(k)]
                    read <= k < self.capacity ==> self.bitmap@[pre.phys(k)]
                        == pre.bitmap@[pre.phys(k)] && self.buffer@[pre.phys(k)] == pre.buffer@[pre.phys(
                        k,
                    )],
            decreases self.capacity - read,
        {
            let physical_read = self.physical_index(read);
            proof {
                pre.lemma_phys_rank(0, read as int);
                lemma_live_take_step(rs, read as int);
                assert(rs.take(read as int + 1) =~= rs.take(read as int + 1));
                assert(rs =~= rs.take(read as int + 1) + rs.skip(read as int + 1));
                lemma_live_concat(rs.take(read as int + 1), rs.skip(read as int + 1));
            }
            let got = self.get(physical_read);
            if let Some(val) = got {
                let physical_write = self.physical_index(write);
                let ghost before = *self;
                proof {
                    pre.lemma_phys_rank(0, write as int);
                    assert(rs[read as int] == Some(val));
                    assert(live_of(rs.take(read as int + 1)) == live_of(rs.take(read as int)).push(
                        val,
                    ));
                    assert(lv[write as int] == val);
                }
                self.set(physical_write, val);
                write = write + 1;
                proof {
                    assert forall|k: int| #![trigger pre.phys(k)] 0 <= k < write implies self.bitmap@[pre.phys(k)]
                        && self.buffer@[pre.phys(k)] == Some(lv[k]) by {
                        pre.lemma_phys_rank(0, k);
                        if k < write - 1 {
                            assert(pre.phys(k) != physical_write);
                            assert(before.bitmap@[pre.phys(k)]);
                            assert(before.buffer@[pre.phys(k)] == Some(lv[k]));
                        }
                    }
                    assert forall|k: int| #![trigger pre.phys(k)] read + 1 <= k < self.capacity implies self.bitmap@[pre.phys(
                        k,
                    )] == pre.bitmap@[pre.phys(k)] && self.buffer@[pre.phys(k)]
                        == pre.buffer@[pre.phys(k)] by {
                        pre.lemma_phys_rank(0, k);
                        assert(pre.phys(k) != physical_write);
                        assert(before.bitmap@[pre.phys(k)] == pre.bitmap@[pre.phys(k)]);
                        assert(before.buffer@[pre.phys(k)] == pre.buffer@[pre.phys(k)]);
                    }
                }
            } else {
                proof {
                    assert(rs[read as int] is None);
                    assert forall|k: int| #![trigger pre.phys(k)] read + 1 <= k < self.capacity implies self.bitmap@[pre.phys(
                        k,
                    )] == pre.bitmap@[pre.phys(k)] && self.buffer@[pre.phys(k)]
                        == pre.buffer@[pre.phys(k)] by {
                        assert(read <= k);
                    }
                }
            }
            proof {
                assert(forall|k: int|
                    read + 1 <= k < self.capacity ==> #[trigger] self.bitmap@[pre.phys(k)]
                        == pre.bitmap@[pre.phys(k)] && self.buffer@[pre.phys(k)] == pre.buffer@[pre.phys(k)]);
            }
            let ghost s1 = *self;
            let ghost r1 = read;
            read = read + 1;
            proof {
                assert(*self == s1);
                assert(read == r1 + 1);
                assert(forall|k: int|
                    #![trigger pre.phys(k)]
                    read <= k < self.capacity ==> self.bitmap@[pre.phys(k)]
                        == pre.bitmap@[pre.phys(k)] && self.buffer@[pre.phys(k)] == pre.buffer@[pre.phys(k)]);
                assert(write == live_of(rs.take(read as int)).len());
                assert(self.raw_ok());
            }
        }
        proof {
            assert(rs.take(read as int) =~= rs);
        }
        let ghost before_rotate = self.buffer@;
        let ghost after_loop = *self;
        rotate_left(&mut self.buffer, self.offset);
        proof {
            assert forall|k: int| 0 <= k < pre.capacity implies self.buffer@[k]
                == before_rotate[pre.phys(k)] by {}
        }
        self.offset = 0;
        self.len = write;
        self.bitmap.refill(write);
        proof {
            let new = *self;
            assert forall|k: int| 0 <= k < write implies #[trigger] new.slot(k) == Some(lv[k]) by {
                pre.lemma_phys_rank(0, k);
                assert(after_loop.bitmap@[pre.phys(k)]);
                assert(new.bitmap@[k]);
                assert(new.buffer@[k] == before_rotate[pre.phys(k)]);
            }
            assert forall|i: int| 0 <= i < new.capacity && #[trigger] new.bitmap@[i] implies new.buffer@[i] is Some by {
                assert(i < write);
                assert(new.slot(i) == Some(lv[i]));
            }
            assert forall|i: int|
                0 <= i < new.capacity && (#[trigger] new.slot(i)) is Some implies new.rank(i)
                < new.len by {}
            assert(new.span() =~= Seq::new(lv.len(), |k: int| Some(lv[k]))) by {
                assert forall|k: int| 0 <= k < lv.len() implies new.span()[k] == Some(lv[k]) by {
                    assert(new.phys(k) == k);
                }
            }
            lemma_live_some(lv);
            assert forall|k: int| 0 <= k < new.len implies #[trigger] new.slot(k) == Some(lv[k])
                && new.pos(k) == k by {
                let sp = Seq::new(lv.len(), |k: int| Some(lv[k]));
                assert(new.rank(k) == k);
                assert(sp.take(k) =~= Seq::new(lv.take(k).len(), |m: int| Some(lv.take(k)[m])));
                lemma_live_some(lv.take(k));
            }
        }
    }

    /// The physical slot `idx` places after the front.
    fn physical_index(&self, idx: usize) -> (r: usize)
        requires
            self.raw_ok(),
            self.capacity > 0,
            idx < self.capacity,
        ensures
            r == self.phys(idx as int),
    {
        proof {
            if idx + self.offset >= self.capacity {
                vstd::arithmetic::div_mod::lemma_fundamental_div_mod_converse(
                    idx + self.offset,
                    self.capacity as int,
                    1,
                    idx + self.offset - self.capacity,
                );
            } else {
                vstd::arithmetic::div_mod::lemma_small_mod(
                    (idx + self.offset) as nat,
                    self.capacity as nat,
                );
            }
        }
        (idx + self.offset) % self.capacity
    }
}

} // verus!
