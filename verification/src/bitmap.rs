//! A fixed-capacity bitmap stored in pages of 64 bits.
use vstd::prelude::*;

verus! {

use vstd::std_specs::bits::{u64_trailing_zeros, axiom_u64_trailing_zeros};

/// Number of bits held by one page.
pub const PAGE_SIZE: usize = 64;

/// Whether bit `b` (counted from the lowest) of `page` is set.
pub open spec fn bit_in_page(page: u64, b: int) -> bool {
    (page >> (b as u64)) & 1u64 == 1u64
}

/// Bit `j` of the bit string formed by `pages`: page 0 first, lowest bit first.
pub open spec fn flat_bit(pages: Seq<u64>, j: int) -> bool {
    bit_in_page(pages[j / 64], j % 64)
}

/// The number of bits in the pages that hold `n` bits: `n` rounded up to whole pages.
pub open spec fn padded_len(n: nat) -> nat {
    ((n + 63) / 64) * 64
}

/// Bit `j` of `bits` padded with zeros on the right.
pub open spec fn padded_bit(bits: Seq<bool>, j: int) -> bool {
    0 <= j < bits.len() && bits[j]
}

/// Bit `d` places after `start` in `bits` padded to whole pages, going round
/// from the last padded bit back to the first.
pub open spec fn ring_bit(bits: Seq<bool>, start: int, d: int) -> bool {
    padded_bit(bits, (start + d) % (padded_len(bits.len()) as int))
}

/// The first index at or after `idx`, inside the page that holds `idx`,
/// that starts a new page: `idx` rounded up to whole pages.
pub open spec fn page_end(idx: int) -> int {
    ((idx + 63) / 64) * 64
}

// ---------------------------------------------------------------------------
// Facts about single pages.

proof fn lemma_or_bit(x: u64, b: u64, c: u64)
    by (bit_vector)
    requires
        b < 64,
        c < 64,
    ensures
        ((x | (1u64 << b)) >> c) & 1u64 == (if b == c { 1u64 } else { (x >> c) & 1u64 }),
{
}

proof fn lemma_andnot_bit(x: u64, b: u64, c: u64)
    by (bit_vector)
    requires
        b < 64,
        c < 64,
    ensures
        ((x & !(1u64 << b)) >> c) & 1u64 == (if b == c { 0u64 } else { (x >> c) & 1u64 }),
{
}

proof fn lemma_test_bit(x: u64, b: u64)
    by (bit_vector)
    requires
        b < 64,
    ensures
        (x & (1u64 << b) != 0) == ((x >> b) & 1u64 == 1u64),
{
}

proof fn lemma_const_pages(c: u64)
    by (bit_vector)
    requires
        c < 64,
    ensures
        (0u64 >> c) & 1u64 == 0u64,
        (0xffff_ffff_ffff_ffffu64 >> c) & 1u64 == 1u64,
{
}

proof fn lemma_low_mask_bit(r: u64, c: u64)
    by (bit_vector)
    requires
        0 < r < 64,
        c < 64,
    ensures
        ((((1u64 << r) - 1) as u64) >> c) & 1u64 == (if c < r { 1u64 } else { 0u64 }),
{
}

proof fn lemma_shifted_bit(x: u64, b: u64, j: u64)
    by (bit_vector)
    requires
        b < 64,
        j < 64,
    ensures
        b + j < 64 ==> ((x >> b) >> j) & 1u64 == (x >> ((b + j) as u64)) & 1u64,
        b + j >= 64 ==> ((x >> b) >> j) & 1u64 == 0u64,
{
}

proof fn lemma_zero_shift(x: u64, b: u64, c: u64)
    by (bit_vector)
    requires
        b <= c < 64,
        x >> b == 0,
    ensures
        (x >> c) & 1u64 == 0u64,
{
}

/// Index arithmetic: position `c` of page `p`.
proof fn lemma_page_index(p: int, c: int)
    requires
        0 <= p,
        0 <= c < 64,
    ensures
        (64 * p + c) / 64 == p,
        (64 * p + c) % 64 == c,
{
    assert((64 * p + c) / 64 == p) by (nonlinear_arith)
        requires
            0 <= p,
            0 <= c < 64,
    ;
    assert((64 * p + c) % 64 == c) by (nonlinear_arith)
        requires
            0 <= p,
            0 <= c < 64,
    ;
}

/// Index arithmetic on a ring of `n` pages.
proof fn lemma_ring_index(a: int, n: int, c: int)
    requires
        0 <= a,
        0 < n,
        0 <= c < 64,
    ensures
        (64 * a + c) % (64 * n) == 64 * (a % n) + c,
{
    assert((64 * a + c) % (64 * n) == 64 * (a % n) + c) by (nonlinear_arith)
        requires
            0 <= a,
            0 < n,
            0 <= c < 64,
    {
        let q = a / n;
        let r = a % n;
        assert(a == q * n + r);
        assert(0 <= r < n);
        assert(64 * a + c == (64 * n) * q + (64 * r + c));
        assert(0 <= 64 * r + c < 64 * n);
        vstd::arithmetic::div_mod::lemma_fundamental_div_mod_converse(
            64 * a + c,
            64 * n,
            q,
            64 * r + c,
        );
    }
}

/// A bitmap of `capacity` bits, kept in pages of 64 bits.
pub struct Bitmap {
    pages: Vec<u64>,
    capacity: usize,
}

impl View for Bitmap {
    type V = Seq<bool>;

    closed spec fn view(&self) -> Seq<bool> {
        Seq::new(self.capacity as nat, |j: int| flat_bit(self.pages@, j))
    }
}

impl Bitmap {
    /// The bitmap's representation is consistent: it has exactly the pages
    /// its capacity needs, and no bit past the capacity is set.
    pub closed spec fn wf(&self) -> bool {
        &&& self.capacity <= usize::MAX - 127
        &&& self.pages@.len() == (self.capacity as nat + 63) / 64
        &&& forall|j: int|
            self.capacity <= j < self.pages@.len() * 64 ==> !#[trigger] flat_bit(self.pages@, j)
    }

    /// The padded bits are the flat bits of the pages.
    proof fn lemma_padded(&self, j: int)
        requires
            self.wf(),
            0 <= j < self.pages@.len() * 64,
        ensures
            padded_bit(self@, j) == flat_bit(self.pages@, j),
            padded_len(self@.len()) == self.pages@.len() * 64,
    {
        if j >= self.capacity {
            assert(!flat_bit(self.pages@, j));
        }
    }

    /// Creates a bitmap of `capacity` bits, all clear.
    pub fn new(capacity: usize) -> (b: Self)
        requires
            capacity <= usize::MAX - 127,
        ensures
            b.wf(),
            b@ == Seq::new(capacity as nat, |j: int| false),
    {
        let pages_num = (capacity + PAGE_SIZE - 1) / PAGE_SIZE;
        let mut pages: Vec<u64> = Vec::new();
        while pages.len() < pages_num
            invariant
                pages.len() <= pages_num,
                forall|i: int| 0 <= i < pages.len() ==> pages@[i] == 0u64,
            decreases pages_num - pages.len(),
        {
            pages.push(0u64);
        }
        let b = Bitmap { pages, capacity };
        assert forall|j: int| 0 <= j < b.pages@.len() * 64 implies !#[trigger] flat_bit(
            b.pages@,
            j,
        ) by {
            lemma_const_pages((j % 64) as u64);
        }
        assert(b@ =~= Seq::new(capacity as nat, |j: int| false));
        b
    }

    /// Number of bits the bitmap holds.
    pub fn capacity(&self) -> (c: usize)
        ensures
            c == self@.len(),
    {
        self.capacity
    }

    /// Clears every bit.
    pub fn clear(&mut self)
        requires
            old(self).wf(),
        ensures
            final(self).wf(),
            final(self)@ == Seq::new(old(self)@.len(), |j: int| false),
    {
        let n = self.pages.len();
        let mut i: usize = 0;
        while i < n
            invariant
                i <= n,
                n == self.pages@.len(),
                self.capacity == old(self).capacity,
                self.pages@.len() == old(self).pages@.len(),
                forall|k: int| 0 <= k < i ==> self.pages@[k] == 0u64,
            decreases n - i,
        {
            self.pages.set(i, 0u64);
            i = i + 1;
        }
        assert forall|j: int| 0 <= j < self.pages@.len() * 64 implies !#[trigger] flat_bit(
            self.pages@,
            j,
        ) by {
            lemma_const_pages((j % 64) as u64);
        }
        assert(self@ =~= Seq::new(old(self)@.len(), |j: int| false));
    }

    /// Sets the first `idx` bits and clears the rest of the page that holds bit `idx`;
    /// later pages are left as they were.
    pub fn fill(&mut self, idx: usize)
        requires
            old(self).wf(),
            1 <= idx <= old(self)@.len(),
        ensures
            final(self).wf(),
            final(self)@.len() == old(self)@.len(),
            forall|j: int|
                0 <= j < old(self)@.len() ==> #[trigger] final(self)@[j] == (if j < idx {
                    true
                } else if j < page_end(idx as int) {
                    false
                } else {
                    old(self)@[j]
                }),
    {
        let full_pages = idx / PAGE_SIZE;
        let remaining_bits = idx % PAGE_SIZE;
        let ghost old_pages = self.pages@;
        let mut i: usize = 0;
        while i < full_pages
            invariant
                i <= full_pages,
                full_pages == idx / 64,
                full_pages <= self.pages@.len(),
                self.capacity == old(self).capacity,
                self.pages@.len() == old_pages.len(),
                forall|k: int| 0 <= k < i ==> self.pages@[k] == 0xffff_ffff_ffff_ffffu64,
                forall|k: int| i <= k < self.pages@.len() ==> self.pages@[k] == old_pages[k],
            decreases full_pages - i,
        {
            self.pages.set(i, 0xffff_ffff_ffff_ffffu64);
            i = i + 1;
        }
        if remaining_bits > 0 {
            assert(1u64 << (remaining_bits as u64) >= 1) by (bit_vector)
                requires
                    remaining_bits < 64,
            ;
            self.pages.set(full_pages, ((1u64 << (remaining_bits as u64)) - 1) as u64);
        }
        let ghost new_pages = self.pages@;
        assert forall|j: int| 0 <= j < new_pages.len() * 64 implies #[trigger] flat_bit(
            new_pages,
            j,
        ) == (if j < idx {
            true
        } else if j < page_end(idx as int) {
            false
        } else {
            flat_bit(old_pages, j)
        }) by {
            let p = j / 64;
            let c = j % 64;
            lemma_page_index(p, c);
            lemma_const_pages(c as u64);
            if p < full_pages {
                assert(j < idx);
            } else if p == full_pages && remaining_bits > 0 {
                lemma_low_mask_bit(remaining_bits as u64, c as u64);
                lemma_page_index(full_pages as int, remaining_bits as int);
            } else {
                lemma_page_index(full_pages as int, remaining_bits as int);
                assert(j >= page_end(idx as int));
            }
        }
        assert forall|j: int| self.capacity <= j < self.pages@.len() * 64 implies !#[trigger] flat_bit(
            self.pages@,
            j,
        ) by {
            assert(!flat_bit(old_pages, j));
        }
        assert forall|j: int| 0 <= j < old(self)@.len() implies #[trigger] self@[j] == (if j
            < idx {
            true
        } else if j < page_end(idx as int) {
            false
        } else {
            old(self)@[j]
        }) by {
            assert(self@[j] == flat_bit(new_pages, j));
            assert(old(self)@[j] == flat_bit(old_pages, j));
        }
    }

    /// Sets exactly the first `n` bits.
    pub fn refill(&mut self, n: usize)
        requires
            old(self).wf(),
            1 <= n <= old(self)@.len(),
        ensures
            final(self).wf(),
            final(self)@ == Seq::new(old(self)@.len(), |j: int| j < n),
    {
        self.clear();
        self.fill(n);
        assert(self@ =~= Seq::new(old(self)@.len(), |j: int| j < n));
    }

    /// A bitmap of `capacity` bits whose first `idx` bits are set and the rest clear.
    pub fn filled(idx: usize, capacity: usize) -> (b: Self)
        requires
            idx <= capacity <= usize::MAX - 127,
        ensures
            b.wf(),
            b@ == Seq::new(capacity as nat, |j: int| j < idx),
    {
        let mut bitmap = Self::new(capacity);
        if idx == 0 {
            assert(bitmap@ =~= Seq::new(capacity as nat, |j: int| j < idx));
            return bitmap;
        }
        bitmap.fill(idx);
        assert(bitmap@ =~= Seq::new(capacity as nat, |j: int| j < idx));
        bitmap
    }

    /// Reads bit `idx`.
    pub fn get(&self, idx: usize) -> (r: bool)
        requires
            self.wf(),
            idx < self@.len(),
        ensures
            r == self@[idx as int],
    {
        let (page_idx, bit_idx) = Self::page_bit(idx);
        proof {
            lemma_test_bit(self.pages@[page_idx as int], bit_idx as u64);
        }
        self.pages[page_idx] & (1u64 << (bit_idx as u64)) != 0
    }

    /// Writes `value` into bit `idx`.
    pub fn set(&mut self, idx: usize, value: bool)
        requires
            old(self).wf(),
            idx < old(self)@.len(),
        ensures
            final(self).wf(),
            final(self)@ == old(self)@.update(idx as int, value),
    {
        let (page_idx, bit_idx) = Self::page_bit(idx);
        let ghost old_pages = self.pages@;
        let page = self.pages[page_idx];
        let new_page = if value {
            page | (1u64 << (bit_idx as u64))
        } else {
            page & !(1u64 << (bit_idx as u64))
        };
        self.pages.set(page_idx, new_page);
        let ghost new_pages = self.pages@;
        assert forall|j: int| 0 <= j < new_pages.len() * 64 implies #[trigger] flat_bit(
            new_pages,
            j,
        ) == (if j == idx {
            value
        } else {
            flat_bit(old_pages, j)
        }) by {
            let p = j / 64;
            let c = j % 64;
            lemma_page_index(p, c);
            lemma_page_index(page_idx as int, bit_idx as int);
            if p == page_idx {
                lemma_or_bit(page, bit_idx as u64, c as u64);
                lemma_andnot_bit(page, bit_idx as u64, c as u64);
            }
        }
        assert forall|j: int| self.capacity <= j < self.pages@.len() * 64 implies !#[trigger] flat_bit(
            self.pages@,
            j,
        ) by {
            assert(!flat_bit(old_pages, j));
        }
        assert(self@ =~= old(self)@.update(idx as int, value));
    }

    /// The page that holds bit `idx`, and the bit's place in it.
    fn page_bit(idx: usize) -> (r: (usize, usize))
        ensures
            r.0 == idx / 64,
            r.1 == idx % 64,
    {
        (idx / PAGE_SIZE, idx % PAGE_SIZE)
    }

    /// Counts the clear bits from `idx` on, going round past the last page to the
    /// first one, up to the first set bit; at most the capacity.
    pub fn zero_run(&self, idx: usize) -> (r: usize)
        requires
            self.wf(),
            idx < self@.len(),
        ensures
            r <= self@.len(),
            forall|d: int|
                0 <= d < r ==> !#[trigger] ring_bit(self@, idx as int, d),
            r < self@.len() ==> ring_bit(self@, idx as int, r as int),
    {
        let (page_idx, bit_idx) = Self::page_bit(idx);
        let npages = self.pages.len();
        let ghost pl = (npages * 64) as int;
        proof {
            lemma_page_index(page_idx as int, bit_idx as int);
            self.lemma_padded(0);
            broadcast use axiom_u64_trailing_zeros;

        }
        let page = self.pages[page_idx];
        let mask = page >> (bit_idx as u64);
        if mask != 0 {
            let t = mask.trailing_zeros();
            proof {
                let tt = u64_trailing_zeros(mask) as u64;
                lemma_shifted_bit(page, bit_idx as u64, tt);
                assert(bit_idx + tt < 64);
                assert forall|d: int| 0 <= d < t implies !ring_bit(self@, idx as int, d) by {
                    assert((mask >> (d as u64)) & 1u64 == 0u64);
                    lemma_shifted_bit(page, bit_idx as u64, d as u64);
                    lemma_page_index(page_idx as int, bit_idx + d);
                    self.lemma_padded(idx + d);
                    vstd::arithmetic::div_mod::lemma_small_mod((idx + d) as nat, pl as nat);
                }
                lemma_page_index(page_idx as int, bit_idx + t);
                self.lemma_padded(idx + t);
                vstd::arithmetic::div_mod::lemma_small_mod((idx + t) as nat, pl as nat);
                assert(flat_bit(self.pages@, idx + t));
            }
            return t as usize;
        }
        proof {
            assert forall|d: int| 0 <= d < 64 - bit_idx implies !ring_bit(self@, idx as int, d) by {
                vstd::arithmetic::div_mod::lemma_small_mod((idx + d) as nat, pl as nat);
                lemma_zero_shift(page, bit_idx as u64, (bit_idx + d) as u64);
                lemma_page_index(page_idx as int, bit_idx + d);
                self.lemma_padded(idx + d);
            }
        }
        let mut zeros: usize = PAGE_SIZE - bit_idx;
        let mut i: usize = 1;
        while i <= npages
            invariant
                1 <= i <= npages + 1,
                npages == self.pages@.len(),
                pl == npages * 64,
                page_idx < npages,
                idx == 64 * page_idx + bit_idx,
                bit_idx < 64,
                self.wf(),
                idx < self@.len(),
                zeros == 64 - bit_idx + 64 * (i - 1),
                forall|d: int| 0 <= d < zeros ==> !#[trigger] ring_bit(self@, idx as int, d),
            decreases npages + 1 - i,
        {
            let p = (page_idx + i) % npages;
            let pg = self.pages[p];
            proof {
                assert(idx + zeros == 64 * (page_idx + i));
            }
            if pg == 0 {
                proof {
                    assert forall|d: int| 0 <= d < zeros + 64 implies !ring_bit(self@, idx as int, d) by {
                        if d >= zeros {
                            let c = d - zeros;
                            lemma_ring_index((page_idx + i) as int, npages as int, c);
                            lemma_page_index(p as int, c);
                            lemma_const_pages(c as u64);
                            self.lemma_padded(64 * p + c);
                        }
                    }
                }
                zeros = zeros + PAGE_SIZE;
            } else {
                let t = pg.trailing_zeros();
                let total = zeros + t as usize;
                proof {
                    let tt = u64_trailing_zeros(pg);
                    assert(tt < 64);
                    assert forall|d: int| 0 <= d < total implies !ring_bit(self@, idx as int, d) by {
                        if d >= zeros {
                            let c = d - zeros;
                            lemma_ring_index((page_idx + i) as int, npages as int, c);
                            lemma_page_index(p as int, c);
                            assert((pg >> (c as u64)) & 1u64 == 0u64);
                            self.lemma_padded(64 * p + c);
                        }
                    }
                    lemma_ring_index((page_idx + i) as int, npages as int, tt as int);
                    lemma_page_index(p as int, tt as int);
                    self.lemma_padded(64 * p + tt);
                }
                if total < self.capacity {
                    return total;
                } else {
                    return self.capacity;
                }
            }
            i = i + 1;
        }
        proof {
            assert(zeros >= self.capacity);
        }
        self.capacity
    }
}

} // verus!
