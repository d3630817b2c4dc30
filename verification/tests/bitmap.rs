use algos::bitmap::Bitmap;
use algos::sparse_ring::SparseRing;

#[test]
fn bitmap_set_get_clear() {
    let mut b = Bitmap::new(130);
    assert_eq!(b.capacity(), 130);
    assert!(!b.get(0));
    b.set(0, true);
    b.set(64, true);
    b.set(129, true);
    assert!(b.get(0) && b.get(64) && b.get(129));
    assert!(!b.get(1) && !b.get(128));
    b.set(64, false);
    assert!(!b.get(64));
    b.clear();
    assert!(!b.get(0) && !b.get(129));
}

#[test]
fn bitmap_fill_and_filled() {
    let b = Bitmap::filled(70, 200);
    for i in 0..200 {
        assert_eq!(b.get(i), i < 70);
    }
    let mut c = Bitmap::new(200);
    c.set(150, true);
    c.set(75, true);
    c.fill(70);
    for i in 0..128 {
        assert_eq!(c.get(i), i < 70);
    }
    assert!(c.get(150));
    c.refill(3);
    for i in 0..200 {
        assert_eq!(c.get(i), i < 3);
    }
}

#[test]
fn bitmap_zero_run_wraps() {
    let mut b = Bitmap::new(128);
    assert_eq!(b.zero_run(5), 128);
    b.set(100, true);
    assert_eq!(b.zero_run(5), 95);
    assert_eq!(b.zero_run(100), 0);
    assert_eq!(b.zero_run(101), 127);
    b.set(3, true);
    assert_eq!(b.zero_run(101), 30);
}

#[test]
fn bitmap_zero_run_counts_padding() {
    let mut b = Bitmap::new(10);
    b.set(0, true);
    assert_eq!(b.zero_run(5), 10);
    assert_eq!(b.zero_run(1), 10);
}

#[test]
fn sparse_ring_push_remove() {
    let mut ring: SparseRing<u32> = SparseRing::new(3);
    assert_eq!(ring.len(), 0);
    assert!(!ring.is_full());
    let a = ring.push_back(10).unwrap();
    let b = ring.push_back(20).unwrap();
    let c = ring.push_back(30).unwrap();
    assert_eq!((a, b, c), (0, 1, 2));
    assert_eq!(ring.remove(b), Some(20));
    assert_eq!(ring.remove(b), None);
    assert_eq!(ring.len(), 3);
    assert_eq!(ring.pop_front(), Some(10));
    assert_eq!(ring.len(), 1);
    assert_eq!(ring.pop_front(), Some(30));
    assert_eq!(ring.len(), 0);
    assert_eq!(ring.pop_front(), None);
}

#[test]
fn sparse_ring_fills_and_compacts() {
    let mut ring: SparseRing<u32> = SparseRing::new(64);
    for i in 0..64 {
        assert!(ring.push_back(i).is_some());
    }
    assert!(ring.is_full());
    assert_eq!(ring.push_back(99), None);
    for i in (0..64).step_by(2) {
        assert_eq!(ring.remove(i as usize), Some(i));
    }
    ring.compact();
    assert_eq!(ring.len(), 32);
    for k in 0..32 {
        assert_eq!(ring.get(k), Some(2 * k as u32 + 1));
    }
}

#[test]
fn sparse_ring_front_skips_holes() {
    let mut r = SparseRing::<char>::new(10);
    assert_eq!(r.push_back('a'), Some(0));
    assert_eq!(r.push_back('b'), Some(1));
    assert_eq!(r.push_back('c'), Some(2));
    assert_eq!(r.remove(1), Some('b'));
    assert_eq!(r.len(), 3);
    assert_eq!(r.pop_front(), Some('a'));
    assert_eq!(r.len(), 1);
    assert_eq!(r.pop_front(), Some('c'));
    assert_eq!(r.len(), 0);
    assert_eq!(r.pop_front(), None);
}
