//! A record of a number and a tag written as bytes: the number in two little-endian bytes,
//! the length of the tag in eight, then the tag itself.
use vstd::prelude::*;

verus! {

/// `256` to the power `k`.
pub open spec fn pow256(k: nat) -> nat
    decreases k,
{
    if k == 0 {
        1
    } else {
        256 * pow256((k - 1) as nat)
    }
}

/// The number that the little-endian bytes `s` stand for.
pub open spec fn le_value(s: Seq<u8>) -> nat
    decreases s.len(),
{
    if s.len() == 0 {
        0
    } else {
        s[0] as nat + 256 * le_value(s.drop_first())
    }
}

/// The `k` low bytes of `x`, least significant first.
pub open spec fn le_seq(x: nat, k: nat) -> Seq<u8>
    decreases k,
{
    if k == 0 {
        Seq::empty()
    } else {
        seq![(x % 256) as u8] + le_seq(x / 256, (k - 1) as nat)
    }
}

/// The bytes of the record of `number` and `tag`.
pub open spec fn encoded(number: u16, tag: Seq<u8>) -> Seq<u8> {
    le_seq(number as nat, 2) + le_seq(tag.len(), 8) + tag
}

/// The record that `bytes` hold, if they hold one: at least the ten bytes of the number
/// and the length, and as many bytes after them as the length says; bytes beyond the tag
/// are not read.
pub open spec fn decoded(bytes: Seq<u8>) -> Option<(u16, Seq<u8>)> {
    if bytes.len() >= 10 && 10 + le_value(bytes.subrange(2, 10)) <= bytes.len() {
        Some(
            (
                le_value(bytes.subrange(0, 2)) as u16,
                bytes.subrange(10, 10 + le_value(bytes.subrange(2, 10)) as int),
            ),
        )
    } else {
        None
    }
}

proof fn lemma_pow256_values()
    ensures
        pow256(2) == 0x1_0000,
        pow256(7) == 0x100_0000_0000_0000,
        pow256(8) == 0x1_0000_0000_0000_0000,
{
    reveal_with_fuel(pow256, 9);
}

/// `k` little-endian bytes stand for less than `256^k`.
proof fn lemma_le_value_bound(s: Seq<u8>)
    ensures
        le_value(s) < pow256(s.len()),
    decreases s.len(),
{
    if s.len() > 0 {
        lemma_le_value_bound(s.drop_first());
    }
}

/// Below `256^k`, the `k` low bytes of `x` stand for `x`.
proof fn lemma_le_roundtrip(x: nat, k: nat)
    requires
        x < pow256(k),
    ensures
        le_seq(x, k).len() == k,
        le_value(le_seq(x, k)) == x,
    decreases k,
{
    if k > 0 {
        assert(x / 256 < pow256((k - 1) as nat));
        lemma_le_roundtrip(x / 256, (k - 1) as nat);
        let s = le_seq(x, k);
        assert(s.drop_first() =~= le_seq(x / 256, (k - 1) as nat));
    }
}

/// Appends the `k` low bytes of `x` to `out`.
fn push_le(out: &mut Vec<u8>, x: u64, k: u8)
    ensures
        final(out)@ == old(out)@ + le_seq(x as nat, k as nat),
    decreases k,
{
    if k > 0 {
        out.push((x % 256) as u8);
        push_le(out, x / 256, k - 1);
        assert(final(out)@ =~= old(out)@ + le_seq(x as nat, k as nat));
    }
}

/// The number that the `k` bytes of `bytes` from place `from` stand for.
fn read_le(bytes: &Vec<u8>, from: usize, k: usize) -> (r: u64)
    requires
        from + k <= bytes@.len(),
        k <= 8,
    ensures
        r == le_value(bytes@.subrange(from as int, from + k)),
    decreases k,
{
    if k == 0 {
        0
    } else {
        assert(bytes@.len() == bytes.len());
        let rest = read_le(bytes, from + 1, k - 1);
        proof {
            let s = bytes@.subrange(from as int, from + k);
            assert(s.drop_first() =~= bytes@.subrange(from + 1, from + k));
            lemma_le_value_bound(s.drop_first());
            lemma_pow256_values();
            if k - 1 < 7 {
                lemma_pow256_monotonic((k - 1) as nat, 7);
            }
        }
        bytes[from] as u64 + 256 * rest
    }
}

proof fn lemma_pow256_monotonic(a: nat, b: nat)
    requires
        a <= b,
    ensures
        pow256(a) <= pow256(b),
    decreases b - a,
{
    if a < b {
        lemma_pow256_monotonic(a, (b - 1) as nat);
    }
}

/// The bytes of the record of `number` and `tag`.
pub fn encode_record(number: u16, tag: &[u8]) -> (bytes: Vec<u8>)
    ensures
        bytes@ == encoded(number, tag@),
{
    let mut bytes: Vec<u8> = Vec::new();
    push_le(&mut bytes, number as u64, 2);
    push_le(&mut bytes, tag.len() as u64, 8);
    let ghost head = bytes@;
    let mut i: usize = 0;
    while i < tag.len()
        invariant
            i <= tag@.len(),
            bytes@ == head + tag@.take(i as int),
        decreases tag@.len() - i,
    {
        bytes.push(tag[i]);
        i = i + 1;
        assert(bytes@ =~= head + tag@.take(i as int));
    }
    assert(tag@.take(tag@.len() as int) =~= tag@);
    assert(bytes@ =~= encoded(number, tag@));
    bytes
}

/// The record that `bytes` hold; `None` when they are too short for the number, the
/// length, or the tag that the length announces.
pub fn decode_record(bytes: &Vec<u8>) -> (r: Option<(u16, Vec<u8>)>)
    ensures
        match r {
            Some((number, tag)) => decoded(bytes@) == Some((number, tag@)),
            None => decoded(bytes@) is None,
        },
{
    if bytes.len() < 10 {
        return None;
    }
    let number = read_le(bytes, 0, 2);
    let len = read_le(bytes, 2, 8);
    proof {
        lemma_le_value_bound(bytes@.subrange(0, 2));
        lemma_pow256_values();
    }
    if len > (bytes.len() - 10) as u64 {
        return None;
    }
    let end = 10 + len as usize;
    let mut tag: Vec<u8> = Vec::new();
    let mut i: usize = 10;
    while i < end
        invariant
            10 <= i <= end,
            end <= bytes@.len(),
            tag@ == bytes@.subrange(10, i as int),
        decreases end - i,
    {
        tag.push(bytes[i]);
        i = i + 1;
        assert(tag@ =~= bytes@.subrange(10, i as int));
    }
    Some((number as u16, tag))
}

/// Reading the bytes of a record gives the record back.
pub proof fn law_decode_encode(number: u16, tag: Seq<u8>)
    requires
        tag.len() < pow256(8),
    ensures
        decoded(encoded(number, tag)) == Some((number, tag)),
{
    lemma_pow256_values();
    lemma_le_roundtrip(number as nat, 2);
    lemma_le_roundtrip(tag.len(), 8);
    let b = encoded(number, tag);
    let a = le_seq(number as nat, 2);
    let l = le_seq(tag.len(), 8);
    assert(b.subrange(0, 2) =~= a);
    assert(b.subrange(2, 10) =~= l);
    assert(b.subrange(10, 10 + tag.len() as int) =~= tag);
}

} // verus!
