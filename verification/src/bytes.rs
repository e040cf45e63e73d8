//! Little-endian integer encoding, stated bytewise.
use vstd::prelude::*;

verus! {

pub open spec fn le_bytes_u32(x: u32) -> Seq<u8> {
    seq![x as u8, (x >> 8u32) as u8, (x >> 16u32) as u8, (x >> 24u32) as u8]
}

pub open spec fn le_bytes_u64(x: u64) -> Seq<u8> {
    seq![
        x as u8,
        (x >> 8u64) as u8,
        (x >> 16u64) as u8,
        (x >> 24u64) as u8,
        (x >> 32u64) as u8,
        (x >> 40u64) as u8,
        (x >> 48u64) as u8,
        (x >> 56u64) as u8,
    ]
}

pub open spec fn le_bytes_u128(x: u128) -> Seq<u8> {
    le_bytes_u64(x as u64) + le_bytes_u64((x >> 64u128) as u64)
}

/// The `u32` whose little-endian bytes start at `p`.
pub open spec fn le_u32_at(b: Seq<u8>, p: int) -> u32 {
    (b[p] as u32) | ((b[p + 1] as u32) << 8u32) | ((b[p + 2] as u32) << 16u32) | ((b[p + 3] as u32) << 24u32)
}

/// The `u64` whose little-endian bytes start at `p`.
pub open spec fn le_u64_at(b: Seq<u8>, p: int) -> u64 {
    (le_u32_at(b, p) as u64) | ((le_u32_at(b, p + 4) as u64) << 32u64)
}

pub proof fn lemma_le_u32_round_trip(x: u32, b: Seq<u8>, p: int)
    requires
        0 <= p,
        p + 4 <= b.len(),
        b.subrange(p, p + 4) == le_bytes_u32(x),
    ensures
        le_u32_at(b, p) == x,
{
    assert(b[p] == b.subrange(p, p + 4)[0]);
    assert(b[p + 1] == b.subrange(p, p + 4)[1]);
    assert(b[p + 2] == b.subrange(p, p + 4)[2]);
    assert(b[p + 3] == b.subrange(p, p + 4)[3]);
    let (b0, b1, b2, b3) = (b[p], b[p + 1], b[p + 2], b[p + 3]);
    assert(b0 == x as u8 && b1 == (x >> 8u32) as u8 && b2 == (x >> 16u32) as u8 && b3 == (x >> 24u32) as u8);
    assert(((b0 as u32) | ((b1 as u32) << 8u32) | ((b2 as u32) << 16u32) | ((b3 as u32) << 24u32)) == x) by (bit_vector)
        requires
            b0 == x as u8,
            b1 == (x >> 8u32) as u8,
            b2 == (x >> 16u32) as u8,
            b3 == (x >> 24u32) as u8,
    ;
}

pub proof fn lemma_le_u64_round_trip(x: u64, b: Seq<u8>, p: int)
    requires
        0 <= p,
        p + 8 <= b.len(),
        b.subrange(p, p + 8) == le_bytes_u64(x),
    ensures
        le_u64_at(b, p) == x,
{
    let lo = x as u32;
    let hi = (x >> 32u64) as u32;
    assert(lo as u8 == x as u8 && (lo >> 8u32) as u8 == (x >> 8u64) as u8 && (lo >> 16u32) as u8 == (x >> 16u64) as u8 && (lo >> 24u32) as u8 == (x >> 24u64) as u8) by (bit_vector)
        requires lo == x as u32;
    assert(hi as u8 == (x >> 32u64) as u8 && (hi >> 8u32) as u8 == (x >> 40u64) as u8 && (hi >> 16u32) as u8 == (x >> 48u64) as u8 && (hi >> 24u32) as u8 == (x >> 56u64) as u8) by (bit_vector)
        requires hi == (x >> 32u64) as u32;
    assert(b.subrange(p, p + 4) =~= le_bytes_u32(lo)) by {
        assert forall|i: int| 0 <= i < 4 implies b.subrange(p, p + 4)[i] == le_bytes_u32(lo)[i] by {
            assert(b.subrange(p, p + 4)[i] == b.subrange(p, p + 8)[i]);
        }
    }
    assert(b.subrange(p + 4, p + 8) =~= le_bytes_u32(hi)) by {
        assert forall|i: int| 0 <= i < 4 implies b.subrange(p + 4, p + 8)[i] == le_bytes_u32(hi)[i] by {
            assert(b.subrange(p + 4, p + 8)[i] == b.subrange(p, p + 8)[i + 4]);
        }
    }
    lemma_le_u32_round_trip(lo, b, p);
    lemma_le_u32_round_trip(hi, b, p + 4);
    assert(((lo as u64) | ((hi as u64) << 32u64)) == x) by (bit_vector)
        requires
            lo == x as u32,
            hi == (x >> 32u64) as u32,
    ;
}

pub proof fn lemma_le_bytes_u64_injective(x: u64, y: u64)
    requires
        le_bytes_u64(x) == le_bytes_u64(y),
    ensures
        x == y,
{
    let b = le_bytes_u64(x);
    assert(b.subrange(0, 8) =~= b);
    lemma_le_u64_round_trip(x, b, 0);
    lemma_le_u64_round_trip(y, b, 0);
}

pub proof fn lemma_le_bytes_u128_injective(x: u128, y: u128)
    requires
        le_bytes_u128(x) == le_bytes_u128(y),
    ensures
        x == y,
{
    let bx = le_bytes_u128(x);
    let by = le_bytes_u128(y);
    assert(bx.subrange(0, 8) =~= le_bytes_u64(x as u64));
    assert(by.subrange(0, 8) =~= le_bytes_u64(y as u64));
    assert(bx.subrange(8, 16) =~= le_bytes_u64((x >> 64u128) as u64));
    assert(by.subrange(8, 16) =~= le_bytes_u64((y >> 64u128) as u64));
    lemma_le_bytes_u64_injective(x as u64, y as u64);
    lemma_le_bytes_u64_injective((x >> 64u128) as u64, (y >> 64u128) as u64);
    assert(x == y) by (bit_vector)
        requires
            x as u64 == y as u64,
            (x >> 64u128) as u64 == (y >> 64u128) as u64,
    ;
}

/// Appends the little-endian bytes of `x`.
pub fn push_u32_le(buf: &mut Vec<u8>, x: u32)
    ensures
        final(buf)@ == old(buf)@ + le_bytes_u32(x),
{
    buf.push(x as u8);
    buf.push((x >> 8u32) as u8);
    buf.push((x >> 16u32) as u8);
    buf.push((x >> 24u32) as u8);
    assert(buf@ =~= old(buf)@ + le_bytes_u32(x));
}

/// Appends the little-endian bytes of `x`.
pub fn push_u64_le(buf: &mut Vec<u8>, x: u64)
    ensures
        final(buf)@ == old(buf)@ + le_bytes_u64(x),
{
    buf.push(x as u8);
    buf.push((x >> 8u64) as u8);
    buf.push((x >> 16u64) as u8);
    buf.push((x >> 24u64) as u8);
    buf.push((x >> 32u64) as u8);
    buf.push((x >> 40u64) as u8);
    buf.push((x >> 48u64) as u8);
    buf.push((x >> 56u64) as u8);
    assert(buf@ =~= old(buf)@ + le_bytes_u64(x));
}

/// Appends the little-endian bytes of `x`.
pub fn push_u128_le(buf: &mut Vec<u8>, x: u128)
    ensures
        final(buf)@ == old(buf)@ + le_bytes_u128(x),
{
    push_u64_le(buf, x as u64);
    push_u64_le(buf, (x >> 64u128) as u64);
    assert(buf@ =~= old(buf)@ + le_bytes_u128(x));
}

/// Appends every byte of `src`.
pub fn push_all(buf: &mut Vec<u8>, src: &[u8])
    ensures
        final(buf)@ == old(buf)@ + src@,
{
    let ghost start = buf@;
    let mut i: usize = 0;
    while i < src.len()
        invariant
            i <= src.len(),
            buf@ == start + src@.take(i as int),
        decreases src.len() - i,
    {
        buf.push(src[i]);
        i = i + 1;
        assert(buf@ =~= start + src@.take(i as int));
    }
    assert(src@.take(src.len() as int) =~= src@);
}

} // verus!
