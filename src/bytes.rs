//! Little-endian integers over byte sequences.
use vstd::prelude::*;

verus! {

/// The unsigned 16-bit integer stored little-endian at `b[i..i + 2]`.
pub open spec fn u16_at(b: Seq<u8>, i: int) -> u16 {
    ((b[i] as u16) | ((b[i + 1] as u16) << 8u16)) as u16
}

/// The unsigned 32-bit integer stored little-endian at `b[i..i + 4]`.
pub open spec fn u32_at(b: Seq<u8>, i: int) -> u32 {
    ((b[i] as u32) | ((b[i + 1] as u32) << 8u32) | ((b[i + 2] as u32) << 16u32) | ((b[i + 3]
        as u32) << 24u32)) as u32
}

/// The two little-endian bytes of `v`.
pub open spec fn u16_le(v: u16) -> Seq<u8> {
    seq![v as u8, (v >> 8u16) as u8]
}

/// The four little-endian bytes of `v`.
pub open spec fn u32_le(v: u32) -> Seq<u8> {
    seq![v as u8, (v >> 8u32) as u8, (v >> 16u32) as u8, (v >> 24u32) as u8]
}

proof fn lemma_u16_bytes(b0: u8, b1: u8)
    ensures
        (((b0 as u16) | ((b1 as u16) << 8u16)) as u16) as u8 == b0,
        ((((b0 as u16) | ((b1 as u16) << 8u16)) as u16) >> 8u16) as u8 == b1,
{
    assert((((b0 as u16) | ((b1 as u16) << 8u16)) as u16) as u8 == b0) by (bit_vector);
    assert(((((b0 as u16) | ((b1 as u16) << 8u16)) as u16) >> 8u16) as u8 == b1) by (bit_vector);
}

proof fn lemma_u32_bytes(b0: u8, b1: u8, b2: u8, b3: u8)
    ensures
        ({
            let v = ((b0 as u32) | ((b1 as u32) << 8u32) | ((b2 as u32) << 16u32) | ((b3 as u32)
                << 24u32)) as u32;
            &&& v as u8 == b0
            &&& (v >> 8u32) as u8 == b1
            &&& (v >> 16u32) as u8 == b2
            &&& (v >> 24u32) as u8 == b3
        }),
{
    let v = ((b0 as u32) | ((b1 as u32) << 8u32) | ((b2 as u32) << 16u32) | ((b3 as u32)
        << 24u32)) as u32;
    assert(v as u8 == b0) by (bit_vector)
        requires
            v == ((b0 as u32) | ((b1 as u32) << 8u32) | ((b2 as u32) << 16u32) | ((b3 as u32)
                << 24u32)) as u32,
    ;
    assert((v >> 8u32) as u8 == b1) by (bit_vector)
        requires
            v == ((b0 as u32) | ((b1 as u32) << 8u32) | ((b2 as u32) << 16u32) | ((b3 as u32)
                << 24u32)) as u32,
    ;
    assert((v >> 16u32) as u8 == b2) by (bit_vector)
        requires
            v == ((b0 as u32) | ((b1 as u32) << 8u32) | ((b2 as u32) << 16u32) | ((b3 as u32)
                << 24u32)) as u32,
    ;
    assert((v >> 24u32) as u8 == b3) by (bit_vector)
        requires
            v == ((b0 as u32) | ((b1 as u32) << 8u32) | ((b2 as u32) << 16u32) | ((b3 as u32)
                << 24u32)) as u32,
    ;
}

/// Reading a 16-bit value and writing it back gives the same two bytes.
pub proof fn lemma_u16_round_trip(b: Seq<u8>, i: int)
    requires
        0 <= i,
        i + 2 <= b.len(),
    ensures
        u16_le(u16_at(b, i)) == b.subrange(i, i + 2),
{
    lemma_u16_bytes(b[i], b[i + 1]);
    assert(u16_le(u16_at(b, i)) =~= b.subrange(i, i + 2));
}

/// Reading a 32-bit value and writing it back gives the same four bytes.
pub proof fn lemma_u32_round_trip(b: Seq<u8>, i: int)
    requires
        0 <= i,
        i + 4 <= b.len(),
    ensures
        u32_le(u32_at(b, i)) == b.subrange(i, i + 4),
{
    lemma_u32_bytes(b[i], b[i + 1], b[i + 2], b[i + 3]);
    assert(u32_le(u32_at(b, i)) =~= b.subrange(i, i + 4));
}

/// The byte at `pos`, or `None` past the end.
pub fn read_u8(data: &[u8], pos: usize) -> (r: Option<u8>)
    ensures
        pos < data@.len() ==> r == Some(data@[pos as int]),
        pos >= data@.len() ==> r is None,
{
    if pos < data.len() {
        Some(data[pos])
    } else {
        None
    }
}

/// The little-endian 16-bit value at `pos`, or `None` if fewer than two bytes remain.
pub fn read_u16(data: &[u8], pos: usize) -> (r: Option<u16>)
    ensures
        pos + 2 <= data@.len() ==> r == Some(u16_at(data@, pos as int)),
        pos + 2 > data@.len() ==> r is None,
{
    if pos <= data.len() && data.len() - pos >= 2 {
        Some((data[pos] as u16) | ((data[pos + 1] as u16) << 8u16))
    } else {
        None
    }
}

/// The little-endian 32-bit value at `pos`, or `None` if fewer than four bytes remain.
pub fn read_u32(data: &[u8], pos: usize) -> (r: Option<u32>)
    ensures
        pos + 4 <= data@.len() ==> r == Some(u32_at(data@, pos as int)),
        pos + 4 > data@.len() ==> r is None,
{
    if pos <= data.len() && data.len() - pos >= 4 {
        Some(
            (data[pos] as u32) | ((data[pos + 1] as u32) << 8u32) | ((data[pos + 2] as u32)
                << 16u32) | ((data[pos + 3] as u32) << 24u32),
        )
    } else {
        None
    }
}

/// The little-endian signed 32-bit value at `pos`, or `None` if fewer than four bytes remain.
pub fn read_i32(data: &[u8], pos: usize) -> (r: Option<i32>)
    ensures
        pos + 4 <= data@.len() ==> r == Some(u32_at(data@, pos as int) as i32),
        pos + 4 > data@.len() ==> r is None,
{
    match read_u32(data, pos) {
        Some(v) => Some(v as i32),
        None => None,
    }
}

/// Appends one byte.
pub fn write_u8(out: &mut Vec<u8>, value: u8)
    ensures
        final(out)@ == old(out)@.push(value),
{
    out.push(value);
}

/// Appends the two little-endian bytes of `value`.
pub fn write_u16(out: &mut Vec<u8>, value: u16)
    ensures
        final(out)@ == old(out)@ + u16_le(value),
{
    out.push(value as u8);
    out.push((value >> 8u16) as u8);
    assert(out@ =~= old(out)@ + u16_le(value));
}

/// Appends the four little-endian bytes of `value`.
pub fn write_u32(out: &mut Vec<u8>, value: u32)
    ensures
        final(out)@ == old(out)@ + u32_le(value),
{
    out.push(value as u8);
    out.push((value >> 8u32) as u8);
    out.push((value >> 16u32) as u8);
    out.push((value >> 24u32) as u8);
    assert(out@ =~= old(out)@ + u32_le(value));
}

/// Appends the four little-endian bytes of `value`.
pub fn write_i32(out: &mut Vec<u8>, value: i32)
    ensures
        final(out)@ == old(out)@ + u32_le(value as u32),
{
    write_u32(out, value as u32);
}

/// Appends every byte of `src`.
pub fn write_bytes(out: &mut Vec<u8>, src: &[u8])
    ensures
        final(out)@ == old(out)@ + src@,
{
    let mut i: usize = 0;
    while i < src.len()
        invariant
            i <= src@.len(),
            out@ == old(out)@ + src@.subrange(0, i as int),
        decreases src@.len() - i,
    {
        out.push(src[i]);
        i = i + 1;
        assert(out@ =~= old(out)@ + src@.subrange(0, i as int));
    }
    assert(src@.subrange(0, i as int) =~= src@);
}

/// A copy of `data[start..end]`.
pub fn copy_range(data: &[u8], start: usize, end: usize) -> (r: Vec<u8>)
    requires
        start <= end <= data@.len(),
    ensures
        r@ == data@.subrange(start as int, end as int),
{
    let mut r: Vec<u8> = Vec::new();
    let mut i: usize = start;
    while i < end
        invariant
            start <= i <= end <= data@.len(),
            r@ == data@.subrange(start as int, i as int),
        decreases end - i,
    {
        r.push(data[i]);
        i = i + 1;
        assert(r@ =~= data@.subrange(start as int, i as int));
    }
    r
}

/// Writing a 32-bit value and reading it back gives the value.
pub proof fn lemma_u32_read_back(v: u32)
    ensures
        u32_at(u32_le(v), 0) == v,
{
    let b0 = v as u8;
    let b1 = (v >> 8u32) as u8;
    let b2 = (v >> 16u32) as u8;
    let b3 = (v >> 24u32) as u8;
    assert(((b0 as u32) | ((b1 as u32) << 8u32) | ((b2 as u32) << 16u32) | ((b3 as u32) << 24u32))
        == v) by (bit_vector)
        requires
            b0 == v as u8,
            b1 == (v >> 8u32) as u8,
            b2 == (v >> 16u32) as u8,
            b3 == (v >> 24u32) as u8,
    ;
}

/// Where the four bytes at `p` are those of `v`, the value read there is `v`.
pub proof fn lemma_u32_at_written(b: Seq<u8>, p: int, v: u32)
    requires
        0 <= p,
        p + 4 <= b.len(),
        b.subrange(p, p + 4) == u32_le(v),
    ensures
        u32_at(b, p) == v,
{
    lemma_u32_read_back(v);
    let w = b.subrange(p, p + 4);
    assert(w[0] == b[p] && w[1] == b[p + 1] && w[2] == b[p + 2] && w[3] == b[p + 3]);
}

} // verus!
