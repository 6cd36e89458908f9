//! Big-endian integer encoding used by the binary formats.
use vstd::prelude::*;

verus! {

/// The four big-endian bytes of `v`.
pub open spec fn be32(v: u32) -> Seq<u8> {
    seq![(v >> 24u32) as u8, (v >> 16u32) as u8, (v >> 8u32) as u8, v as u8]
}

/// The two big-endian bytes of `v`.
pub open spec fn be16(v: u16) -> Seq<u8> {
    seq![(v >> 8u16) as u8, v as u8]
}

/// The `u32` whose big-endian bytes are `b0 b1 b2 b3`.
pub open spec fn be32_of(b0: u8, b1: u8, b2: u8, b3: u8) -> u32 {
    ((b0 as u32) << 24u32) | ((b1 as u32) << 16u32) | ((b2 as u32) << 8u32) | (b3 as u32)
}

/// The `u16` whose big-endian bytes are `b0 b1`.
pub open spec fn be16_of(b0: u8, b1: u8) -> u16 {
    ((b0 as u16) << 8u16) | (b1 as u16)
}

pub open spec fn be32_at(data: Seq<u8>, pos: int) -> u32 {
    be32_of(data[pos], data[pos + 1], data[pos + 2], data[pos + 3])
}

pub open spec fn be16_at(data: Seq<u8>, pos: int) -> u16 {
    be16_of(data[pos], data[pos + 1])
}

pub proof fn lemma_be32_roundtrip(v: u32)
    ensures
        be32_of((v >> 24u32) as u8, (v >> 16u32) as u8, (v >> 8u32) as u8, v as u8) == v,
{
    assert(((((v >> 24u32) as u8) as u32) << 24u32) | ((((v >> 16u32) as u8) as u32) << 16u32) | ((((v
        >> 8u32) as u8) as u32) << 8u32) | (((v as u8) as u32)) == v) by (bit_vector);
}

pub proof fn lemma_be16_roundtrip(v: u16)
    ensures
        be16_of((v >> 8u16) as u8, v as u8) == v,
{
    assert(((((v >> 8u16) as u8) as u16) << 8u16) | ((v as u8) as u16) == v) by (bit_vector);
}

/// Appends the big-endian bytes of `v`.
pub fn push_be32(out: &mut Vec<u8>, v: u32)
    ensures
        final(out)@ == old(out)@ + be32(v),
{
    out.push((v >> 24u32) as u8);
    out.push((v >> 16u32) as u8);
    out.push((v >> 8u32) as u8);
    out.push(v as u8);
    assert(out@ =~= old(out)@ + be32(v));
}

/// Appends the big-endian bytes of `v`.
pub fn push_be16(out: &mut Vec<u8>, v: u16)
    ensures
        final(out)@ == old(out)@ + be16(v),
{
    out.push((v >> 8u16) as u8);
    out.push(v as u8);
    assert(out@ =~= old(out)@ + be16(v));
}

/// Reads the big-endian `u32` at `pos`.
pub fn read_be32(data: &[u8], pos: usize) -> (r: u32)
    requires
        pos + 4 <= data@.len(),
    ensures
        r == be32_at(data@, pos as int),
{
    ((data[pos] as u32) << 24u32) | ((data[pos + 1] as u32) << 16u32) | ((data[pos + 2] as u32) << 8u32)
        | (data[pos + 3] as u32)
}

/// Reads the big-endian `u16` at `pos`.
pub fn read_be16(data: &[u8], pos: usize) -> (r: u16)
    requires
        pos + 2 <= data@.len(),
    ensures
        r == be16_at(data@, pos as int),
{
    ((data[pos] as u16) << 8u16) | (data[pos + 1] as u16)
}

/// Appends all of `src`.
pub fn push_all(out: &mut Vec<u8>, src: &[u8])
    ensures
        final(out)@ == old(out)@ + src@,
{
    let mut i: usize = 0;
    while i < src.len()
        invariant
            i <= src@.len(),
            out@ == old(out)@ + src@.subrange(0, i as int),
        decreases src@.len() - i,
    {
        out.push(src[i]);
        i += 1;
        assert(out@ =~= old(out)@ + src@.subrange(0, i as int));
    }
    assert(src@.subrange(0, src@.len() as int) =~= src@);
}

/// Whether `data[pos..pos + lit.len()]` equals `lit`.
pub fn bytes_match_at(data: &[u8], pos: usize, lit: &[u8]) -> (r: bool)
    requires
        pos + lit@.len() <= data@.len(),
    ensures
        r == (data@.subrange(pos as int, pos + lit@.len()) == lit@),
{
    let mut i: usize = 0;
    while i < lit.len()
        invariant
            i <= lit@.len(),
            pos + lit@.len() <= data@.len(),
            data@.len() == data.len(),
            forall|j: int| 0 <= j < i ==> data@[pos + j] == lit@[j],
        decreases lit@.len() - i,
    {
        if data[pos + i] != lit[i] {
            assert(data@.subrange(pos as int, pos + lit@.len())[i as int] != lit@[i as int]);
            return false;
        }
        i += 1;
    }
    assert(data@.subrange(pos as int, pos + lit@.len()) =~= lit@);
    true
}

} // verus!
