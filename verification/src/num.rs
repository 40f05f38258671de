//! Big-endian integer fields of the wire format.

use vstd::prelude::*;

verus! {

/// The 16-bit big-endian value stored at position `i` of `s`.
pub open spec fn be16(s: Seq<u8>, i: int) -> int {
    s[i] * 0x100 + s[i + 1]
}

/// The 32-bit big-endian value stored at position `i` of `s`.
pub open spec fn be32(s: Seq<u8>, i: int) -> int {
    ((s[i] * 0x100 + s[i + 1]) * 0x100 + s[i + 2]) * 0x100 + s[i + 3]
}

/// The two-byte big-endian encoding of `v`.
pub open spec fn be16_bytes(v: int) -> Seq<u8> {
    seq![(v / 0x100) as u8, (v % 0x100) as u8]
}

/// The four-byte big-endian encoding of `v`.
pub open spec fn be32_bytes(v: int) -> Seq<u8> {
    seq![
        (v / 0x1000000) as u8,
        ((v / 0x10000) % 0x100) as u8,
        ((v / 0x100) % 0x100) as u8,
        (v % 0x100) as u8,
    ]
}

/// Reading back a two-byte big-endian encoding yields the encoded value.
pub proof fn lemma_be16_round_trip(s: Seq<u8>, i: int, v: int)
    requires
        0 <= v < 0x10000,
        0 <= i,
        i + 2 <= s.len(),
        s.subrange(i, i + 2) == be16_bytes(v),
    ensures
        be16(s, i) == v,
{
    assert(s[i] == be16_bytes(v)[0]);
    assert(s[i + 1] == be16_bytes(v)[1]);
    assert((v / 0x100) * 0x100 + v % 0x100 == v) by (nonlinear_arith)
        requires 0 <= v;
    assert(v / 0x100 < 0x100) by (nonlinear_arith)
        requires 0 <= v < 0x10000;
}

/// Reading back a four-byte big-endian encoding yields the encoded value.
pub proof fn lemma_be32_round_trip(s: Seq<u8>, i: int, v: int)
    requires
        0 <= v < 0x100000000,
        0 <= i,
        i + 4 <= s.len(),
        s.subrange(i, i + 4) == be32_bytes(v),
    ensures
        be32(s, i) == v,
{
    assert(s[i] == be32_bytes(v)[0]);
    assert(s[i + 1] == be32_bytes(v)[1]);
    assert(s[i + 2] == be32_bytes(v)[2]);
    assert(s[i + 3] == be32_bytes(v)[3]);
    assert(v / 0x1000000 < 0x100) by (nonlinear_arith)
        requires 0 <= v < 0x100000000;
    assert(((v / 0x1000000) * 0x100 + (v / 0x10000) % 0x100) * 0x100 + (v / 0x100) % 0x100
        == v / 0x100) by (nonlinear_arith)
        requires 0 <= v;
    assert((v / 0x100) * 0x100 + v % 0x100 == v) by (nonlinear_arith)
        requires 0 <= v;
}

/// Reads a 16-bit big-endian value from `s` at position `i`.
pub fn read_u16(s: &[u8], i: usize) -> (r: u16)
    requires
        i + 2 <= s@.len(),
    ensures
        r == be16(s@, i as int),
{
    let n: usize = s.len();
    let hi = *vstd::slice::slice_index_get(s, i);
    let lo = *vstd::slice::slice_index_get(s, i + 1);
    (hi as u16) * 0x100 + (lo as u16)
}

/// Reads a 32-bit big-endian value from `s` at position `i`.
pub fn read_u32(s: &[u8], i: usize) -> (r: u32)
    requires
        i + 4 <= s@.len(),
    ensures
        r == be32(s@, i as int),
{
    let n: usize = s.len();
    let b0 = *vstd::slice::slice_index_get(s, i);
    let b1 = *vstd::slice::slice_index_get(s, i + 1);
    let b2 = *vstd::slice::slice_index_get(s, i + 2);
    let b3 = *vstd::slice::slice_index_get(s, i + 3);
    (((b0 as u32) * 0x100 + (b1 as u32)) * 0x100 + (b2 as u32)) * 0x100 + (b3 as u32)
}

/// Appends the two-byte big-endian encoding of `v` to `out`.
pub fn write_u16(v: u16, out: &mut Vec<u8>)
    ensures
        final(out)@ == old(out)@ + be16_bytes(v as int),
{
    out.push((v / 0x100) as u8);
    out.push((v % 0x100) as u8);
    assert(final(out)@ =~= old(out)@ + be16_bytes(v as int));
}

/// Appends the four-byte big-endian encoding of `v` to `out`.
pub fn write_u32(v: u32, out: &mut Vec<u8>)
    ensures
        final(out)@ == old(out)@ + be32_bytes(v as int),
{
    out.push((v / 0x1000000) as u8);
    out.push(((v / 0x10000) % 0x100) as u8);
    out.push(((v / 0x100) % 0x100) as u8);
    out.push((v % 0x100) as u8);
    assert(final(out)@ =~= old(out)@ + be32_bytes(v as int));
}

} // verus!
