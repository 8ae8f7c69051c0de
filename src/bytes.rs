//! Little-endian integer fields read out of byte buffers.

use vstd::prelude::*;

verus! {

/// The little-endian `u16` at `pos` of `s`.
pub open spec fn le_u16(s: Seq<u8>, pos: int) -> u16 {
    ((s[pos] as u16) | ((s[pos + 1] as u16) << 8u16)) as u16
}

/// The little-endian `u32` at `pos` of `s`.
pub open spec fn le_u32(s: Seq<u8>, pos: int) -> u32 {
    ((s[pos] as u32) | ((s[pos + 1] as u32) << 8u32) | ((s[pos + 2] as u32) << 16u32) | ((
    s[pos + 3] as u32) << 24u32)) as u32
}

/// The `u16` stored little-endian at `pos`.
pub fn read_u16_le(data: &[u8], pos: usize) -> (r: u16)
    requires
        pos + 2 <= data@.len(),
    ensures
        r == le_u16(data@, pos as int),
{
    (data[pos] as u16) | ((data[pos + 1] as u16) << 8u16)
}

/// The `u32` stored little-endian at `pos`.
pub fn read_u32_le(data: &[u8], pos: usize) -> (r: u32)
    requires
        pos + 4 <= data@.len(),
    ensures
        r == le_u32(data@, pos as int),
{
    (data[pos] as u32) | ((data[pos + 1] as u32) << 8u32) | ((data[pos + 2] as u32) << 16u32) | ((
    data[pos + 3] as u32) << 24u32)
}

/// A copy of the bytes `start .. end` of `data`.
pub fn copy_range(data: &[u8], start: usize, end: usize) -> (r: Vec<u8>)
    requires
        start <= end <= data@.len(),
    ensures
        r@ == data@.subrange(start as int, end as int),
{
    let mut r: Vec<u8> = Vec::new();
    let mut i: usize = start;
    while i < end
        invariant
            start <= i <= end <= data@.len(),
            r@ == data@.subrange(start as int, i as int),
        decreases end - i,
    {
        r.push(data[i]);
        assert(r@ =~= data@.subrange(start as int, i + 1));
        i = i + 1;
    }
    r
}

} // verus!

verus! {

/// The `N` bytes at `pos` of `data` as an array.
pub fn read_array<const N: usize>(data: &[u8], pos: usize) -> (r: [u8; N])
    requires
        pos + N <= data@.len(),
    ensures
        r@ == data@.subrange(pos as int, pos + N),
{
    let mut r: [u8; N] = [0u8; N];
    let len = data.len();
    let mut i: usize = 0;
    while i < N
        invariant
            pos + N <= data@.len(),
            len == data@.len(),
            i <= N,
            r@.len() == N,
            forall|j: int| 0 <= j < i ==> r@[j] == data@[pos + j],
        decreases N - i,
    {
        r.set(i, data[pos + i]);
        i = i + 1;
    }
    assert(r@ =~= data@.subrange(pos as int, pos + N));
    r
}

} // verus!
