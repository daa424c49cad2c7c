//! Little-endian scalars and byte-wise ordering, over byte sequences.

use crate::types::CursorError;
use vstd::prelude::*;
use vstd::slice::slice_subrange;

verus! {

/// The `u32` that four bytes hold in little-endian order.
pub open spec fn u32_from_le(b: Seq<u8>) -> u32
    recommends
        b.len() == 4,
{
    (b[0] as int + 0x100 * (b[1] as int) + 0x1_0000 * (b[2] as int) + 0x100_0000 * (b[3] as int)) as u32
}

/// The four bytes of a `u32` in little-endian order.
pub open spec fn u32_to_le(x: u32) -> Seq<u8> {
    seq![
        (x % 0x100) as u8,
        (x / 0x100 % 0x100) as u8,
        (x / 0x1_0000 % 0x100) as u8,
        (x / 0x100_0000) as u8,
    ]
}

/// The `u64` that eight bytes hold in little-endian order.
pub open spec fn u64_from_le(b: Seq<u8>) -> u64
    recommends
        b.len() == 8,
{
    (u32_from_le(b.subrange(0, 4)) as int + 0x1_0000_0000 * (u32_from_le(b.subrange(4, 8)) as int)) as u64
}

/// The eight bytes of a `u64` in little-endian order.
pub open spec fn u64_to_le(x: u64) -> Seq<u8> {
    u32_to_le((x % 0x1_0000_0000) as u32) + u32_to_le((x / 0x1_0000_0000) as u32)
}

/// The unsigned number with the same 32 bits as `x` in two's complement.
pub open spec fn i32_bits(x: i32) -> u32 {
    if x >= 0 {
        x as u32
    } else {
        (x + 0x1_0000_0000) as u32
    }
}

/// The signed number that the 32 bits of `u` stand for in two's complement.
pub open spec fn i32_from_bits(u: u32) -> i32 {
    if u < 0x8000_0000 {
        u as i32
    } else {
        (u - 0x1_0000_0000) as i32
    }
}

/// The unsigned number with the same 64 bits as `x` in two's complement.
pub open spec fn i64_bits(x: i64) -> u64 {
    if x >= 0 {
        x as u64
    } else {
        (x + 0x1_0000_0000_0000_0000) as u64
    }
}

/// The signed number that the 64 bits of `u` stand for in two's complement.
pub open spec fn i64_from_bits(u: u64) -> i64 {
    if u < 0x8000_0000_0000_0000 {
        u as i64
    } else {
        (u - 0x1_0000_0000_0000_0000) as i64
    }
}

/// Writing a `u32` and reading it back gives the same number.
pub proof fn lemma_u32_le_roundtrip(x: u32)
    ensures
        u32_to_le(x).len() == 4,
        u32_from_le(u32_to_le(x)) == x,
{
}

/// Writing a `u64` and reading it back gives the same number.
pub proof fn lemma_u64_le_roundtrip(x: u64)
    ensures
        u64_to_le(x).len() == 8,
        u64_from_le(u64_to_le(x)) == x,
{
    let lo = (x % 0x1_0000_0000) as u32;
    let hi = (x / 0x1_0000_0000) as u32;
    let b = u64_to_le(x);
    assert(b.subrange(0, 4) =~= u32_to_le(lo));
    assert(b.subrange(4, 8) =~= u32_to_le(hi));
    lemma_u32_le_roundtrip(lo);
    lemma_u32_le_roundtrip(hi);
}

/// Two's complement loses nothing, at either width.
pub proof fn lemma_signed_bits_roundtrip(x: i32, y: i64)
    ensures
        i32_from_bits(i32_bits(x)) == x,
        i64_from_bits(i64_bits(y)) == y,
{
}

/// What reading `n` bytes at `offset` gives: the bytes, or `DocumentTooShort`
/// when the buffer ends before them.
pub open spec fn read_bytes(buffer: Seq<u8>, offset: int, n: int) -> Result<Seq<u8>, CursorError> {
    if 0 <= offset && 0 <= n && offset + n <= buffer.len() {
        Ok(buffer.subrange(offset, offset + n))
    } else {
        Err(CursorError::DocumentTooShort)
    }
}

/// What reading a little-endian `u32` at `offset` gives.
pub open spec fn read_u32(buffer: Seq<u8>, offset: int) -> Result<u32, CursorError> {
    match read_bytes(buffer, offset, 4) {
        Ok(b) => Ok(u32_from_le(b)),
        Err(e) => Err(e),
    }
}

/// What reading two consecutive little-endian `u32`s at `offset` gives.
pub open spec fn read_u32_pair(buffer: Seq<u8>, offset: int) -> Result<(u32, u32), CursorError> {
    match read_bytes(buffer, offset, 8) {
        Ok(b) => Ok((u32_from_le(b.subrange(0, 4)), u32_from_le(b.subrange(4, 8)))),
        Err(e) => Err(e),
    }
}

/// What reading a little-endian `u64` at `offset` gives.
pub open spec fn read_u64(buffer: Seq<u8>, offset: int) -> Result<u64, CursorError> {
    match read_bytes(buffer, offset, 8) {
        Ok(b) => Ok(u64_from_le(b)),
        Err(e) => Err(e),
    }
}

/// Copies a slice of exactly `N` bytes into an array, by `TryFrom<&[u8]>` for
/// `[u8; N]`, which succeeds on a slice of that length and keeps the bytes.
#[verifier::external_body]
fn array_from_slice<const N: usize>(s: &[u8]) -> (a: [u8; N])
    requires
        s@.len() == N,
    ensures
        a@ == s@,
{
    <[u8; N]>::try_from(s).unwrap()
}

/// Copies the `N` bytes at `offset` out of the buffer.
pub fn get_byte_array_at<const N: usize>(buffer: &[u8], offset: usize) -> (res: Result<
    [u8; N],
    CursorError,
>)
    ensures
        match res {
            Ok(a) => read_bytes(buffer@, offset as int, N as int) == Ok::<Seq<u8>, CursorError>(a@),
            Err(e) => read_bytes(buffer@, offset as int, N as int) == Err::<Seq<u8>, CursorError>(e),
        },
{
    let len = buffer.len();
    if offset > len || len - offset < N {
        return Err(CursorError::DocumentTooShort);
    }
    let s = slice_subrange(buffer, offset, offset + N);
    Ok(array_from_slice::<N>(s))
}

/// Reads a little-endian `u32` at `offset`.
pub fn get_u32_at_offset(buffer: &[u8], offset: usize) -> (res: Result<u32, CursorError>)
    ensures
        res == read_u32(buffer@, offset as int),
{
    let a = get_byte_array_at::<4>(buffer, offset)?;
    let x: u32 = a[0] as u32 + 0x100 * (a[1] as u32) + 0x1_0000 * (a[2] as u32) + 0x100_0000 * (
    a[3] as u32);
    Ok(x)
}

/// Reads two consecutive little-endian `u32`s at `offset`.
pub fn get_u32_pair_at_offset(buffer: &[u8], offset: usize) -> (res: Result<
    (u32, u32),
    CursorError,
>)
    ensures
        res == read_u32_pair(buffer@, offset as int),
{
    let a = get_byte_array_at::<8>(buffer, offset)?;
    let x: u32 = a[0] as u32 + 0x100 * (a[1] as u32) + 0x1_0000 * (a[2] as u32) + 0x100_0000 * (
    a[3] as u32);
    let y: u32 = a[4] as u32 + 0x100 * (a[5] as u32) + 0x1_0000 * (a[6] as u32) + 0x100_0000 * (
    a[7] as u32);
    Ok((x, y))
}

/// Reads a little-endian `u64` at `offset`.
pub fn get_u64_at_offset(buffer: &[u8], offset: usize) -> (res: Result<u64, CursorError>)
    ensures
        res == read_u64(buffer@, offset as int),
{
    let (lo, hi) = get_u32_pair_at_offset(buffer, offset)?;
    Ok(lo as u64 + 0x1_0000_0000 * (hi as u64))
}

/// Appends the four little-endian bytes of `x`.
pub fn push_u32(output: &mut Vec<u8>, x: u32)
    ensures
        final(output)@ == old(output)@ + u32_to_le(x),
{
    output.push((x % 0x100) as u8);
    output.push((x / 0x100 % 0x100) as u8);
    output.push((x / 0x1_0000 % 0x100) as u8);
    output.push((x / 0x100_0000) as u8);
    assert(output@ =~= old(output)@ + u32_to_le(x));
}

/// Appends the eight little-endian bytes of `x`.
pub fn push_u64(output: &mut Vec<u8>, x: u64)
    ensures
        final(output)@ == old(output)@ + u64_to_le(x),
{
    push_u32(output, (x % 0x1_0000_0000) as u32);
    push_u32(output, (x / 0x1_0000_0000) as u32);
    assert(output@ =~= old(output)@ + u64_to_le(x));
}

/// Appends every byte of `bytes`.
pub fn push_bytes(output: &mut Vec<u8>, bytes: &[u8])
    ensures
        final(output)@ == old(output)@ + bytes@,
{
    let mut i: usize = 0;
    while i < bytes.len()
        invariant
            i <= bytes@.len(),
            output@ == old(output)@ + bytes@.subrange(0, i as int),
        decreases bytes@.len() - i,
    {
        output.push(bytes[i]);
        i += 1;
        assert(output@ =~= old(output)@ + bytes@.subrange(0, i as int));
    }
    assert(bytes@.subrange(0, i as int) =~= bytes@);
}

} // verus!
