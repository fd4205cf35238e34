//! Little-endian integers on the wire.
//!
//! The byte order is stated once, as plain arithmetic on sequences of bytes,
//! and the cursor operations of the `bytes` crate are given contracts over it.

use bytes::{Buf, BufMut};
use vstd::prelude::*;

verus! {

/// The number that the first two bytes of `b` hold, least significant first.
pub open spec fn le_u16(b: Seq<u8>) -> int
    recommends
        b.len() >= 2,
{
    b[0] as int + 0x100 * (b[1] as int)
}

/// The number that the first four bytes of `b` hold, least significant first.
pub open spec fn le_u32(b: Seq<u8>) -> int
    recommends
        b.len() >= 4,
{
    b[0] as int + 0x100 * (b[1] as int) + 0x1_0000 * (b[2] as int) + 0x100_0000 * (b[3] as int)
}

/// The two bytes of `n`, least significant first.
pub open spec fn u16_le_bytes(n: u16) -> Seq<u8> {
    seq![(n % 0x100) as u8, (n / 0x100) as u8]
}

/// The four bytes of `n`, least significant first.
pub open spec fn u32_le_bytes(n: u32) -> Seq<u8> {
    seq![
        (n % 0x100) as u8,
        ((n / 0x100) % 0x100) as u8,
        ((n / 0x1_0000) % 0x100) as u8,
        (n / 0x100_0000) as u8,
    ]
}

/// Bytes that begin with the two bytes of `n` hold `n`.
pub proof fn lemma_le_u16_of_prefix(b: Seq<u8>, n: u16)
    requires
        b.len() >= 2,
        b.subrange(0, 2) == u16_le_bytes(n),
    ensures
        le_u16(b) == n,
{
    assert(b[0] == b.subrange(0, 2)[0]);
    assert(b[1] == b.subrange(0, 2)[1]);
}

/// Bytes that begin with the four bytes of `n` hold `n`.
pub proof fn lemma_le_u32_of_prefix(b: Seq<u8>, n: u32)
    requires
        b.len() >= 4,
        b.subrange(0, 4) == u32_le_bytes(n),
    ensures
        le_u32(b) == n,
{
    assert(b[0] == b.subrange(0, 4)[0]);
    assert(b[1] == b.subrange(0, 4)[1]);
    assert(b[2] == b.subrange(0, 4)[2]);
    assert(b[3] == b.subrange(0, 4)[3]);
}

/// The two bytes of the number that `b` begins with are the first two of `b`.
pub proof fn lemma_u16_le_bytes_of_value(b: Seq<u8>)
    requires
        b.len() >= 2,
    ensures
        0 <= le_u16(b) <= u16::MAX,
        u16_le_bytes(le_u16(b) as u16) == b.subrange(0, 2),
{
    assert(u16_le_bytes(le_u16(b) as u16) =~= b.subrange(0, 2));
}

/// The four bytes of the number that `b` begins with are the first four of `b`.
pub proof fn lemma_u32_le_bytes_of_value(b: Seq<u8>)
    requires
        b.len() >= 4,
    ensures
        0 <= le_u32(b) <= u32::MAX,
        u32_le_bytes(le_u32(b) as u32) == b.subrange(0, 4),
{
    assert(u32_le_bytes(le_u32(b) as u32) =~= b.subrange(0, 4));
}

/// Calls `bytes::Buf::get_u16_le` on a cursor over `buf`.
///
/// Trusted: the call returns the unsigned 16 bit integer that the first two
/// bytes hold in little-endian order and advances the cursor by 2; it panics
/// when fewer than two bytes remain, which `requires` rules out.  The cursor
/// is handed back as the rest of the slice.
#[verifier::external_body]
pub(crate) fn get_u16_le<'a>(buf: &'a [u8]) -> (r: (u16, &'a [u8]))
    requires
        buf@.len() >= 2,
    ensures
        r.0 as int == le_u16(buf@),
        r.1@ == buf@.skip(2),
{
    let mut rest: &[u8] = buf;
    let value: u16 = rest.get_u16_le();
    (value, rest)
}

/// Calls `bytes::Buf::get_u32_le` on a cursor over `buf`.
///
/// Trusted: the call returns the unsigned 32 bit integer that the first four
/// bytes hold in little-endian order and advances the cursor by 4; it panics
/// when fewer than four bytes remain, which `requires` rules out.  The cursor
/// is handed back as the rest of the slice.
#[verifier::external_body]
pub(crate) fn get_u32_le<'a>(buf: &'a [u8]) -> (r: (u32, &'a [u8]))
    requires
        buf@.len() >= 4,
    ensures
        r.0 as int == le_u32(buf@),
        r.1@ == buf@.skip(4),
{
    let mut rest: &[u8] = buf;
    let value: u32 = rest.get_u32_le();
    (value, rest)
}

/// Calls `bytes::Buf::advance` on a cursor over `buf`.
///
/// Trusted: the call moves the cursor `cnt` bytes further; on a slice it
/// panics when `cnt` exceeds what remains, which `requires` rules out.  The
/// cursor is handed back as the rest of the slice.
#[verifier::external_body]
pub(crate) fn advance<'a>(buf: &'a [u8], cnt: usize) -> (rest: &'a [u8])
    requires
        cnt <= buf@.len(),
    ensures
        rest@ == buf@.skip(cnt as int),
{
    let mut rest: &[u8] = buf;
    rest.advance(cnt);
    rest
}

/// Calls `bytes::BufMut::put_u16_le` on a growable buffer.
///
/// Trusted: the call writes `n` in little-endian byte order and advances the
/// position by 2; on a `Vec<u8>` that appends the two bytes.
#[verifier::external_body]
pub(crate) fn put_u16_le(out: &mut Vec<u8>, n: u16)
    ensures
        final(out)@ == old(out)@ + u16_le_bytes(n),
{
    out.put_u16_le(n);
}

/// Calls `bytes::BufMut::put_u32_le` on a growable buffer.
///
/// Trusted: the call writes `n` in little-endian byte order and advances the
/// position by 4; on a `Vec<u8>` that appends the four bytes.
#[verifier::external_body]
pub(crate) fn put_u32_le(out: &mut Vec<u8>, n: u32)
    ensures
        final(out)@ == old(out)@ + u32_le_bytes(n),
{
    out.put_u32_le(n);
}

} // verus!
