//! The transfer buffers of `nusb`, as far as a download fills them.
//!
//! A `Buffer` is a piece of memory with a length that was asked for when it
//! was made, and so many initialized bytes at its start.  What it holds and
//! what was asked for are named here; the operations below are `nusb`'s own,
//! with contracts over those two names.

use nusb::transfer::Buffer;
use vstd::prelude::*;

verus! {

/// A transfer buffer of `nusb`.
#[verifier::external_type_specification]
#[verifier::external_body]
pub struct ExBuffer(nusb::transfer::Buffer);

/// The initialized bytes of a buffer: what is sent when it is submitted.
pub uninterp spec fn buffer_bytes(buffer: Buffer) -> Seq<u8>;

/// The length that a buffer was made for.  It can take that many bytes.
pub uninterp spec fn buffer_limit(buffer: Buffer) -> nat;

/// Calls `nusb::transfer::Buffer::new`.
///
/// Trusted: the new buffer is empty and was made for `limit` bytes, which it
/// can take.  `nusb` panics on a length above `u32::MAX`, which `requires`
/// rules out.
#[verifier::external_body]
pub(crate) fn buffer_new(limit: usize) -> (buffer: Buffer)
    requires
        limit <= u32::MAX,
    ensures
        buffer_bytes(buffer) == Seq::<u8>::empty(),
        buffer_limit(buffer) == limit,
{
    Buffer::new(limit)
}

/// Calls `nusb::transfer::Buffer::len`.
///
/// Trusted: it is the number of initialized bytes.
#[verifier::external_body]
pub(crate) fn buffer_len(buffer: &Buffer) -> (len: usize)
    ensures
        len == buffer_bytes(*buffer).len(),
{
    buffer.len()
}

/// Calls `nusb::transfer::Buffer::is_empty`.
///
/// Trusted: it tells whether there is no initialized byte.
#[verifier::external_body]
pub(crate) fn buffer_is_empty(buffer: &Buffer) -> (empty: bool)
    ensures
        empty == (buffer_bytes(*buffer).len() == 0),
{
    buffer.is_empty()
}

/// Calls `nusb::transfer::Buffer::requested_len`.
///
/// Trusted: it is the length that the buffer was made for.
#[verifier::external_body]
pub(crate) fn buffer_requested_len(buffer: &Buffer) -> (limit: usize)
    ensures
        limit == buffer_limit(*buffer),
{
    buffer.requested_len()
}

/// Calls `nusb::transfer::Buffer::extend_from_slice`.
///
/// Trusted: the bytes of `slice` are appended to the initialized bytes.
/// `nusb` panics where they exceed the capacity, which is no less than the
/// length the buffer was made for; `requires` keeps within that length.
#[verifier::external_body]
pub(crate) fn buffer_extend_from_slice(buffer: &mut Buffer, slice: &[u8])
    requires
        buffer_bytes(*old(buffer)).len() + slice@.len() <= buffer_limit(*old(buffer)),
    ensures
        buffer_bytes(*final(buffer)) == buffer_bytes(*old(buffer)) + slice@,
        buffer_limit(*final(buffer)) == buffer_limit(*old(buffer)),
{
    buffer.extend_from_slice(slice);
}

/// Calls `nusb::transfer::Buffer::extend_fill`.
///
/// Trusted: `len` bytes of `value` are appended to the initialized bytes,
/// and the slice that is returned is those new bytes: what is written to it
/// is what the buffer holds there.  `nusb` panics where they exceed the
/// capacity, which is no less than the length the buffer was made for;
/// `requires` keeps within that length.
#[verifier::external_body]
pub(crate) fn buffer_extend_fill<'a>(buffer: &'a mut Buffer, len: usize, value: u8) -> (added:
    &'a mut [u8])
    requires
        buffer_bytes(*old(buffer)).len() + len <= buffer_limit(*old(buffer)),
    ensures
        added@ == Seq::new(len as nat, |i: int| value),
        final(added)@.len() == len,
        buffer_bytes(*final(buffer)) == buffer_bytes(*old(buffer)) + final(added)@,
        buffer_limit(*final(buffer)) == buffer_limit(*old(buffer)),
{
    buffer.extend_fill(len, value)
}

} // verus!
