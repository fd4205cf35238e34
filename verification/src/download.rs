//! Data download helper.
//!
//! To stream data over USB it needs to be sent in blocks that are a multiple
//! of the maximum packet size of the endpoint, otherwise the receiver may
//! complain.  It also should only send as much data as the device said it
//! would accept.  The helper here keeps both rules: it collects the data in
//! buffers of a length that is such a multiple, hands out each buffer when it
//! is full, and counts what it was given against the size of the download.
//!
//! The buffers it hands out are to be submitted to the bulk OUT endpoint, in
//! the order in which they come.

use crate::buffer::{
    buffer_bytes, buffer_extend_fill, buffer_extend_from_slice, buffer_is_empty, buffer_len,
    buffer_limit, buffer_new, buffer_requested_len,
};
use crate::client::NusbFastBootError;
use nusb::transfer::Buffer;
use vstd::prelude::*;

verus! {

/// Least length of a buffer: about 1Mb
pub const BUFFER_BYTES: usize = 1024 * 1024;

/// Transfers that may be under way at once
pub const MAX_PENDING: usize = 3;

/// Error during data download
#[derive(Debug, PartialEq, Eq)]
pub enum DownloadError {
    /// Trying to complete while nothing was Queued
    NothingQueued,
    /// Incorrect data length: more than the size of the download was
    /// queued, or less when it was finished
    IncorrectDataLength {
        /// The bytes that were queued, those that were refused counted
        actual: u32,
        /// The size of the download
        expected: u32,
    },
    /// Error of the client
    Nusb(NusbFastBootError),
}

impl From<NusbFastBootError> for DownloadError {
    fn from(e: NusbFastBootError) -> (r: DownloadError) {
        DownloadError::Nusb(e)
    }
}

impl vstd::std_specs::convert::FromSpecImpl<NusbFastBootError> for DownloadError {
    open spec fn obeys_from_spec() -> bool {
        true
    }

    open spec fn from_spec(e: NusbFastBootError) -> DownloadError {
        DownloadError::Nusb(e)
    }
}

/// The length of the buffers for an endpoint whose largest packet has
/// `max_out` bytes: the least multiple of `max_out` that is no less than
/// `BUFFER_BYTES`.
pub open spec fn buffer_size(max_out: usize) -> int
    recommends
        max_out > 0,
{
    if BUFFER_BYTES % max_out == 0 {
        BUFFER_BYTES as int
    } else {
        BUFFER_BYTES + max_out - BUFFER_BYTES % max_out
    }
}

/// The length of the buffers is a multiple of the largest packet, and the
/// least one that is no less than `BUFFER_BYTES`.
pub proof fn lemma_buffer_size_aligned(max_out: usize)
    requires
        max_out > 0,
    ensures
        buffer_size(max_out) % (max_out as int) == 0,
        BUFFER_BYTES <= buffer_size(max_out) < BUFFER_BYTES + max_out,
{
    let m = max_out as int;
    let b = BUFFER_BYTES as int;
    let r = b % m;
    assert(0 <= r < m && b == m * (b / m) + r) by (nonlinear_arith)
        requires
            m > 0,
            r == b % m,
    ;
    if r != 0 {
        let q = b / m;
        assert((m * q + m) % m == 0) by (nonlinear_arith)
            requires
                m > 0,
        ;
    }
}

/// Whether `len` bytes that are offered are refused where `left` are left
/// of the download: they are more than is left.
pub open spec fn refused(left: int, len: int) -> bool {
    len > left
}

/// What is left of a download after a portion of `len` bytes where `left`
/// were left: a portion that is taken counts, a portion that is refused
/// does not.
pub open spec fn left_after(left: int, len: int) -> int {
    if refused(left, len) {
        left
    } else {
        left - len
    }
}

/// What is left of a download of `size` bytes after portions of the
/// lengths `lens`, one after the other.  A portion is what one call took
/// or granted, or what it was offered and refused.
pub open spec fn left_after_all(size: int, lens: Seq<nat>) -> int
    decreases lens.len(),
{
    if lens.len() == 0 {
        size
    } else {
        left_after(left_after_all(size, lens.drop_last()), lens.last() as int)
    }
}

/// Whether one of the portions of the lengths `lens`, one after the other
/// to a download of `size` bytes, is refused.
pub open spec fn refused_any(size: int, lens: Seq<nat>) -> bool
    decreases lens.len(),
{
    lens.len() > 0 && (refused_any(size, lens.drop_last()) || refused(
        left_after_all(size, lens.drop_last()),
        lens.last() as int,
    ))
}

/// The sum of the lengths.
pub open spec fn total_len(lens: Seq<nat>) -> int
    decreases lens.len(),
{
    if lens.len() == 0 {
        0
    } else {
        total_len(lens.drop_last()) + lens.last()
    }
}

/// Where portions of `total` bytes in all come to a download of `size`
/// bytes and none is refused, `size - total` bytes are left.  Where `total`
/// is more than `size`, one of them is refused.
pub proof fn lemma_download_accounting(size: u32, lens: Seq<nat>)
    ensures
        0 <= left_after_all(size as int, lens) <= size,
        !refused_any(size as int, lens) ==> left_after_all(size as int, lens) == size - total_len(
            lens,
        ),
        total_len(lens) > size ==> refused_any(size as int, lens),
        total_len(lens) <= size ==> !refused_any(size as int, lens),
    decreases lens.len(),
{
    if lens.len() > 0 {
        lemma_download_accounting(size, lens.drop_last());
        lemma_total_len_nonnegative(lens.drop_last());
    }
}

/// A sum of lengths is not negative.
proof fn lemma_total_len_nonnegative(lens: Seq<nat>)
    ensures
        total_len(lens) >= 0,
    decreases lens.len(),
{
    if lens.len() > 0 {
        lemma_total_len_nonnegative(lens.drop_last());
    }
}

/// Data download helper
///
/// It is created when the device has answered a `download` command with
/// the size it will accept.  Data is added with
/// [DataDownload::extend_from_slice] or [DataDownload::get_mut_data]; after
/// all of it was added [DataDownload::finish] validates and hands out the
/// last buffer.
pub struct DataDownload {
    max_out: usize,
    size: u32,
    left: u32,
    current: Buffer,
}

impl DataDownload {
    /// Total size of the data transfer
    pub closed spec fn spec_size(&self) -> u32 {
        self.size
    }

    /// Data left to be sent/queued
    pub closed spec fn spec_left(&self) -> u32 {
        self.left
    }

    /// Largest packet of the endpoint that the data goes to
    pub closed spec fn max_packet_size(&self) -> usize {
        self.max_out
    }

    /// The bytes that were added and not yet handed out in a buffer
    pub closed spec fn collected(&self) -> Seq<u8> {
        buffer_bytes(self.current)
    }

    /// What the helper keeps to: no more is left than the size, the buffer
    /// it fills has the length for its endpoint, and holds no more.
    pub closed spec fn wf(&self) -> bool {
        &&& self.left <= self.size
        &&& self.max_out > 0
        &&& buffer_size(self.max_out) <= u32::MAX
        &&& buffer_limit(self.current) == buffer_size(self.max_out)
        &&& buffer_bytes(self.current).len() <= buffer_limit(self.current)
    }

    /// The bytes that stay in the buffer when more are asked for: all that
    /// were collected, unless they fill the buffer.
    pub open spec fn kept(&self) -> Seq<u8> {
        if self.collected().len() == self.buffer_len() {
            Seq::empty()
        } else {
            self.collected()
        }
    }

    /// The bytes that are granted where up to `max` are asked for: what
    /// the buffer has room for, and no more than `max`.
    pub open spec fn grant(&self, max: usize) -> int {
        let room = self.buffer_len() - self.kept().len();
        if room < max {
            room
        } else {
            max as int
        }
    }

    /// The bytes that are taken where `len` are offered: what the buffer
    /// has room for, and no more than `len`.
    pub open spec fn share(&self, len: int) -> int {
        let room = self.buffer_len() - self.collected().len();
        if room < len {
            room
        } else {
            len
        }
    }

    /// The bytes that were added so far
    pub open spec fn queued(&self) -> int {
        self.spec_size() - self.spec_left()
    }

    /// The length of the buffers that are handed out before the last one
    pub open spec fn buffer_len(&self) -> int {
        buffer_size(self.max_packet_size())
    }

    /// A download of `size` bytes to an endpoint whose largest packet has
    /// `max_out` bytes.
    pub(crate) fn new(max_out: usize, size: u32) -> (r: DataDownload)
        requires
            max_out > 0,
            buffer_size(max_out) <= u32::MAX,
        ensures
            r.wf(),
            r.spec_size() == size,
            r.spec_left() == size,
            r.max_packet_size() == max_out,
            r.collected() == Seq::<u8>::empty(),
    {
        let current = Self::allocate_buffer(max_out);
        Self { max_out, size, left: size, current }
    }

    /// Total size of the data transfer
    pub fn size(&self) -> (r: u32)
        ensures
            r == self.spec_size(),
    {
        self.size
    }

    /// Data left to be sent/queued
    pub fn left(&self) -> (r: u32)
        ensures
            r == self.spec_left(),
    {
        self.left
    }

    /// The error for `size` more bytes where fewer are left.
    fn too_long(&self, size: usize) -> (e: DownloadError)
        requires
            self.left <= self.size,
            size > self.left,
            self.size - self.left + size <= u32::MAX,
        ensures
            e == (DownloadError::IncorrectDataLength {
                expected: self.size,
                actual: (self.size - self.left + size) as u32,
            }),
    {
        DownloadError::IncorrectDataLength {
            expected: self.size,
            actual: (size - self.left as usize + self.size as usize) as u32,
        }
    }

    /// Counts `size` more bytes against what is left, or refuses them
    /// where they are more than that.
    fn update_size(&mut self, size: usize) -> (r: Result<(), DownloadError>)
        requires
            old(self).left <= old(self).size,
            old(self).size - old(self).left + size <= u32::MAX,
        ensures
            final(self).size == old(self).size,
            final(self).max_out == old(self).max_out,
            final(self).current == old(self).current,
            match r {
                Ok(_) => size <= old(self).left && final(self).left == old(self).left - size,
                Err(e) => size > old(self).left && final(self).left == old(self).left && e == (
                DownloadError::IncorrectDataLength {
                    expected: old(self).size,
                    actual: (old(self).size - old(self).left + size) as u32,
                }),
            },
    {
        if size > self.left as usize {
            return Err(self.too_long(size));
        }
        self.left -= size as u32;
        Ok(())
    }

    /// An empty buffer of the length for an endpoint whose largest packet
    /// has `max_out` bytes.
    fn allocate_buffer(max_out: usize) -> (buffer: Buffer)
        requires
            max_out > 0,
            buffer_size(max_out) <= u32::MAX,
        ensures
            buffer_bytes(buffer) == Seq::<u8>::empty(),
            buffer_limit(buffer) == buffer_size(max_out),
    {
        // Allocate about 1Mb of buffer ensuring it's always a multiple of the maximum out packet
        // size
        let rest: usize = BUFFER_BYTES % max_out;
        let size: usize = if rest == 0 {
            BUFFER_BYTES
        } else {
            BUFFER_BYTES + (max_out - rest)
        };
        buffer_new(size)
    }
}

impl DataDownload {
    /// Whether `len` more bytes can be offered: with them the bytes offered
    /// in all are no more than `u32::MAX`, so that they can be reported.
    pub fn can_extend(&self, len: usize) -> (r: bool)
        requires
            self.wf(),
        ensures
            r == (self.queued() + len <= u32::MAX),
    {
        len <= u32::MAX as usize && (self.size - self.left) as u64 + len as u64 <= u32::MAX as u64
    }

    /// Whether up to `max` more bytes can be asked for: with those that are
    /// granted the bytes offered in all are no more than `u32::MAX`, so
    /// that they can be reported.
    pub fn can_grant(&self, max: usize) -> (r: bool)
        requires
            self.wf(),
        ensures
            r == (self.queued() + self.grant(max) <= u32::MAX),
    {
        let limit: usize = buffer_requested_len(&self.current);
        let len: usize = buffer_len(&self.current);
        let room: usize = if len == limit {
            limit
        } else {
            limit - len
        };
        let size: usize = if room < max {
            room
        } else {
            max
        };
        (self.size - self.left) as u64 + size as u64 <= u32::MAX as u64
    }

    /// Takes the buffer that is being filled, if it holds anything, and
    /// starts a new one.  The buffer that is returned is to be submitted.
    pub fn next_buffer(&mut self) -> (r: Option<Buffer>)
        requires
            old(self).wf(),
        ensures
            final(self).wf(),
            final(self).spec_size() == old(self).spec_size(),
            final(self).spec_left() == old(self).spec_left(),
            final(self).max_packet_size() == old(self).max_packet_size(),
            match r {
                Some(buffer) => {
                    &&& old(self).collected().len() > 0
                    &&& buffer_bytes(buffer) == old(self).collected()
                    &&& final(self).collected() == Seq::<u8>::empty()
                },
                None => {
                    &&& old(self).collected().len() == 0
                    &&& final(self).collected() == old(self).collected()
                },
            },
    {
        // Hand out the current buffer if it has data
        if !buffer_is_empty(&self.current) {
            let mut buffer = Self::allocate_buffer(self.max_out);
            core::mem::swap(&mut buffer, &mut self.current);
            Some(buffer)
        } else {
            None
        }
    }

    /// Extend the streaming from a slice
    ///
    /// This copies as much of the data as the buffer that is being filled
    /// has room for, and tells how much that was.  Where data is left over,
    /// the buffer, which is full then, is returned to be submitted, and the
    /// data from there on is to be offered again.  The total amount of data
    /// being sent should not exceed the download size: data that does is
    /// refused as a whole.
    pub fn extend_from_slice(&mut self, data: &[u8]) -> (r: Result<
        (usize, Option<Buffer>),
        DownloadError,
    >)
        requires
            old(self).wf(),
            old(self).queued() + data@.len() <= u32::MAX,
        ensures
            final(self).wf(),
            final(self).spec_size() == old(self).spec_size(),
            final(self).max_packet_size() == old(self).max_packet_size(),
            r is Err <==> refused(old(self).spec_left() as int, data@.len() as int),
            match r {
                Ok((taken, full)) => {
                    &&& taken == old(self).share(data@.len() as int)
                    &&& final(self).spec_left() == left_after(
                        old(self).spec_left() as int,
                        taken as int,
                    )
                    &&& final(self).spec_left() == old(self).spec_left() - taken
                    &&& match full {
                        Some(buffer) => {
                            &&& taken < data@.len()
                            &&& buffer_bytes(buffer) == old(self).collected() + data@.take(
                                taken as int,
                            )
                            &&& buffer_bytes(buffer).len() == old(self).buffer_len()
                            &&& final(self).collected() == Seq::<u8>::empty()
                        },
                        None => {
                            &&& taken == data@.len()
                            &&& final(self).collected() == old(self).collected() + data@
                        },
                    }
                },
                Err(e) => {
                    &&& e == (DownloadError::IncorrectDataLength {
                        expected: old(self).spec_size(),
                        actual: (old(self).queued() + data@.len()) as u32,
                    })
                    &&& final(self).spec_left() == left_after(
                        old(self).spec_left() as int,
                        data@.len() as int,
                    )
                    &&& final(self).spec_left() == old(self).spec_left()
                    &&& final(self).collected() == old(self).collected()
                },
            },
    {
        if data.len() > self.left as usize {
            return Err(self.too_long(data.len()));
        }
        proof {
            lemma_buffer_size_aligned(self.max_out);
        }
        let room: usize = buffer_requested_len(&self.current) - buffer_len(&self.current);
        if room >= data.len() {
            buffer_extend_from_slice(&mut self.current, data);
            self.left -= data.len() as u32;
            Ok((data.len(), None))
        } else {
            let head = vstd::slice::slice_subrange(data, 0, room);
            assert(head@ =~= data@.take(room as int));
            buffer_extend_from_slice(&mut self.current, head);
            self.left -= room as u32;
            let full = self.next_buffer();
            Ok((room, full))
        }
    }

    /// This will provide a mutable reference to a [u8] of at most `max` size. The returned slice
    /// should be completely filled with data to be downloaded to the device
    ///
    /// Where the buffer that is being filled is full, it is returned to be
    /// submitted, and the slice lies in a new one.  The total amount of data
    /// should not exceed the download size
    pub fn get_mut_data(&mut self, max: usize) -> (r: (
        Option<Buffer>,
        Result<&mut [u8], DownloadError>,
    ))
        requires
            old(self).wf(),
            old(self).queued() + old(self).grant(max) <= u32::MAX,
        ensures
            final(self).wf(),
            final(self).spec_size() == old(self).spec_size(),
            final(self).max_packet_size() == old(self).max_packet_size(),
            r.1 is Err <==> refused(old(self).spec_left() as int, old(self).grant(max)),
            final(self).spec_left() == left_after(
                old(self).spec_left() as int,
                old(self).grant(max),
            ),
            match r.0 {
                Some(buffer) => old(self).collected().len() == old(self).buffer_len()
                    && buffer_bytes(buffer) == old(self).collected(),
                None => old(self).collected().len() < old(self).buffer_len(),
            },
            match r.1 {
                Ok(data) => {
                    &&& old(self).grant(max) <= old(self).spec_left()
                    &&& final(self).spec_left() == old(self).spec_left() - old(self).grant(max)
                    &&& data@ == Seq::new(old(self).grant(max) as nat, |i: int| 0u8)
                    &&& final(data)@.len() == old(self).grant(max)
                    &&& final(self).collected() == old(self).kept() + final(data)@
                },
                Err(e) => {
                    &&& old(self).grant(max) > old(self).spec_left()
                    &&& e == (DownloadError::IncorrectDataLength {
                        expected: old(self).spec_size(),
                        actual: (old(self).queued() + old(self).grant(max)) as u32,
                    })
                    &&& final(self).spec_left() == old(self).spec_left()
                    &&& final(self).collected() == old(self).kept()
                },
            },
    {
        proof {
            lemma_buffer_size_aligned(self.max_out);
        }
        let flushed = if buffer_requested_len(&self.current) == buffer_len(&self.current) {
            self.next_buffer()
        } else {
            None
        };
        let remaining: usize = buffer_requested_len(&self.current) - buffer_len(&self.current);
        let size: usize = if remaining < max {
            remaining
        } else {
            max
        };
        match self.update_size(size) {
            Ok(_) => {
                // Extend the buffer with zeroed data
                let slice = buffer_extend_fill(&mut self.current, size, 0);
                (flushed, Ok(slice))
            },
            Err(e) => (flushed, Err(e)),
        }
    }

    /// Whether to wait for a transfer to complete before another buffer is
    /// submitted, where `pending` transfers are under way.
    pub fn must_wait(pending: usize) -> (r: bool)
        ensures
            r == (pending >= MAX_PENDING),
    {
        pending >= MAX_PENDING
    }

    /// Finish the download
    ///
    /// This should only be called if all data has been queued up (matching
    /// the total size).  The buffer that is returned, if any, holds the
    /// last of the data and is to be submitted.  After that all transfers
    /// are awaited and the responses of the device are read.  A download
    /// of no data at all cannot be finished: nothing was queued.
    pub fn finish(self) -> (r: Result<Option<Buffer>, DownloadError>)
        requires
            self.wf(),
        ensures
            self.spec_size() == 0 ==> r == Err::<Option<Buffer>, DownloadError>(
                DownloadError::NothingQueued,
            ),
            match r {
                Ok(last) => {
                    &&& self.spec_size() > 0
                    &&& self.spec_left() == 0
                    &&& match last {
                        Some(buffer) => self.collected().len() > 0 && buffer_bytes(buffer)
                            == self.collected(),
                        None => self.collected().len() == 0,
                    }
                },
                Err(e) => if self.spec_size() == 0 {
                    e == DownloadError::NothingQueued
                } else {
                    &&& self.spec_left() != 0
                    &&& e == (DownloadError::IncorrectDataLength {
                        expected: self.spec_size(),
                        actual: self.queued() as u32,
                    })
                },
            },
    {
        if self.size == 0 {
            return Err(DownloadError::NothingQueued);
        }
        if self.left != 0 {
            return Err(
                DownloadError::IncorrectDataLength {
                    expected: self.size,
                    actual: self.size - self.left,
                },
            );
        }
        if !buffer_is_empty(&self.current) {
            Ok(Some(self.current))
        } else {
            Ok(None)
        }
    }
}

} // verus!
