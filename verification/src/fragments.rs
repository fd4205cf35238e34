//! What the chunks of a fragment add up to.
//!
//! A fragment is a sequence of chunks.  The sums here measure one fragment
//! or a sequence of fragments: the blocks they stand for, the bytes they
//! take on the wire, and the bytes they read from the input.

use crate::sparse::{
    ChunkHeader, ChunkType, FileHeader, CHUNK_HEADER_BYTES_LEN, FILE_HEADER_BYTES_LEN,
};
use crate::split::SplitChunk;
use vstd::prelude::*;

verus! {

/// The chunk that skips to block `blocks`.
pub open spec fn seek_chunk(blocks: int) -> SplitChunk {
    SplitChunk {
        header: ChunkHeader {
            chunk_type: ChunkType::DontCare,
            chunk_size: blocks as u32,
            total_size: CHUNK_HEADER_BYTES_LEN as u32,
        },
        offset: 0,
        size: 0,
    }
}

/// An input chunk taken over as it is, with its payload at `source`.
pub open spec fn whole_chunk(chunk: ChunkHeader, source: int) -> SplitChunk {
    SplitChunk { header: chunk, offset: source as usize, size: chunk.payload_size() as usize }
}

/// A raw chunk of `blocks` blocks whose payload lies at `source`.
pub open spec fn raw_chunk(blocks: int, block_size: u32, source: int) -> SplitChunk {
    SplitChunk {
        header: ChunkHeader {
            chunk_type: ChunkType::Raw,
            chunk_size: blocks as u32,
            total_size: (CHUNK_HEADER_BYTES_LEN + blocks * block_size) as u32,
        },
        offset: source as usize,
        size: (blocks * block_size) as usize,
    }
}

/// Blocks that the chunks stand for: the sum of their `chunk_size`.
pub open spec fn blocks_of(chunks: Seq<SplitChunk>) -> int
    decreases chunks.len(),
{
    if chunks.len() == 0 {
        0
    } else {
        blocks_of(chunks.drop_last()) + chunks.last().header.chunk_size
    }
}

/// Bytes that the chunks take on the wire: the sum of their `total_size`.
pub open spec fn bytes_of(chunks: Seq<SplitChunk>) -> int
    decreases chunks.len(),
{
    if chunks.len() == 0 {
        0
    } else {
        bytes_of(chunks.drop_last()) + chunks.last().header.total_size
    }
}

/// Blocks that the chunks write: the sum of `chunk_size` over all of them but
/// the seeks.
pub open spec fn data_blocks(chunks: Seq<SplitChunk>) -> int
    decreases chunks.len(),
{
    if chunks.len() == 0 {
        0
    } else {
        data_blocks(chunks.drop_last()) + if chunks.last().is_seek() {
            0
        } else {
            chunks.last().header.chunk_size as int
        }
    }
}

/// Bytes that the chunks read from the input: the sum of `size` over all of
/// them but the seeks.
pub open spec fn data_bytes(chunks: Seq<SplitChunk>) -> int
    decreases chunks.len(),
{
    if chunks.len() == 0 {
        0
    } else {
        data_bytes(chunks.drop_last()) + if chunks.last().is_seek() {
            0
        } else {
            chunks.last().size as int
        }
    }
}

/// Blocks of raw data among the chunks: the sum of `chunk_size` over the raw
/// chunks.
pub open spec fn raw_blocks(chunks: Seq<SplitChunk>) -> int
    decreases chunks.len(),
{
    if chunks.len() == 0 {
        0
    } else {
        raw_blocks(chunks.drop_last()) + if chunks.last().header.chunk_type == ChunkType::Raw {
            chunks.last().header.chunk_size as int
        } else {
            0
        }
    }
}

/// Blocks of the chunks that are no skipped range: the sum of `chunk_size`
/// over all chunks but those of type `DontCare`.
pub open spec fn kept_blocks(chunks: Seq<SplitChunk>) -> int
    decreases chunks.len(),
{
    if chunks.len() == 0 {
        0
    } else {
        kept_blocks(chunks.drop_last()) + if chunks.last().header.chunk_type
            == ChunkType::DontCare {
            0
        } else {
            chunks.last().header.chunk_size as int
        }
    }
}

/// The block at which a fragment starts: what its leading seek skips, and 0
/// where it has none.
pub open spec fn lead_blocks(chunks: Seq<SplitChunk>) -> int {
    if chunks.len() > 0 && chunks[0].is_seek() {
        chunks[0].header.chunk_size as int
    } else {
        0
    }
}

/// The file header of a fragment made of `chunks`.
pub open spec fn summary(chunks: Seq<SplitChunk>, block_size: u32) -> FileHeader {
    FileHeader {
        block_size,
        blocks: blocks_of(chunks) as u32,
        chunks: chunks.len() as u32,
        checksum: 0,
    }
}

/// Bytes of a sparse image with these chunks, file header included.
pub open spec fn image_size(chunks: Seq<SplitChunk>) -> int {
    FILE_HEADER_BYTES_LEN + bytes_of(chunks)
}

/// What one more chunk adds to the sums.
pub(crate) proof fn lemma_sums_push(chunks: Seq<SplitChunk>, chunk: SplitChunk)
    ensures
        blocks_of(chunks.push(chunk)) == blocks_of(chunks) + chunk.header.chunk_size,
        bytes_of(chunks.push(chunk)) == bytes_of(chunks) + chunk.header.total_size,
        data_blocks(chunks.push(chunk)) == data_blocks(chunks) + if chunk.is_seek() {
            0
        } else {
            chunk.header.chunk_size as int
        },
        data_bytes(chunks.push(chunk)) == data_bytes(chunks) + if chunk.is_seek() {
            0
        } else {
            chunk.size as int
        },
        raw_blocks(chunks.push(chunk)) == raw_blocks(chunks) + if chunk.header.chunk_type
            == ChunkType::Raw {
            chunk.header.chunk_size as int
        } else {
            0
        },
        kept_blocks(chunks.push(chunk)) == kept_blocks(chunks) + if chunk.header.chunk_type
            == ChunkType::DontCare {
            0
        } else {
            chunk.header.chunk_size as int
        },
{
    assert(chunks.push(chunk).drop_last() =~= chunks);
}

/// The sum of `data_blocks` over the fragments.
pub open spec fn total_data_blocks(fragments: Seq<Seq<SplitChunk>>) -> int
    decreases fragments.len(),
{
    if fragments.len() == 0 {
        0
    } else {
        total_data_blocks(fragments.drop_last()) + data_blocks(fragments.last())
    }
}

/// The sum of `data_bytes` over the fragments.
pub open spec fn total_data_bytes(fragments: Seq<Seq<SplitChunk>>) -> int
    decreases fragments.len(),
{
    if fragments.len() == 0 {
        0
    } else {
        total_data_bytes(fragments.drop_last()) + data_bytes(fragments.last())
    }
}

/// The sum of `raw_blocks` over the fragments.
pub open spec fn total_raw_blocks(fragments: Seq<Seq<SplitChunk>>) -> int
    decreases fragments.len(),
{
    if fragments.len() == 0 {
        0
    } else {
        total_raw_blocks(fragments.drop_last()) + raw_blocks(fragments.last())
    }
}

/// The sum of `kept_blocks` over the fragments.
pub open spec fn total_kept_blocks(fragments: Seq<Seq<SplitChunk>>) -> int
    decreases fragments.len(),
{
    if fragments.len() == 0 {
        0
    } else {
        total_kept_blocks(fragments.drop_last()) + kept_blocks(fragments.last())
    }
}

/// Whether each fragment starts at the block that the fragments before it
/// have reached: its leading seek skips what their chunks wrote.
pub open spec fn starts_in_order(fragments: Seq<Seq<SplitChunk>>) -> bool
    decreases fragments.len(),
{
    fragments.len() == 0 || (starts_in_order(fragments.drop_last()) && lead_blocks(
        fragments.last(),
    ) == total_data_blocks(fragments.drop_last()))
}

/// Whether a fragment can be written out within `size` bytes, with a header
/// whose counts are exact.
pub open spec fn fits(chunks: Seq<SplitChunk>, size: u32, count: int) -> bool {
    &&& image_size(chunks) <= size
    &&& blocks_of(chunks) <= u32::MAX
    &&& chunks.len() <= count
}

/// What one more fragment adds to the sums over fragments.
pub(crate) proof fn lemma_totals_push(fragments: Seq<Seq<SplitChunk>>, chunks: Seq<SplitChunk>)
    ensures
        total_data_blocks(fragments.push(chunks)) == total_data_blocks(fragments) + data_blocks(
            chunks,
        ),
        total_data_bytes(fragments.push(chunks)) == total_data_bytes(fragments) + data_bytes(
            chunks,
        ),
        total_raw_blocks(fragments.push(chunks)) == total_raw_blocks(fragments) + raw_blocks(
            chunks,
        ),
        total_kept_blocks(fragments.push(chunks)) == total_kept_blocks(fragments) + kept_blocks(
            chunks,
        ),
        starts_in_order(fragments.push(chunks)) <==> starts_in_order(fragments) && lead_blocks(
            chunks,
        ) == total_data_blocks(fragments),
{
    assert(fragments.push(chunks).drop_last() =~= fragments);
}

/// The sums over chunks are not negative.
pub(crate) proof fn lemma_sums_nonnegative(chunks: Seq<SplitChunk>)
    ensures
        blocks_of(chunks) >= 0,
        bytes_of(chunks) >= 0,
        data_blocks(chunks) >= 0,
        data_bytes(chunks) >= 0,
    decreases chunks.len(),
{
    if chunks.len() > 0 {
        lemma_sums_nonnegative(chunks.drop_last());
    }
}

/// The sums over the first `n` chunks are no more than the sums over all.
pub(crate) proof fn lemma_sums_prefix(chunks: Seq<SplitChunk>, n: int)
    requires
        0 <= n <= chunks.len(),
    ensures
        0 <= blocks_of(chunks.take(n)) <= blocks_of(chunks),
        0 <= bytes_of(chunks.take(n)) <= bytes_of(chunks),
    decreases chunks.len() - n,
{
    lemma_sums_nonnegative(chunks.take(n));
    if n < chunks.len() {
        lemma_sums_prefix(chunks, n + 1);
        assert(chunks.take(n + 1).drop_last() =~= chunks.take(n));
    } else {
        assert(chunks.take(n) =~= chunks);
    }
}

/// The bytes that the chunks read from the input `file`, one chunk after
/// the other: for each chunk `size` bytes from `offset` on.
pub open spec fn read_of(chunks: Seq<SplitChunk>, file: Seq<u8>) -> Seq<u8>
    decreases chunks.len(),
{
    if chunks.len() == 0 {
        Seq::empty()
    } else {
        read_of(chunks.drop_last(), file) + file.subrange(
            chunks.last().offset as int,
            chunks.last().offset + chunks.last().size,
        )
    }
}

/// The bytes that the fragments read from the input `file`, one fragment
/// after the other.
pub open spec fn total_read(fragments: Seq<Seq<SplitChunk>>, file: Seq<u8>) -> Seq<u8>
    decreases fragments.len(),
{
    if fragments.len() == 0 {
        Seq::empty()
    } else {
        total_read(fragments.drop_last(), file) + read_of(fragments.last(), file)
    }
}

/// What one more chunk adds to the bytes read.
pub(crate) proof fn lemma_read_push(chunks: Seq<SplitChunk>, chunk: SplitChunk, file: Seq<u8>)
    ensures
        read_of(chunks.push(chunk), file) == read_of(chunks, file) + file.subrange(
            chunk.offset as int,
            chunk.offset + chunk.size,
        ),
{
    assert(chunks.push(chunk).drop_last() =~= chunks);
}

/// What one more fragment adds to the bytes read.
pub(crate) proof fn lemma_total_read_push(
    fragments: Seq<Seq<SplitChunk>>,
    chunks: Seq<SplitChunk>,
    file: Seq<u8>,
)
    ensures
        total_read(fragments.push(chunks), file) == total_read(fragments, file) + read_of(
            chunks,
            file,
        ),
{
    assert(fragments.push(chunks).drop_last() =~= fragments);
}

} // verus!
