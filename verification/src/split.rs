//! Helpers to split an image into multiple smaller ones.
//!
//! A device accepts only so many bytes in one download.  An image that is
//! larger is cut into fragments, each a sparse image of its own that fits the
//! limit.  A fragment that does not start at block 0 opens with a chunk that
//! skips the blocks which earlier fragments have written, so that flashing the
//! fragments one after the other rebuilds the whole image.
//!
//! The fragments are described, not built: each chunk of a fragment names the
//! bytes of the input file that follow its header.

use crate::fragments::{
    blocks_of, image_size, lemma_sums_nonnegative, lemma_sums_prefix, raw_chunk, summary,
    whole_chunk,
};
use crate::plan::{
    fresh_chunks, fresh_space, input_blocks, input_bytes, lemma_fresh_chunks, lemma_fresh_room,
    lemma_input_prefix, lemma_raw_take, minimal_size, raw_block_count, raw_room, raw_split_plan,
    split_plan, splittable, Plan,
};
use crate::sparse::{
    ChunkHeader, ChunkType, FileHeader, CHUNK_HEADER_BYTES_LEN, DEFAULT_BLOCKSIZE,
    FILE_HEADER_BYTES_LEN,
};
use crate::split_lemmas::{lemma_split_image_fits, lemma_split_raw_fits};
use vstd::prelude::*;

verus! {

/// A definition of one chunk of a split image; When writing out or downloading to a device the
/// (chunk) header should be written out first followed by size bytes from the input file from
/// offset (in bytes) onwards
#[derive(Clone, Debug, PartialEq, Eq)]
pub struct SplitChunk {
    /// Chunk header
    pub header: ChunkHeader,
    /// Offset in the input file for the chunk data
    pub offset: usize,
    /// Amount of data to be copied from the input file (in bytes)
    pub size: usize,
}

/// A definition of a split sparse image; When writing out or downloading to a device the  (file)
/// header should be written first followed by each chunk
#[derive(Clone, Debug, PartialEq, Eq)]
pub struct Split {
    /// Global file header
    pub header: FileHeader,
    /// List of data chunks
    pub chunks: Vec<SplitChunk>,
}

/// Why an image could not be split
#[derive(Clone, Copy, Debug, PartialEq, Eq)]
pub enum SplitError {
    /// Size is too small to fit chunks
    TooSmall,
}

impl SplitChunk {
    /// Whether this chunk only moves the write position: a skipped range
    /// that reads nothing from the input.  Fragments open with such a chunk.
    pub open spec fn is_seek(&self) -> bool {
        self.header.chunk_type == ChunkType::DontCare && self.offset == 0 && self.size == 0
    }
}

impl Split {
    /// Whether this fragment is made of `chunks`, with the header that sums
    /// them up.
    pub open spec fn is_fragment(&self, chunks: Seq<SplitChunk>, block_size: u32) -> bool {
        self.chunks@ == chunks && self.header == summary(chunks, block_size)
    }

    /// Whether this fragment can be written out within `size` bytes, with
    /// a header that counts its blocks and its chunks exactly.
    pub open spec fn within(&self, size: u32) -> bool {
        &&& image_size(self.chunks@) <= size
        &&& self.header.blocks == blocks_of(self.chunks@)
        &&& self.header.chunks == self.chunks@.len()
        &&& self.header.checksum == 0
    }

    /// The fragment made of `chunks`, with the header that sums them up.
    fn from_chunks(chunks: Vec<SplitChunk>, block_size: u32) -> (r: Self)
        requires
            chunks@.len() <= u32::MAX,
            blocks_of(chunks@) <= u32::MAX,
        ensures
            r.is_fragment(chunks@, block_size),
    {
        let n_chunks: u32 = chunks.len() as u32;
        let mut blocks: u32 = 0;
        let mut i: usize = 0;
        while i < chunks.len()
            invariant
                i <= chunks@.len(),
                blocks == blocks_of(chunks@.take(i as int)),
                blocks_of(chunks@) <= u32::MAX,
            decreases chunks@.len() - i,
        {
            proof {
                lemma_sums_prefix(chunks@, i + 1);
                assert(chunks@.take(i + 1).drop_last() =~= chunks@.take(i as int));
            }
            blocks = blocks + chunks[i].header.chunk_size;
            i += 1;
        }
        assert(chunks@.take(i as int) =~= chunks@);
        let header = FileHeader { block_size, blocks, chunks: n_chunks, checksum: 0 };
        Split { header, chunks }
    }

    /// Total size of the sparse image that would be generated when writing out the split
    pub fn sparse_size(&self) -> (r: usize)
        requires
            image_size(self.chunks@) <= usize::MAX,
        ensures
            r == image_size(self.chunks@),
    {
        let mut total: usize = FILE_HEADER_BYTES_LEN;
        let mut i: usize = 0;
        while i < self.chunks.len()
            invariant
                i <= self.chunks@.len(),
                total == image_size(self.chunks@.take(i as int)),
                image_size(self.chunks@) <= usize::MAX,
            decreases self.chunks@.len() - i,
        {
            proof {
                lemma_sums_prefix(self.chunks@, i + 1);
                assert(self.chunks@.take(i + 1).drop_last() =~= self.chunks@.take(i as int));
            }
            total = total + self.chunks[i].header.total_size as usize;
            i += 1;
        }
        assert(self.chunks@.take(i as int) =~= self.chunks@);
        total
    }
}

/// Whether `splits` are the fragments of `plan`, each with the header that
/// sums up its chunks.
pub open spec fn describes(
    splits: Seq<Split>,
    plan: Seq<Seq<SplitChunk>>,
    block_size: u32,
) -> bool {
    &&& splits.len() == plan.len()
    &&& forall|k: int|
        0 <= k < splits.len() ==> (#[trigger] splits[k]).is_fragment(plan[k], block_size)
}

/// A fragment that is being filled.
struct SplitBuilder {
    space: u32,
    block_size: u32,
    chunks: Vec<SplitChunk>,
}

impl SplitBuilder {
    /// A fragment of at most `space` bytes that starts at block
    /// `blocks_offset`: it opens with a seek to that block, unless it is
    /// block 0.
    fn new(block_size: u32, space: u32, blocks_offset: u32) -> (r: Self)
        requires
            space >= FILE_HEADER_BYTES_LEN,
            blocks_offset != 0 ==> space >= FILE_HEADER_BYTES_LEN + CHUNK_HEADER_BYTES_LEN,
        ensures
            r.block_size == block_size,
            r.space == fresh_space(space, blocks_offset as int),
            r.chunks@ == fresh_chunks(blocks_offset as int),
    {
        let mut space: u32 = space - FILE_HEADER_BYTES_LEN as u32;
        let mut chunks: Vec<SplitChunk> = Vec::new();
        if blocks_offset != 0 {
            // Seek to the offset first
            let header = ChunkHeader::new_dontcare(blocks_offset);
            space -= header.total_size;
            chunks.push(SplitChunk { header, offset: 0, size: 0 });
        }
        assert(chunks@ =~= fresh_chunks(blocks_offset as int));
        Self { space, block_size, chunks }
    }

    /// Adds the chunk whole if it leaves a byte of the space over; tells
    /// whether it did.
    fn try_add_chunk(&mut self, chunk: &ChunkHeader, image_offset: usize) -> (added: bool)
        ensures
            added == (old(self).space > chunk.total_size),
            final(self).block_size == old(self).block_size,
            added ==> final(self).chunks@ == old(self).chunks@.push(
                whole_chunk(*chunk, image_offset as int),
            ) && final(self).space == old(self).space - chunk.total_size,
            !added ==> final(self).chunks@ == old(self).chunks@ && final(self).space == old(
                self,
            ).space,
    {
        if self.space > chunk.total_size {
            let header = ChunkHeader {
                chunk_type: chunk.chunk_type,
                chunk_size: chunk.chunk_size,
                total_size: chunk.total_size,
            };
            let split = SplitChunk { header, offset: image_offset, size: chunk.data_size() };
            self.chunks.push(split);
            self.space -= chunk.total_size;
            true
        } else {
            false
        }
    }

    /// Add as much raw data as possible, returning the blocks taken up
    fn add_raw(&mut self, image_offset: usize, blocks: u32) -> (took: u32)
        requires
            old(self).block_size > 0,
        ensures
            final(self).block_size == old(self).block_size,
            raw_room(old(self).space as int, old(self).block_size) > 0 ==> {
                &&& took == if blocks <= raw_room(old(self).space as int, old(self).block_size) {
                    blocks as int
                } else {
                    raw_room(old(self).space as int, old(self).block_size)
                }
                &&& final(self).chunks@ == old(self).chunks@.push(
                    raw_chunk(took as int, old(self).block_size, image_offset as int),
                )
                &&& final(self).space == old(self).space - CHUNK_HEADER_BYTES_LEN - took * old(
                    self,
                ).block_size
            },
            raw_room(old(self).space as int, old(self).block_size) <= 0 ==> {
                &&& took == 0
                &&& final(self).chunks@ == old(self).chunks@
                &&& final(self).space == old(self).space
            },
    {
        let left: u32 = self.space.saturating_sub(CHUNK_HEADER_BYTES_LEN as u32);
        let blocks_left: u32 = left / self.block_size;
        if blocks_left > 0 {
            let blocks: u32 = if blocks < blocks_left {
                blocks
            } else {
                blocks_left
            };
            proof {
                lemma_raw_take(self.space as int, self.block_size, blocks as int);
            }
            let header = ChunkHeader::new_raw(blocks, self.block_size);
            self.space -= header.total_size;
            let size: usize = header.data_size();
            self.chunks.push(SplitChunk { size, offset: image_offset, header });
            blocks
        } else {
            0
        }
    }

    /// The fragment as it is.
    fn finish(self) -> (r: Split)
        requires
            self.chunks@.len() <= u32::MAX,
            blocks_of(self.chunks@) <= u32::MAX,
        ensures
            r.is_fragment(self.chunks@, self.block_size),
    {
        Split::from_chunks(self.chunks, self.block_size)
    }
}

/// Whether `size` has room for the smallest fragment with raw data.
fn check_minimal_size(size: u32, block_size: u32) -> (r: Result<(), SplitError>)
    ensures
        r is Ok <==> size >= minimal_size(block_size),
{
    // At the very least the size we split into should be enough to have:
    // * A file header
    // * A Chunk header for an initial don't care block
    // * A Chunk header for a raw block and a single block
    if (size as u64) < FILE_HEADER_BYTES_LEN as u64 + 2 * CHUNK_HEADER_BYTES_LEN as u64
        + block_size as u64 {
        return Err(SplitError::TooSmall);
    }
    Ok(())
}

/// One more split that is a fragment of the plan.
proof fn lemma_describes_push(
    splits: Seq<Split>,
    plan: Seq<Seq<SplitChunk>>,
    split: Split,
    chunks: Seq<SplitChunk>,
    block_size: u32,
)
    requires
        describes(splits, plan, block_size),
        split.is_fragment(chunks, block_size),
    ensures
        describes(splits.push(split), plan.push(chunks), block_size),
{
    assert forall|k: int| 0 <= k < splits.push(split).len() implies (#[trigger] splits.push(
        split,
    )[k]).is_fragment(plan.push(chunks)[k], block_size) by {
        if k < splits.len() {
            assert(splits.push(split)[k] == splits[k]);
        }
    }
}

/// Whether `split_image` takes the image: see `splittable`.
pub fn can_split(header: &FileHeader, chunks: &[ChunkHeader]) -> (r: bool)
    ensures
        r == splittable(*header, chunks@),
{
    if header.block_size == 0 || chunks.len() >= u32::MAX as usize {
        return false;
    }
    let mut blocks: u64 = 0;
    let mut bytes: u64 = 0;
    let mut i: usize = 0;
    while i < chunks.len()
        invariant
            i <= chunks@.len() < u32::MAX,
            header.block_size > 0,
            blocks == input_blocks(chunks@.take(i as int)),
            bytes == input_bytes(chunks@.take(i as int)),
            blocks <= i * u32::MAX,
            bytes <= i * u32::MAX,
            forall|j: int|
                0 <= j < i && (#[trigger] chunks@[j]).chunk_type == ChunkType::Raw
                    ==> chunks@[j].chunk_size * header.block_size <= chunks@[j].payload_size(),
        decreases chunks@.len() - i,
    {
        let chunk = &chunks[i];
        proof {
            lemma_input_prefix(chunks@, i as int);
            assert(i * u32::MAX + u32::MAX == (i + 1) * u32::MAX) by (nonlinear_arith);
            assert(i * u32::MAX <= 0xffff_ffff * 0xffff_ffff) by (nonlinear_arith)
                requires
                    i <= 0xffff_ffff,
            ;
            vstd::arithmetic::mul::lemma_mul_nonnegative(
                chunk.chunk_size as int,
                header.block_size as int,
            );
            assert(chunk.chunk_size * header.block_size <= 0xffff_ffff * 0xffff_ffff)
                by (nonlinear_arith)
                requires
                    chunk.chunk_size <= 0xffff_ffff,
                    header.block_size <= 0xffff_ffff,
            ;
        }
        if chunk.chunk_type == ChunkType::Raw && chunk.chunk_size as u64
            * header.block_size as u64 > chunk.data_size() as u64 {
            return false;
        }
        blocks = blocks + chunk.chunk_size as u64;
        bytes = bytes + chunk.total_size as u64;
        i += 1;
    }
    assert(chunks@.take(i as int) =~= chunks@);
    blocks <= u32::MAX as u64 && bytes <= usize::MAX as u64 && bytes + (FILE_HEADER_BYTES_LEN
        + CHUNK_HEADER_BYTES_LEN) as u64 <= usize::MAX as u64
}

/// Split an existing sparse image based on its file header and chunks into multiple splits fitting
/// into the given `size`
pub fn split_image(header: &FileHeader, chunks: &[ChunkHeader], size: u32) -> (r: Result<
    Vec<Split>,
    SplitError,
>)
    requires
        splittable(*header, chunks@),
    ensures
        match r {
            Ok(splits) => split_plan(*header, chunks@, size) matches Some(plan) && describes(
                splits@,
                plan,
                header.block_size,
            ),
            Err(_) => split_plan(*header, chunks@, size) is None,
        },
        r matches Ok(splits) ==> forall|k: int|
            0 <= k < splits@.len() ==> (#[trigger] splits@[k]).within(size),
{
    let block_size: u32 = header.block_size;
    match check_minimal_size(size, block_size) {
        Ok(_) => {},
        Err(e) => {
            return Err(e);
        },
    }
    // output offset in blocks
    let mut block_offset: u32 = 0;
    // Start of the first data area (after initial file and chunk header
    let mut image_offset: usize = FILE_HEADER_BYTES_LEN + CHUNK_HEADER_BYTES_LEN;
    let mut builder = SplitBuilder::new(block_size, size, 0);
    // Splits collector
    let mut splits: Vec<Split> = Vec::new();
    let ghost first = Plan::start(size, FILE_HEADER_BYTES_LEN + CHUNK_HEADER_BYTES_LEN);
    let ghost mut plan = first;
    proof {
        Plan::lemma_start(size, FILE_HEADER_BYTES_LEN + CHUNK_HEADER_BYTES_LEN);
        assert(chunks@.take(0) =~= Seq::empty());
    }
    let mut i: usize = 0;
    while i < chunks.len()
        invariant
            i <= chunks@.len(),
            splittable(*header, chunks@),
            block_size == header.block_size,
            size >= minimal_size(block_size),
            first == Plan::start(size, FILE_HEADER_BYTES_LEN + CHUNK_HEADER_BYTES_LEN),
            plan.sound(size, i + 1),
            plan.place_from(chunks@, i as int, size, block_size) == first.place_from(
                chunks@,
                0,
                size,
                block_size,
            ),
            plan.blocks == block_offset,
            plan.blocks == input_blocks(chunks@.take(i as int)),
            plan.cursor == image_offset,
            plan.cursor == FILE_HEADER_BYTES_LEN + CHUNK_HEADER_BYTES_LEN + input_bytes(
                chunks@.take(i as int),
            ),
            builder.chunks@ == plan.open,
            builder.space == plan.space,
            builder.block_size == block_size,
            describes(splits@, plan.done, block_size),
        decreases chunks@.len() - i,
    {
        let chunk = &chunks[i];
        let ghost before = plan;
        proof {
            lemma_input_prefix(chunks@, i as int);
            lemma_input_prefix(chunks@, i + 1);
            plan.lemma_place(*chunk, size, block_size, i + 1);
        }
        if !builder.try_add_chunk(chunk, image_offset) {
            if chunk.chunk_type == ChunkType::Raw {
                // Try packing in partial chunks
                let mut blocks: u32 = 0;
                let ghost target = plan.spread_raw(size, block_size, chunk.chunk_size as nat);
                loop
                    invariant_except_break
                        plan.spread_raw(size, block_size, (chunk.chunk_size - blocks) as nat)
                            == target,
                        plan.open.len() < i + 2,
                    invariant
                        i < chunks@.len(),
                        chunk == chunks@[i as int],
                        chunk.chunk_type == ChunkType::Raw,
                        splittable(*header, chunks@),
                        block_size == header.block_size,
                        size >= minimal_size(block_size),
                        blocks <= chunk.chunk_size,
                        block_offset + chunk.chunk_size <= u32::MAX,
                        image_offset + chunk.total_size <= usize::MAX,
                        plan.sound(size, i + 2),
                        plan.blocks == block_offset + blocks,
                        plan.cursor == image_offset + blocks * block_size,
                        builder.chunks@ == plan.open,
                        builder.space == plan.space,
                        builder.block_size == block_size,
                        describes(splits@, plan.done, block_size),
                    ensures
                        plan == target,
                    decreases
                            chunk.chunk_size - blocks,
                            (if raw_room(builder.space as int, block_size) > 0 {
                                0int
                            } else {
                                1int
                            }),
                {
                    let ghost room = raw_room(plan.space, block_size);
                    proof {
                        assert(blocks * block_size <= chunk.chunk_size * block_size)
                            by (nonlinear_arith)
                            requires
                                0 <= blocks <= chunk.chunk_size,
                                block_size > 0,
                        ;
                        lemma_sums_nonnegative(plan.open);
                    }
                    let took: u32 = builder.add_raw(
                        image_offset + blocks as usize * block_size as usize,
                        chunk.chunk_size - blocks,
                    );
                    proof {
                        if room > 0 {
                            lemma_raw_take(plan.space, block_size, took as int);
                            let piece = raw_chunk(took as int, block_size, plan.cursor);
                            let filled = plan.take_raw(took as int, block_size);
                            assert(filled == plan.with_chunk(
                                piece,
                                plan.cursor + took * block_size,
                            ));
                            plan.lemma_with_chunk(
                                piece,
                                plan.cursor + took * block_size,
                                size,
                                i + 2,
                            );
                            assert((blocks + took) * block_size == blocks * block_size + took
                                * block_size) by (nonlinear_arith);
                            plan = filled;
                        }
                    }
                    blocks += took;
                    if blocks >= chunk.chunk_size {
                        break ;
                    } else {
                        proof {
                            plan.lemma_turn(size, i + 2);
                            lemma_fresh_room(size, block_size, plan.blocks);
                            plan = plan.turn(size);
                        }
                        let full = builder.finish();
                        proof {
                            lemma_describes_push(
                                splits@,
                                plan.done.drop_last(),
                                full,
                                plan.done.last(),
                                block_size,
                            );
                            assert(plan.done.drop_last().push(plan.done.last()) =~= plan.done);
                        }
                        splits.push(full);
                        builder = SplitBuilder::new(block_size, size, block_offset + blocks);
                    }
                }
                proof {
                    plan = Plan { cursor: before.cursor + chunk.total_size, ..plan };
                }
            } else {
                proof {
                    plan.lemma_turn(size, i + 1);
                    plan = plan.turn(size);
                }
                let full = builder.finish();
                proof {
                    lemma_describes_push(
                        splits@,
                        plan.done.drop_last(),
                        full,
                        plan.done.last(),
                        block_size,
                    );
                    assert(plan.done.drop_last().push(plan.done.last()) =~= plan.done);
                }
                splits.push(full);
                builder = SplitBuilder::new(block_size, size, block_offset);
                if !builder.try_add_chunk(chunk, image_offset) {
                    assert(before.place(*chunk, size, block_size) is None);
                    return Err(SplitError::TooSmall);
                }
                proof {
                    plan = plan.take_whole(*chunk);
                }
            }
        } else {
            proof {
                plan = plan.take_whole(*chunk);
            }
        }
        assert(before.place(*chunk, size, block_size) == Some(plan));
        block_offset += chunk.chunk_size;
        image_offset += chunk.total_size as usize;
        i += 1;
    }
    let last = builder.finish();
    proof {
        lemma_describes_push(splits@, plan.done, last, plan.open, block_size);
        lemma_split_image_fits(*header, chunks@, size);
    }
    splits.push(last);
    proof {
        let fragments = split_plan(*header, chunks@, size)->Some_0;
        assert forall|k: int| 0 <= k < splits@.len() implies (#[trigger] splits@[k]).within(
            size,
        ) by {
            assert(splits@[k].is_fragment(fragments[k], block_size));
        }
    }
    Ok(splits)
}

/// Generate a set of splits for a raw image of a given `raw_size` each fitting within `size`; The
/// raw size is rounded up to multiple of [DEFAULT_BLOCKSIZE] as that's the minimal granularity.
/// When writing out the android sparse image the data should just be padded as needed as well!
pub fn split_raw(raw_size: usize, size: u32) -> (r: Result<Vec<Split>, SplitError>)
    requires
        raw_block_count(raw_size as int) <= u32::MAX,
    ensures
        match r {
            Ok(splits) => raw_split_plan(raw_size, size) matches Some(plan) && describes(
                splits@,
                plan,
                DEFAULT_BLOCKSIZE,
            ),
            Err(_) => raw_split_plan(raw_size, size) is None,
        },
        r matches Ok(splits) ==> forall|k: int|
            0 <= k < splits@.len() ==> (#[trigger] splits@[k]).within(size),
{
    match check_minimal_size(size, DEFAULT_BLOCKSIZE) {
        Ok(_) => {},
        Err(e) => {
            return Err(e);
        },
    }
    let whole: usize = raw_size / DEFAULT_BLOCKSIZE as usize;
    let raw_blocks: u32 = if raw_size % DEFAULT_BLOCKSIZE as usize == 0 {
        whole as u32
    } else {
        (whole + 1) as u32
    };
    assert(raw_blocks == raw_block_count(raw_size as int));

    let mut block_offset: u32 = 0;
    let mut splits: Vec<Split> = Vec::new();
    let ghost target = Plan::start(size, 0).spread_raw(size, DEFAULT_BLOCKSIZE, raw_blocks as nat);
    let ghost mut plan = Plan::start(size, 0);
    proof {
        Plan::lemma_start(size, 0);
    }
    while raw_blocks > block_offset
        invariant
            size >= minimal_size(DEFAULT_BLOCKSIZE),
            raw_blocks == raw_block_count(raw_size as int),
            block_offset <= raw_blocks,
            block_offset < raw_blocks ==> {
                &&& plan.spread_raw(size, DEFAULT_BLOCKSIZE, (raw_blocks - block_offset) as nat)
                    == target
                &&& plan.open == fresh_chunks(block_offset as int)
                &&& plan.space == fresh_space(size, block_offset as int)
                &&& plan.blocks == block_offset
                &&& plan.cursor == block_offset * DEFAULT_BLOCKSIZE
                &&& plan.sound(size, 2)
                &&& describes(splits@, plan.done, DEFAULT_BLOCKSIZE)
            },
            block_offset == raw_blocks ==> if raw_blocks == 0 {
                splits@.len() == 0
            } else {
                describes(splits@, target.fragments(), DEFAULT_BLOCKSIZE)
            },
        decreases raw_blocks - block_offset,
    {
        let mut builder = SplitBuilder::new(DEFAULT_BLOCKSIZE, size, block_offset);
        proof {
            lemma_fresh_room(size, DEFAULT_BLOCKSIZE, block_offset as int);
            lemma_sums_nonnegative(plan.open);
        }
        let took: u32 = builder.add_raw(
            block_offset as usize * DEFAULT_BLOCKSIZE as usize,
            raw_blocks - block_offset,
        );
        proof {
            lemma_raw_take(plan.space, DEFAULT_BLOCKSIZE, took as int);
            let piece = raw_chunk(took as int, DEFAULT_BLOCKSIZE, plan.cursor);
            let filled = plan.take_raw(took as int, DEFAULT_BLOCKSIZE);
            assert(filled == plan.with_chunk(piece, plan.cursor + took * DEFAULT_BLOCKSIZE));
            lemma_fresh_chunks(block_offset as int);
            plan.lemma_with_chunk(piece, plan.cursor + took * DEFAULT_BLOCKSIZE, size, 2);
            plan = filled;
        }
        let full = builder.finish();
        proof {
            lemma_describes_push(splits@, plan.done, full, plan.open, DEFAULT_BLOCKSIZE);
            if took < raw_blocks - block_offset {
                plan.lemma_turn(size, 2);
                plan = plan.turn(size);
            }
        }
        block_offset += took;
        splits.push(full);
    }
    proof {
        lemma_split_raw_fits(raw_size, size);
        let fragments = raw_split_plan(raw_size, size)->Some_0;
        assert forall|k: int| 0 <= k < splits@.len() implies (#[trigger] splits@[k]).within(
            size,
        ) by {
            assert(splits@[k].is_fragment(fragments[k], DEFAULT_BLOCKSIZE));
        }
    }
    Ok(splits)
}

} // verus!
