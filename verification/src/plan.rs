//! How an image is cut into fragments.
//!
//! The chunks of the image are placed one after the other.  A plan holds
//! the fragments that are complete and the one that is being filled.  This
//! module states, step by step, what placing a chunk does to the plan, and
//! what holds of a plan at every step.

use crate::fragments::{
    blocks_of, data_blocks, data_bytes, fits, image_size, kept_blocks, lead_blocks,
    lemma_sums_nonnegative, lemma_sums_push, lemma_totals_push, raw_blocks, raw_chunk, seek_chunk,
    starts_in_order, total_data_blocks, total_data_bytes, total_raw_blocks, whole_chunk,
};
use crate::sparse::{
    ChunkHeader, ChunkType, FileHeader, CHUNK_HEADER_BYTES_LEN, DEFAULT_BLOCKSIZE,
    FILE_HEADER_BYTES_LEN,
};
use crate::split::SplitChunk;
use vstd::prelude::*;

verus! {

/// The least size that an image can be split into: room for the file
/// header, a leading seek, the header of a raw chunk and one block of raw
/// data.
pub open spec fn minimal_size(block_size: u32) -> int {
    FILE_HEADER_BYTES_LEN + 2 * CHUNK_HEADER_BYTES_LEN + block_size
}

/// Bytes left for chunks in a new fragment of at most `size` bytes that
/// starts at block `first_block`.
pub open spec fn fresh_space(size: u32, first_block: int) -> int {
    if first_block == 0 {
        size - FILE_HEADER_BYTES_LEN
    } else {
        size - FILE_HEADER_BYTES_LEN - CHUNK_HEADER_BYTES_LEN
    }
}

/// The chunks with which a new fragment starts: a seek to `first_block`,
/// unless that is block 0.
pub open spec fn fresh_chunks(first_block: int) -> Seq<SplitChunk> {
    if first_block == 0 {
        Seq::empty()
    } else {
        seq![seek_chunk(first_block)]
    }
}

/// Whole blocks of raw data that still fit where `space` bytes are left, the
/// header of their chunk counted.
pub open spec fn raw_room(space: int, block_size: u32) -> int {
    if space > CHUNK_HEADER_BYTES_LEN {
        (space - CHUNK_HEADER_BYTES_LEN) / (block_size as int)
    } else {
        0
    }
}

/// Blocks of 4096 bytes that `raw_size` bytes take up, the last one padded.
pub open spec fn raw_block_count(raw_size: int) -> int {
    (raw_size + DEFAULT_BLOCKSIZE - 1) / (DEFAULT_BLOCKSIZE as int)
}

/// Blocks that the chunks of an image stand for: the sum of their
/// `chunk_size`.
pub open spec fn input_blocks(chunks: Seq<ChunkHeader>) -> int
    decreases chunks.len(),
{
    if chunks.len() == 0 {
        0
    } else {
        input_blocks(chunks.drop_last()) + chunks.last().chunk_size
    }
}

/// Bytes that the chunks of an image take in the file: the sum of their
/// `total_size`.
pub open spec fn input_bytes(chunks: Seq<ChunkHeader>) -> int
    decreases chunks.len(),
{
    if chunks.len() == 0 {
        0
    } else {
        input_bytes(chunks.drop_last()) + chunks.last().total_size
    }
}

/// Bytes of payload in the chunks of an image: the sum of their
/// `payload_size`.
pub open spec fn input_payload(chunks: Seq<ChunkHeader>) -> int
    decreases chunks.len(),
{
    if chunks.len() == 0 {
        0
    } else {
        input_payload(chunks.drop_last()) + chunks.last().payload_size()
    }
}

/// The payload of the chunks of the sparse image `file`, one chunk after
/// the other.  The payload of a chunk follows its header, which follows
/// the file header and the chunks before it.
pub open spec fn input_payload_of(chunks: Seq<ChunkHeader>, file: Seq<u8>) -> Seq<u8>
    decreases chunks.len(),
{
    if chunks.len() == 0 {
        Seq::empty()
    } else {
        let start = FILE_HEADER_BYTES_LEN + input_bytes(chunks.drop_last())
            + CHUNK_HEADER_BYTES_LEN;
        input_payload_of(chunks.drop_last(), file) + file.subrange(
            start,
            start + chunks.last().payload_size(),
        )
    }
}

/// What `split_image` asks of an image: a block size that is not zero, raw
/// chunks whose payload holds their blocks, and counts that the fields of the
/// fragments can express: fewer than 2^32 - 1 chunks, no more than 2^32 - 1
/// blocks, and a file whose offsets fit `usize`.
pub open spec fn splittable(header: FileHeader, chunks: Seq<ChunkHeader>) -> bool {
    &&& header.block_size > 0
    &&& chunks.len() < u32::MAX
    &&& input_blocks(chunks) <= u32::MAX
    &&& FILE_HEADER_BYTES_LEN + CHUNK_HEADER_BYTES_LEN + input_bytes(chunks) <= usize::MAX
    &&& forall|i: int|
        0 <= i < chunks.len() && (#[trigger] chunks[i]).chunk_type == ChunkType::Raw
            ==> chunks[i].chunk_size * header.block_size <= chunks[i].payload_size()
}

/// Whether the payload of each raw chunk is exactly its blocks.
pub open spec fn raw_chunks_exact(chunks: Seq<ChunkHeader>, block_size: u32) -> bool {
    forall|i: int|
        0 <= i < chunks.len() && (#[trigger] chunks[i]).chunk_type == ChunkType::Raw
            ==> chunks[i].chunk_size * block_size == chunks[i].payload_size()
}

/// Whether `file` is long enough for a sparse image with these chunks, each
/// of which has room for its header.
pub open spec fn holds_image(file: Seq<u8>, chunks: Seq<ChunkHeader>) -> bool {
    &&& FILE_HEADER_BYTES_LEN + input_bytes(chunks) <= file.len() <= usize::MAX
    &&& forall|i: int|
        0 <= i < chunks.len() ==> (#[trigger] chunks[i]).total_size >= CHUNK_HEADER_BYTES_LEN
}

/// The fragments under construction while an image is split.
pub struct Plan {
    /// The fragments that are complete
    pub done: Seq<Seq<SplitChunk>>,
    /// The chunks of the fragment that is being filled
    pub open: Seq<SplitChunk>,
    /// Bytes that the open fragment can still take
    pub space: int,
    /// Blocks of the image that the chunks placed so far stand for
    pub blocks: int,
    /// Offset in the input file of the payload that comes next
    pub cursor: int,
}

impl Plan {
    /// The plan before anything is placed: one empty fragment at block 0.
    /// The payload of the first chunk follows the file header and the
    /// chunk's own header.
    pub open spec fn start(size: u32, cursor: int) -> Plan {
        Plan {
            done: Seq::empty(),
            open: fresh_chunks(0),
            space: fresh_space(size, 0),
            blocks: 0,
            cursor,
        }
    }

    /// All fragments, the open one last.
    pub open spec fn fragments(self) -> Seq<Seq<SplitChunk>> {
        self.done.push(self.open)
    }

    /// The open fragment is closed and a new one started at the block that
    /// has been reached.
    pub open spec fn turn(self, size: u32) -> Plan {
        Plan {
            done: self.done.push(self.open),
            open: fresh_chunks(self.blocks),
            space: fresh_space(size, self.blocks),
            ..self
        }
    }

    /// The input chunk `chunk` is taken over whole into the open fragment.
    pub open spec fn take_whole(self, chunk: ChunkHeader) -> Plan {
        Plan {
            open: self.open.push(whole_chunk(chunk, self.cursor)),
            space: self.space - chunk.total_size,
            blocks: self.blocks + chunk.chunk_size,
            cursor: self.cursor + chunk.total_size,
            ..self
        }
    }

    /// The next `blocks` blocks of raw payload go into the open fragment as
    /// a chunk of their own.
    pub open spec fn take_raw(self, blocks: int, block_size: u32) -> Plan {
        Plan {
            open: self.open.push(raw_chunk(blocks, block_size, self.cursor)),
            space: self.space - CHUNK_HEADER_BYTES_LEN - blocks * block_size,
            blocks: self.blocks + blocks,
            cursor: self.cursor + blocks * block_size,
            ..self
        }
    }

    /// `left` blocks of raw payload are spread over the open fragment and as
    /// many new ones as it takes.  Each fragment takes as many whole blocks
    /// as fit; a fragment without room for one block is closed as it is.
    pub open spec fn spread_raw(self, size: u32, block_size: u32, left: nat) -> Plan
        decreases left, (if raw_room(self.space, block_size) > 0 {
            0int
        } else {
            1int
        }),
        when block_size > 0 && size >= minimal_size(block_size)
        via Self::spread_raw_terminates
    {
        let room = raw_room(self.space, block_size);
        if room > 0 {
            let blocks = if left <= room {
                left as int
            } else {
                room
            };
            let filled = self.take_raw(blocks, block_size);
            if blocks >= left {
                filled
            } else {
                filled.turn(size).spread_raw(size, block_size, (left - blocks) as nat)
            }
        } else if left == 0 {
            self
        } else {
            self.turn(size).spread_raw(size, block_size, left)
        }
    }

    #[via_fn]
    proof fn spread_raw_terminates(self, size: u32, block_size: u32, left: nat) {
        lemma_fresh_room(size, block_size, self.blocks);
    }

    /// The input chunk `chunk` is placed.  It goes whole into the open
    /// fragment where it leaves at least one byte over.  Else raw data is
    /// spread over fragments, and any other chunk goes whole into a new
    /// fragment; if it does not fit there either, the image cannot be split.
    pub open spec fn place(self, chunk: ChunkHeader, size: u32, block_size: u32) -> Option<Plan> {
        if self.space > chunk.total_size {
            Some(self.take_whole(chunk))
        } else if chunk.chunk_type == ChunkType::Raw {
            Some(
                Plan {
                    cursor: self.cursor + chunk.total_size,
                    ..self.spread_raw(size, block_size, chunk.chunk_size as nat)
                },
            )
        } else if self.turn(size).space > chunk.total_size {
            Some(self.turn(size).take_whole(chunk))
        } else {
            None
        }
    }

    /// The input chunks from index `from` on are placed in order.
    pub open spec fn place_from(
        self,
        chunks: Seq<ChunkHeader>,
        from: int,
        size: u32,
        block_size: u32,
    ) -> Option<Plan>
        decreases chunks.len() - from,
    {
        if from < 0 || from >= chunks.len() {
            Some(self)
        } else {
            match self.place(chunks[from], size, block_size) {
                None => None,
                Some(next) => next.place_from(chunks, from + 1, size, block_size),
            }
        }
    }
}

/// The fragments into which a sparse image is split: the chunks of each, in
/// order.  `None` where `size` is too small: for the smallest fragment with
/// raw data, or for a chunk that cannot be cut.
pub open spec fn split_plan(header: FileHeader, chunks: Seq<ChunkHeader>, size: u32) -> Option<
    Seq<Seq<SplitChunk>>,
> {
    if size < minimal_size(header.block_size) {
        None
    } else {
        match Plan::start(size, FILE_HEADER_BYTES_LEN + CHUNK_HEADER_BYTES_LEN).place_from(
            chunks,
            0,
            size,
            header.block_size,
        ) {
            None => None,
            Some(plan) => Some(plan.fragments()),
        }
    }
}

/// The fragments into which a raw image of `raw_size` bytes is split: each
/// holds one raw chunk with as many blocks as fit, read from the input at
/// the offset of its first block.  An empty image has no fragment.  `None`
/// where `size` is too small for a fragment with one block.
pub open spec fn raw_split_plan(raw_size: usize, size: u32) -> Option<Seq<Seq<SplitChunk>>> {
    if size < minimal_size(DEFAULT_BLOCKSIZE) {
        None
    } else if raw_size == 0 {
        Some(Seq::empty())
    } else {
        Some(
            Plan::start(size, 0).spread_raw(
                size,
                DEFAULT_BLOCKSIZE,
                raw_block_count(raw_size as int) as nat,
            ).fragments(),
        )
    }
}

impl Plan {
    /// What holds of a plan at every step, `count` bounding the chunks of a
    /// fragment: the open fragment and what is left of it add up to `size`,
    /// the complete fragments fit, each fragment starts where the ones before
    /// it end, and the blocks placed are the blocks the chunks write.
    pub open spec fn sound(self, size: u32, count: int) -> bool {
        &&& 0 <= self.space
        &&& image_size(self.open) + self.space == size
        &&& self.open.len() <= count
        &&& forall|k: int| 0 <= k < self.done.len() ==> fits(#[trigger] self.done[k], size, count)
        &&& starts_in_order(self.fragments())
        &&& total_data_blocks(self.fragments()) == self.blocks
        &&& blocks_of(self.open) == self.blocks
        &&& self.blocks <= u32::MAX
    }

    /// The plan is sound before anything is placed.
    pub(crate) proof fn lemma_start(size: u32, cursor: int)
        requires
            size >= FILE_HEADER_BYTES_LEN,
        ensures
            Plan::start(size, cursor).sound(size, 1),
            total_data_bytes(Plan::start(size, cursor).fragments()) == 0,
            total_raw_blocks(Plan::start(size, cursor).fragments()) == 0,
    {
        let p = Plan::start(size, cursor);
        lemma_totals_push(p.done, p.open);
        assert(p.open =~= Seq::empty());
    }

    /// Closing the open fragment keeps the plan sound, and adds nothing to
    /// what the fragments read or write.
    pub(crate) proof fn lemma_turn(self, size: u32, count: int)
        requires
            self.sound(size, count),
            count >= 1,
            size >= FILE_HEADER_BYTES_LEN + CHUNK_HEADER_BYTES_LEN,
        ensures
            self.turn(size).sound(size, count),
            self.turn(size).open.len() <= 1,
            total_data_bytes(self.turn(size).fragments()) == total_data_bytes(self.fragments()),
            total_raw_blocks(self.turn(size).fragments()) == total_raw_blocks(self.fragments()),
    {
        let q = self.turn(size);
        lemma_sums_nonnegative(self.open);
        lemma_totals_push(self.done, self.open);
        lemma_totals_push(self.fragments(), q.open);
        lemma_fresh_chunks(self.blocks);
        assert(q.done == self.fragments());
        assert forall|k: int| 0 <= k < q.done.len() implies fits(
            #[trigger] q.done[k],
            size,
            count,
        ) by {
            if k < self.done.len() {
                assert(q.done[k] == self.done[k]);
            }
        }
    }

    /// The plan with `chunk` added to the open fragment.
    pub open spec fn with_chunk(self, chunk: SplitChunk, cursor: int) -> Plan {
        Plan {
            open: self.open.push(chunk),
            space: self.space - chunk.header.total_size,
            blocks: self.blocks + chunk.header.chunk_size,
            cursor,
            ..self
        }
    }

    /// A chunk that fits the open fragment and is no seek keeps the plan
    /// sound, and adds its own bytes and blocks to what the fragments read
    /// and write.
    pub(crate) proof fn lemma_with_chunk(
        self,
        chunk: SplitChunk,
        cursor: int,
        size: u32,
        count: int,
    )
        requires
            self.sound(size, count),
            self.open.len() < count,
            !chunk.is_seek(),
            chunk.header.total_size <= self.space,
            self.blocks + chunk.header.chunk_size <= u32::MAX,
        ensures
            self.with_chunk(chunk, cursor).sound(size, count),
            total_data_bytes(self.with_chunk(chunk, cursor).fragments()) == total_data_bytes(
                self.fragments(),
            ) + chunk.size,
            total_raw_blocks(self.with_chunk(chunk, cursor).fragments()) == total_raw_blocks(
                self.fragments(),
            ) + if chunk.header.chunk_type == ChunkType::Raw {
                chunk.header.chunk_size as int
            } else {
                0
            },
    {
        let q = self.with_chunk(chunk, cursor);
        lemma_sums_push(self.open, chunk);
        lemma_totals_push(self.done, self.open);
        lemma_totals_push(q.done, q.open);
        assert(lead_blocks(q.open) == lead_blocks(self.open)) by {
            if self.open.len() > 0 {
                assert(q.open[0] == self.open[0]);
            }
        }
    }
}

/// A new fragment has room for one block of raw data at least.
pub proof fn lemma_fresh_room(size: u32, block_size: u32, first_block: int)
    requires
        block_size > 0,
        size >= minimal_size(block_size),
    ensures
        raw_room(fresh_space(size, first_block), block_size) >= 1,
{
    let rest = fresh_space(size, first_block) - CHUNK_HEADER_BYTES_LEN;
    assert(rest / (block_size as int) >= 1) by (nonlinear_arith)
        requires
            rest >= block_size,
            block_size > 0,
    ;
}

/// What the chunks of a new fragment add up to.
pub(crate) proof fn lemma_fresh_chunks(first_block: int)
    requires
        0 <= first_block <= u32::MAX,
    ensures
        blocks_of(fresh_chunks(first_block)) == first_block,
        lead_blocks(fresh_chunks(first_block)) == first_block,
        data_blocks(fresh_chunks(first_block)) == 0,
        data_bytes(fresh_chunks(first_block)) == 0,
        raw_blocks(fresh_chunks(first_block)) == 0,
        kept_blocks(fresh_chunks(first_block)) == 0,
        fresh_chunks(first_block).len() <= 1,
        forall|size: u32|
            size >= FILE_HEADER_BYTES_LEN + CHUNK_HEADER_BYTES_LEN ==> image_size(
                fresh_chunks(first_block),
            ) + #[trigger] fresh_space(size, first_block) == size,
{
    if first_block != 0 {
        lemma_sums_push(Seq::empty(), seek_chunk(first_block));
        assert(fresh_chunks(first_block) =~= Seq::<SplitChunk>::empty().push(
            seek_chunk(first_block),
        ));
    }
}

/// What `blocks` blocks of raw data take where they fit.
pub(crate) proof fn lemma_raw_take(space: int, block_size: u32, blocks: int)
    requires
        block_size > 0,
        0 <= blocks <= raw_room(space, block_size),
        space <= u32::MAX,
    ensures
        0 <= blocks * block_size,
        CHUNK_HEADER_BYTES_LEN + blocks * block_size <= space || blocks == 0,
        blocks * block_size <= u32::MAX - CHUNK_HEADER_BYTES_LEN,
        blocks <= u32::MAX,
{
    if space > CHUNK_HEADER_BYTES_LEN {
        let rest = space - CHUNK_HEADER_BYTES_LEN;
        let d = block_size as int;
        assert(0 <= blocks * d <= rest && blocks <= rest) by (nonlinear_arith)
            requires
                0 <= blocks <= rest / d,
                d > 0,
                rest >= 0,
        ;
    } else {
        assert(blocks * block_size == 0) by (nonlinear_arith)
            requires
                blocks == 0,
        ;
    }
}

/// The sums over the first `n` chunks: they are no more than the sums over
/// all of them, and grow by what the next chunk holds.
pub(crate) proof fn lemma_input_prefix(chunks: Seq<ChunkHeader>, n: int)
    requires
        0 <= n <= chunks.len(),
    ensures
        0 <= input_blocks(chunks.take(n)) <= input_blocks(chunks),
        0 <= input_bytes(chunks.take(n)) <= input_bytes(chunks),
        n < chunks.len() ==> input_blocks(chunks.take(n + 1)) == input_blocks(chunks.take(n))
            + chunks[n].chunk_size,
        n < chunks.len() ==> input_bytes(chunks.take(n + 1)) == input_bytes(chunks.take(n))
            + chunks[n].total_size,
        n < chunks.len() ==> input_payload(chunks.take(n + 1)) == input_payload(chunks.take(n))
            + chunks[n].payload_size(),
    decreases chunks.len() - n,
{
    if n < chunks.len() {
        lemma_input_prefix(chunks, n + 1);
        assert(chunks.take(n + 1).drop_last() =~= chunks.take(n));
    } else {
        assert(chunks.take(n) =~= chunks);
    }
    lemma_input_nonnegative(chunks.take(n));
}

/// The sums over the chunks of an image are not negative.
proof fn lemma_input_nonnegative(chunks: Seq<ChunkHeader>)
    ensures
        input_blocks(chunks) >= 0,
        input_bytes(chunks) >= 0,
    decreases chunks.len(),
{
    if chunks.len() > 0 {
        lemma_input_nonnegative(chunks.drop_last());
    }
}

impl Plan {
    /// Spreading raw data keeps the plan sound.  All of its blocks are
    /// placed, as raw chunks that read `block_size` bytes for each.
    pub(crate) proof fn lemma_spread_raw(
        self,
        size: u32,
        block_size: u32,
        left: nat,
        count: int,
    )
        requires
            block_size > 0,
            size >= minimal_size(block_size),
            self.sound(size, count),
            self.open.len() < count,
            count >= 2,
            self.blocks + left <= u32::MAX,
        ensures
            ({
                let q = self.spread_raw(size, block_size, left);
                &&& q.sound(size, count)
                &&& q.blocks == self.blocks + left
                &&& q.cursor == self.cursor + left * block_size
                &&& total_data_bytes(q.fragments()) == total_data_bytes(self.fragments()) + left
                    * block_size
                &&& total_raw_blocks(q.fragments()) == total_raw_blocks(self.fragments()) + left
            }),
        decreases left, (if raw_room(self.space, block_size) > 0 {
            0int
        } else {
            1int
        }),
    {
        let room = raw_room(self.space, block_size);
        if room > 0 {
            let blocks = if left <= room {
                left as int
            } else {
                room
            };
            lemma_sums_nonnegative(self.open);
            lemma_raw_take(self.space, block_size, blocks);
            let chunk = raw_chunk(blocks, block_size, self.cursor);
            let filled = self.take_raw(blocks, block_size);
            assert(filled == self.with_chunk(chunk, self.cursor + blocks * block_size));
            self.lemma_with_chunk(chunk, self.cursor + blocks * block_size, size, count);
            if blocks < left {
                filled.lemma_turn(size, count);
                filled.turn(size).lemma_spread_raw(
                    size,
                    block_size,
                    (left - blocks) as nat,
                    count,
                );
                assert((left - blocks) * block_size + blocks * block_size == left * block_size)
                    by (nonlinear_arith);
            }
        } else if left == 0 {
            assert(left * block_size == 0) by (nonlinear_arith)
                requires
                    left == 0,
            ;
        } else {
            self.lemma_turn(size, count);
            lemma_fresh_room(size, block_size, self.blocks);
            self.turn(size).lemma_spread_raw(size, block_size, left, count);
        }
    }

    /// Placing a chunk keeps the plan sound, with one chunk more to a
    /// fragment at most.  Its blocks are placed; and its payload is read,
    /// where the payload of raw data is exactly its blocks.
    pub(crate) proof fn lemma_place(
        self,
        chunk: ChunkHeader,
        size: u32,
        block_size: u32,
        count: int,
    )
        requires
            block_size > 0,
            size >= minimal_size(block_size),
            self.sound(size, count),
            count >= 1,
            0 < self.cursor <= usize::MAX,
            self.blocks + chunk.chunk_size <= u32::MAX,
        ensures
            self.place(chunk, size, block_size) matches Some(q) ==> {
                &&& q.sound(size, count + 1)
                &&& q.blocks == self.blocks + chunk.chunk_size
                &&& q.cursor == self.cursor + chunk.total_size
                &&& (chunk.chunk_type == ChunkType::Raw ==> chunk.chunk_size * block_size
                    == chunk.payload_size()) ==> total_data_bytes(q.fragments())
                    == total_data_bytes(self.fragments()) + chunk.payload_size()
            },
    {
        if self.space > chunk.total_size {
            let whole = whole_chunk(chunk, self.cursor);
            assert(self.take_whole(chunk) == self.with_chunk(
                whole,
                self.cursor + chunk.total_size,
            ));
            self.lemma_with_chunk(whole, self.cursor + chunk.total_size, size, count + 1);
        } else if chunk.chunk_type == ChunkType::Raw {
            self.lemma_spread_raw(size, block_size, chunk.chunk_size as nat, count + 1);
        } else if self.turn(size).space > chunk.total_size {
            let turned = self.turn(size);
            self.lemma_turn(size, count);
            let whole = whole_chunk(chunk, turned.cursor);
            assert(turned.take_whole(chunk) == turned.with_chunk(
                whole,
                turned.cursor + chunk.total_size,
            ));
            turned.lemma_with_chunk(whole, turned.cursor + chunk.total_size, size, count + 1);
        }
    }

    /// Each fragment of a sound plan fits, the open one too.
    pub(crate) proof fn lemma_fragments_fit(self, size: u32, count: int)
        requires
            self.sound(size, count),
        ensures
            forall|k: int|
                0 <= k < self.fragments().len() ==> fits(
                    #[trigger] self.fragments()[k],
                    size,
                    count,
                ),
    {
        lemma_sums_nonnegative(self.open);
        assert forall|k: int| 0 <= k < self.fragments().len() implies fits(
            #[trigger] self.fragments()[k],
            size,
            count,
        ) by {
            if k < self.done.len() {
                assert(self.fragments()[k] == self.done[k]);
            }
        }
    }

    /// Placing the chunks from `from` on keeps the plan sound.  In the end
    /// all blocks of the image are placed; and all of its payload is read,
    /// where the payload of raw data is exactly its blocks.
    pub(crate) proof fn lemma_place_from(
        self,
        chunks: Seq<ChunkHeader>,
        from: int,
        size: u32,
        block_size: u32,
    )
        requires
            block_size > 0,
            size >= minimal_size(block_size),
            0 <= from <= chunks.len(),
            self.sound(size, from + 1),
            self.blocks == input_blocks(chunks.take(from)),
            self.cursor == FILE_HEADER_BYTES_LEN + CHUNK_HEADER_BYTES_LEN + input_bytes(
                chunks.take(from),
            ),
            input_blocks(chunks) <= u32::MAX,
            FILE_HEADER_BYTES_LEN + CHUNK_HEADER_BYTES_LEN + input_bytes(chunks) <= usize::MAX,
        ensures
            self.place_from(chunks, from, size, block_size) matches Some(q) ==> {
                &&& q.sound(size, chunks.len() as int + 1)
                &&& q.blocks == input_blocks(chunks)
                &&& raw_chunks_exact(chunks, block_size) ==> total_data_bytes(q.fragments())
                    - total_data_bytes(self.fragments()) == input_payload(chunks) - input_payload(
                    chunks.take(from),
                )
            },
        decreases chunks.len() - from,
    {
        lemma_input_prefix(chunks, from);
        if from < chunks.len() {
            lemma_input_prefix(chunks, from + 1);
            self.lemma_place(chunks[from], size, block_size, from + 1);
            match self.place(chunks[from], size, block_size) {
                None => {},
                Some(next) => {
                    next.lemma_place_from(chunks, from + 1, size, block_size);
                },
            }
        } else {
            assert(chunks.take(from) =~= chunks);
        }
    }
}

} // verus!
