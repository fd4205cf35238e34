//! What a sparse image writes when it is expanded.
//!
//! Expanding an image goes through its chunks in order.  Raw data is copied
//! to the output, a fill repeats its four bytes, a skipped range moves on
//! without writing, and a checksum stands for no output at all.  The
//! fragments of a split image are expanded one after the other into the
//! same output.  What they write is what the image writes.

use crate::fragments::{blocks_of, lemma_sums_nonnegative, raw_chunk, seek_chunk, whole_chunk};
use crate::plan::{
    input_blocks, input_bytes, lemma_fresh_room, lemma_input_prefix, lemma_raw_take, minimal_size,
    raw_block_count, raw_room, raw_split_plan, split_plan, splittable, Plan,
};
use crate::sparse::{
    ChunkHeader, ChunkType, FileHeader, CHUNK_HEADER_BYTES_LEN, DEFAULT_BLOCKSIZE,
    FILE_HEADER_BYTES_LEN,
};
use crate::split::SplitChunk;
use vstd::prelude::*;

verus! {

/// Blocks of output that a chunk stands for: a checksum stands for none.
pub open spec fn chunk_blocks(chunk: SplitChunk) -> int {
    if chunk.header.chunk_type == ChunkType::Crc32 {
        0
    } else {
        chunk.header.chunk_size as int
    }
}

/// Blocks of output that the chunks stand for.
pub open spec fn span_of(chunks: Seq<SplitChunk>) -> int
    decreases chunks.len(),
{
    if chunks.len() == 0 {
        0
    } else {
        span_of(chunks.drop_last()) + chunk_blocks(chunks.last())
    }
}

/// The bytes of output that are copied from the input: `blocks` blocks from
/// block `at` on, read from `source` on.
pub open spec fn copied(at: int, blocks: int, source: int, block_size: u32, file: Seq<u8>) -> Map<
    int,
    u8,
> {
    Map::new(
        |p: int| at * block_size <= p < (at + blocks) * block_size,
        |p: int| file[source + (p - at * block_size)],
    )
}

/// The bytes of output that a chunk writes when it is expanded at block
/// `at`: raw data writes its payload, a fill writes its four bytes over and
/// over, a skipped range and a checksum write nothing.
pub open spec fn chunk_writes(chunk: SplitChunk, at: int, block_size: u32, file: Seq<u8>) -> Map<
    int,
    u8,
> {
    match chunk.header.chunk_type {
        ChunkType::Raw => copied(
            at,
            chunk.header.chunk_size as int,
            chunk.offset as int,
            block_size,
            file,
        ),
        ChunkType::Fill => Map::new(
            |p: int| at * block_size <= p < (at + chunk.header.chunk_size) * block_size,
            |p: int| file[chunk.offset + (p - at * block_size) % 4],
        ),
        ChunkType::DontCare => Map::empty(),
        ChunkType::Crc32 => Map::empty(),
    }
}

/// The bytes of output that a sparse image with these chunks writes when it
/// is expanded.  Where two chunks write the same byte, the later one stays.
pub open spec fn image_writes(chunks: Seq<SplitChunk>, block_size: u32, file: Seq<u8>) -> Map<
    int,
    u8,
>
    decreases chunks.len(),
{
    if chunks.len() == 0 {
        Map::empty()
    } else {
        image_writes(chunks.drop_last(), block_size, file).union_prefer_right(
            chunk_writes(chunks.last(), span_of(chunks.drop_last()), block_size, file),
        )
    }
}

/// The bytes of output that the fragments write when they are expanded one
/// after the other into the same output.
pub open spec fn fragments_write(
    fragments: Seq<Seq<SplitChunk>>,
    block_size: u32,
    file: Seq<u8>,
) -> Map<int, u8>
    decreases fragments.len(),
{
    if fragments.len() == 0 {
        Map::empty()
    } else {
        fragments_write(fragments.drop_last(), block_size, file).union_prefer_right(
            image_writes(fragments.last(), block_size, file),
        )
    }
}

/// The chunks of a sparse image as they lie in its file: the payload of
/// each follows its header, which follows the file header and the chunks
/// before it.
pub open spec fn image_chunks(chunks: Seq<ChunkHeader>) -> Seq<SplitChunk>
    decreases chunks.len(),
{
    if chunks.len() == 0 {
        Seq::empty()
    } else {
        image_chunks(chunks.drop_last()).push(
            whole_chunk(
                chunks.last(),
                FILE_HEADER_BYTES_LEN + input_bytes(chunks.drop_last()) + CHUNK_HEADER_BYTES_LEN,
            ),
        )
    }
}

/// Whether each checksum among the chunks stands for no block.
pub open spec fn checksums_empty(chunks: Seq<SplitChunk>) -> bool {
    forall|i: int|
        0 <= i < chunks.len() && (#[trigger] chunks[i]).header.chunk_type == ChunkType::Crc32
            ==> chunks[i].header.chunk_size == 0
}

/// Whether each checksum among the chunks of an image stands for no block.
pub open spec fn input_checksums_empty(chunks: Seq<ChunkHeader>) -> bool {
    forall|i: int|
        0 <= i < chunks.len() && (#[trigger] chunks[i]).chunk_type == ChunkType::Crc32
            ==> chunks[i].chunk_size == 0
}

/// What one more chunk adds to what an image writes.
proof fn lemma_writes_push(
    chunks: Seq<SplitChunk>,
    chunk: SplitChunk,
    block_size: u32,
    file: Seq<u8>,
)
    ensures
        image_writes(chunks.push(chunk), block_size, file) == image_writes(
            chunks,
            block_size,
            file,
        ).union_prefer_right(chunk_writes(chunk, span_of(chunks), block_size, file)),
        span_of(chunks.push(chunk)) == span_of(chunks) + chunk_blocks(chunk),
{
    assert(chunks.push(chunk).drop_last() =~= chunks);
}

/// What one more fragment adds to what the fragments write.
proof fn lemma_fragments_write_push(
    fragments: Seq<Seq<SplitChunk>>,
    chunks: Seq<SplitChunk>,
    block_size: u32,
    file: Seq<u8>,
)
    ensures
        fragments_write(fragments.push(chunks), block_size, file) == fragments_write(
            fragments,
            block_size,
            file,
        ).union_prefer_right(image_writes(chunks, block_size, file)),
{
    assert(fragments.push(chunks).drop_last() =~= fragments);
}

/// Where checksums stand for no block, the chunks stand for as many blocks
/// of output as their sizes add up to.
proof fn lemma_span_is_blocks(chunks: Seq<SplitChunk>)
    requires
        checksums_empty(chunks),
    ensures
        span_of(chunks) == blocks_of(chunks),
    decreases chunks.len(),
{
    if chunks.len() > 0 {
        let rest = chunks.drop_last();
        assert forall|i: int|
            0 <= i < rest.len() && (#[trigger] rest[i]).header.chunk_type
                == ChunkType::Crc32 implies rest[i].header.chunk_size == 0 by {
            assert(rest[i] == chunks[i]);
        }
        lemma_span_is_blocks(rest);
        assert(chunks.last() == chunks[chunks.len() - 1]);
    }
}

/// One more chunk keeps checksums empty, unless it is a checksum with
/// blocks.
proof fn lemma_checksums_empty_push(chunks: Seq<SplitChunk>, chunk: SplitChunk)
    requires
        checksums_empty(chunks),
        chunk.header.chunk_type == ChunkType::Crc32 ==> chunk.header.chunk_size == 0,
    ensures
        checksums_empty(chunks.push(chunk)),
{
    assert forall|i: int|
        0 <= i < chunks.push(chunk).len() && (#[trigger] chunks.push(chunk)[i]).header.chunk_type
            == ChunkType::Crc32 implies chunks.push(chunk)[i].header.chunk_size == 0 by {
        if i < chunks.len() {
            assert(chunks.push(chunk)[i] == chunks[i]);
        }
    }
}

/// Copying blocks in two steps copies them all.
proof fn lemma_copied_split(
    at: int,
    first: int,
    rest: int,
    source: int,
    block_size: u32,
    file: Seq<u8>,
)
    requires
        0 <= first,
        0 <= rest,
        block_size > 0,
    ensures
        copied(at, first, source, block_size, file).union_prefer_right(
            copied(at + first, rest, source + first * block_size, block_size, file),
        ) == copied(at, first + rest, source, block_size, file),
{
    let bs = block_size as int;
    assert((at + first) * bs == at * bs + first * bs) by (nonlinear_arith);
    assert((at + first + rest) * bs == at * bs + first * bs + rest * bs) by (nonlinear_arith);
    assert(first * bs >= 0 && rest * bs >= 0) by (nonlinear_arith)
        requires
            first >= 0,
            rest >= 0,
            bs > 0,
    ;
    assert(copied(at, first, source, block_size, file).union_prefer_right(
        copied(at + first, rest, source + first * block_size, block_size, file),
    ) =~= copied(at, first + rest, source, block_size, file));
}

impl Plan {
    /// One more chunk in the open fragment adds what it writes at the block
    /// that has been reached.
    proof fn lemma_writes_with_chunk(
        self,
        chunk: SplitChunk,
        cursor: int,
        block_size: u32,
        file: Seq<u8>,
    )
        requires
            blocks_of(self.open) == self.blocks,
            checksums_empty(self.open),
            chunk.header.chunk_type == ChunkType::Crc32 ==> chunk.header.chunk_size == 0,
        ensures
            fragments_write(self.with_chunk(chunk, cursor).fragments(), block_size, file)
                == fragments_write(self.fragments(), block_size, file).union_prefer_right(
                chunk_writes(chunk, self.blocks, block_size, file),
            ),
            checksums_empty(self.with_chunk(chunk, cursor).open),
    {
        let q = self.with_chunk(chunk, cursor);
        lemma_span_is_blocks(self.open);
        lemma_writes_push(self.open, chunk, block_size, file);
        lemma_fragments_write_push(self.done, self.open, block_size, file);
        lemma_fragments_write_push(q.done, q.open, block_size, file);
        lemma_checksums_empty_push(self.open, chunk);
        let done = fragments_write(self.done, block_size, file);
        let open = image_writes(self.open, block_size, file);
        let more = chunk_writes(chunk, self.blocks, block_size, file);
        assert(done.union_prefer_right(open.union_prefer_right(more)) =~= done.union_prefer_right(
            open,
        ).union_prefer_right(more));
    }

    /// Closing the open fragment adds nothing to what the fragments write.
    proof fn lemma_writes_turn(self, size: u32, block_size: u32, file: Seq<u8>)
        ensures
            fragments_write(self.turn(size).fragments(), block_size, file) == fragments_write(
                self.fragments(),
                block_size,
                file,
            ),
            checksums_empty(self.turn(size).open),
    {
        let q = self.turn(size);
        lemma_fragments_write_push(q.done, q.open, block_size, file);
        if self.blocks != 0 {
            lemma_writes_push(Seq::empty(), seek_chunk(self.blocks), block_size, file);
            assert(q.open =~= Seq::<SplitChunk>::empty().push(seek_chunk(self.blocks)));
            assert(image_writes(q.open, block_size, file) =~= Map::<int, u8>::empty());
        }
        assert(fragments_write(q.done, block_size, file).union_prefer_right(
            Map::<int, u8>::empty(),
        ) =~= fragments_write(q.done, block_size, file));
    }

    /// Spreading raw data copies its blocks to the output, from the block
    /// that has been reached on.
    proof fn lemma_writes_spread_raw(
        self,
        size: u32,
        block_size: u32,
        left: nat,
        count: int,
        file: Seq<u8>,
    )
        requires
            block_size > 0,
            size >= minimal_size(block_size),
            self.sound(size, count),
            self.open.len() < count,
            count >= 2,
            self.blocks + left <= u32::MAX,
            0 <= self.cursor,
            self.cursor + left * block_size <= usize::MAX,
            checksums_empty(self.open),
        ensures
            fragments_write(
                self.spread_raw(size, block_size, left).fragments(),
                block_size,
                file,
            ) == fragments_write(self.fragments(), block_size, file).union_prefer_right(
                copied(self.blocks, left as int, self.cursor, block_size, file),
            ),
            checksums_empty(self.spread_raw(size, block_size, left).open),
        decreases left, (if raw_room(self.space, block_size) > 0 {
            0int
        } else {
            1int
        }),
    {
        let room = raw_room(self.space, block_size);
        let before = fragments_write(self.fragments(), block_size, file);
        if room > 0 {
            let blocks = if left <= room {
                left as int
            } else {
                room
            };
            lemma_sums_nonnegative(self.open);
            lemma_raw_take(self.space, block_size, blocks);
            let chunk = raw_chunk(blocks, block_size, self.cursor);
            let filled = self.take_raw(blocks, block_size);
            assert(filled == self.with_chunk(chunk, self.cursor + blocks * block_size));
            self.lemma_with_chunk(chunk, self.cursor + blocks * block_size, size, count);
            self.lemma_writes_with_chunk(
                chunk,
                self.cursor + blocks * block_size,
                block_size,
                file,
            );
            assert(blocks * block_size <= left * block_size) by (nonlinear_arith)
                requires
                    0 <= blocks <= left,
                    block_size > 0,
            ;
            let head = copied(self.blocks, blocks, self.cursor, block_size, file);
            assert(chunk_writes(chunk, self.blocks, block_size, file) == head);
            if blocks < left {
                filled.lemma_turn(size, count);
                filled.lemma_writes_turn(size, block_size, file);
                assert((left - blocks) * block_size + blocks * block_size == left * block_size)
                    by (nonlinear_arith);
                filled.turn(size).lemma_writes_spread_raw(
                    size,
                    block_size,
                    (left - blocks) as nat,
                    count,
                    file,
                );
                let tail = copied(
                    self.blocks + blocks,
                    left - blocks,
                    self.cursor + blocks * block_size,
                    block_size,
                    file,
                );
                lemma_copied_split(
                    self.blocks,
                    blocks,
                    left - blocks,
                    self.cursor,
                    block_size,
                    file,
                );
                assert(before.union_prefer_right(head).union_prefer_right(tail)
                    =~= before.union_prefer_right(head.union_prefer_right(tail)));
            }
        } else if left == 0 {
            assert(copied(self.blocks, 0, self.cursor, block_size, file) =~= Map::<
                int,
                u8,
            >::empty());
            assert(before.union_prefer_right(Map::<int, u8>::empty()) =~= before);
        } else {
            self.lemma_turn(size, count);
            self.lemma_writes_turn(size, block_size, file);
            lemma_fresh_room(size, block_size, self.blocks);
            self.turn(size).lemma_writes_spread_raw(size, block_size, left, count, file);
        }
    }

    /// Placing a chunk adds what the chunk writes at the block that has
    /// been reached.
    proof fn lemma_writes_place(
        self,
        chunk: ChunkHeader,
        size: u32,
        block_size: u32,
        count: int,
        file: Seq<u8>,
    )
        requires
            block_size > 0,
            size >= minimal_size(block_size),
            self.sound(size, count),
            count >= 1,
            0 < self.cursor,
            self.cursor + chunk.total_size <= usize::MAX,
            self.blocks + chunk.chunk_size <= u32::MAX,
            chunk.chunk_type == ChunkType::Raw ==> chunk.chunk_size * block_size
                <= chunk.payload_size(),
            chunk.chunk_type == ChunkType::Crc32 ==> chunk.chunk_size == 0,
            checksums_empty(self.open),
        ensures
            self.place(chunk, size, block_size) matches Some(q) ==> {
                &&& fragments_write(q.fragments(), block_size, file) == fragments_write(
                    self.fragments(),
                    block_size,
                    file,
                ).union_prefer_right(
                    chunk_writes(whole_chunk(chunk, self.cursor), self.blocks, block_size, file),
                )
                &&& checksums_empty(q.open)
            },
    {
        if self.space > chunk.total_size {
            let whole = whole_chunk(chunk, self.cursor);
            assert(self.take_whole(chunk) == self.with_chunk(
                whole,
                self.cursor + chunk.total_size,
            ));
            self.lemma_writes_with_chunk(whole, self.cursor + chunk.total_size, block_size, file);
        } else if chunk.chunk_type == ChunkType::Raw {
            self.lemma_writes_spread_raw(
                size,
                block_size,
                chunk.chunk_size as nat,
                count + 1,
                file,
            );
        } else if self.turn(size).space > chunk.total_size {
            let turned = self.turn(size);
            self.lemma_writes_turn(size, block_size, file);
            self.lemma_turn(size, count);
            let whole = whole_chunk(chunk, turned.cursor);
            assert(turned.take_whole(chunk) == turned.with_chunk(
                whole,
                turned.cursor + chunk.total_size,
            ));
            turned.lemma_writes_with_chunk(
                whole,
                turned.cursor + chunk.total_size,
                block_size,
                file,
            );
        }
    }

    /// Placing the chunks from `from` on writes what the image writes.
    proof fn lemma_writes_place_from(
        self,
        chunks: Seq<ChunkHeader>,
        from: int,
        size: u32,
        header: FileHeader,
        file: Seq<u8>,
    )
        requires
            splittable(header, chunks),
            input_checksums_empty(chunks),
            size >= minimal_size(header.block_size),
            0 <= from <= chunks.len(),
            self.sound(size, from + 1),
            self.blocks == input_blocks(chunks.take(from)),
            self.cursor == FILE_HEADER_BYTES_LEN + CHUNK_HEADER_BYTES_LEN + input_bytes(
                chunks.take(from),
            ),
            checksums_empty(self.open),
            fragments_write(self.fragments(), header.block_size, file) == image_writes(
                image_chunks(chunks.take(from)),
                header.block_size,
                file,
            ),
        ensures
            self.place_from(chunks, from, size, header.block_size) matches Some(q)
                ==> fragments_write(q.fragments(), header.block_size, file) == image_writes(
                image_chunks(chunks),
                header.block_size,
                file,
            ),
        decreases chunks.len() - from,
    {
        let block_size = header.block_size;
        lemma_input_prefix(chunks, from);
        if from < chunks.len() {
            let chunk = chunks[from];
            lemma_input_prefix(chunks, from + 1);
            assert(chunks.take(from + 1).drop_last() =~= chunks.take(from));
            lemma_image_chunks_span(chunks.take(from));
            lemma_writes_push(
                image_chunks(chunks.take(from)),
                whole_chunk(chunk, self.cursor),
                block_size,
                file,
            );
            self.lemma_place(chunk, size, block_size, from + 1);
            self.lemma_writes_place(chunk, size, block_size, from + 1, file);
            match self.place(chunk, size, block_size) {
                None => {},
                Some(next) => {
                    next.lemma_writes_place_from(chunks, from + 1, size, header, file);
                },
            }
        } else {
            assert(chunks.take(from) =~= chunks);
        }
    }
}

/// Where checksums stand for no block, the chunks of an image stand for as
/// many blocks of output as their sizes add up to.
proof fn lemma_image_chunks_span(chunks: Seq<ChunkHeader>)
    requires
        forall|i: int|
            0 <= i < chunks.len() && (#[trigger] chunks[i]).chunk_type == ChunkType::Crc32
                ==> chunks[i].chunk_size == 0,
    ensures
        span_of(image_chunks(chunks)) == input_blocks(chunks),
    decreases chunks.len(),
{
    if chunks.len() > 0 {
        let rest = chunks.drop_last();
        assert forall|i: int|
            0 <= i < rest.len() && (#[trigger] rest[i]).chunk_type
                == ChunkType::Crc32 implies rest[i].chunk_size == 0 by {
            assert(rest[i] == chunks[i]);
        }
        lemma_image_chunks_span(rest);
        assert(chunks.last() == chunks[chunks.len() - 1]);
        let whole = whole_chunk(
            chunks.last(),
            FILE_HEADER_BYTES_LEN + input_bytes(rest) + CHUNK_HEADER_BYTES_LEN,
        );
        assert(image_chunks(chunks).drop_last() =~= image_chunks(rest));
    }
}

/// The fragments of a split image, expanded one after the other into the
/// same output, write what the image writes when it is expanded: the same
/// bytes at the same places.  This holds of an image in which no checksum
/// stands for blocks.
pub proof fn lemma_split_image_expands(
    header: FileHeader,
    chunks: Seq<ChunkHeader>,
    size: u32,
    file: Seq<u8>,
)
    requires
        splittable(header, chunks),
        input_checksums_empty(chunks),
        split_plan(header, chunks, size) is Some,
    ensures
        fragments_write(split_plan(header, chunks, size)->Some_0, header.block_size, file)
            == image_writes(image_chunks(chunks), header.block_size, file),
{
    let first = Plan::start(size, FILE_HEADER_BYTES_LEN + CHUNK_HEADER_BYTES_LEN);
    Plan::lemma_start(size, FILE_HEADER_BYTES_LEN + CHUNK_HEADER_BYTES_LEN);
    assert(chunks.take(0) =~= Seq::empty());
    lemma_fragments_write_push(first.done, first.open, header.block_size, file);
    assert(fragments_write(first.fragments(), header.block_size, file) =~= Map::<
        int,
        u8,
    >::empty());
    first.lemma_writes_place_from(chunks, 0, size, header, file);
}

/// The fragments of a split raw image, expanded one after the other into
/// the same output, copy the image to it block by block, its last block
/// padded.
pub proof fn lemma_split_raw_expands(raw_size: usize, size: u32, file: Seq<u8>)
    requires
        raw_block_count(raw_size as int) <= u32::MAX,
        raw_block_count(raw_size as int) * DEFAULT_BLOCKSIZE <= usize::MAX,
        raw_split_plan(raw_size, size) is Some,
    ensures
        fragments_write(raw_split_plan(raw_size, size)->Some_0, DEFAULT_BLOCKSIZE, file) == copied(
            0,
            raw_block_count(raw_size as int),
            0,
            DEFAULT_BLOCKSIZE,
            file,
        ),
{
    let blocks = raw_block_count(raw_size as int);
    let all = copied(0, blocks, 0, DEFAULT_BLOCKSIZE, file);
    if raw_size != 0 {
        let first = Plan::start(size, 0);
        Plan::lemma_start(size, 0);
        lemma_fragments_write_push(first.done, first.open, DEFAULT_BLOCKSIZE, file);
        assert(fragments_write(first.fragments(), DEFAULT_BLOCKSIZE, file) =~= Map::<
            int,
            u8,
        >::empty());
        first.lemma_writes_spread_raw(size, DEFAULT_BLOCKSIZE, blocks as nat, 2, file);
        assert(Map::<int, u8>::empty().union_prefer_right(all) =~= all);
    } else {
        assert(all =~= Map::<int, u8>::empty());
    }
}

} // verus!
