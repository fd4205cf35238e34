//! What holds of every split.
//!
//! The lemmas here speak of the fragments that `split_image` and
//! `split_raw` describe: that each fits the size, that each starts where the
//! ones before it end, and that together they carry the blocks and the
//! payload of the image, no more and no less.

use crate::fragments::{
    blocks_of, data_blocks, fits, image_size, kept_blocks, lead_blocks, lemma_read_push,
    lemma_sums_nonnegative, lemma_sums_push, lemma_total_read_push, lemma_totals_push,
    raw_blocks, raw_chunk, read_of, seek_chunk, starts_in_order, summary, total_data_blocks,
    total_data_bytes, total_kept_blocks, total_raw_blocks, total_read, whole_chunk,
};
use crate::plan::{
    fresh_chunks, fresh_space, holds_image, input_blocks, input_bytes, input_payload,
    input_payload_of, lemma_fresh_room, lemma_input_prefix, lemma_raw_take, minimal_size,
    raw_block_count, raw_chunks_exact, raw_room, raw_split_plan, split_plan, splittable, Plan,
};
use crate::sparse::{
    ChunkHeader, ChunkType, FileHeader, CHUNK_HEADER_BYTES_LEN, DEFAULT_BLOCKSIZE,
    FILE_HEADER_BYTES_LEN,
};
use crate::split::SplitChunk;
use vstd::prelude::*;

verus! {

/// The fragments of a split image are those of a sound plan.
proof fn lemma_split_plan(header: FileHeader, chunks: Seq<ChunkHeader>, size: u32)
    requires
        splittable(header, chunks),
        split_plan(header, chunks, size) is Some,
    ensures
        ({
            let plan = split_plan(header, chunks, size)->Some_0;
            &&& forall|k: int|
                0 <= k < plan.len() ==> fits(#[trigger] plan[k], size, chunks.len() as int + 1)
            &&& starts_in_order(plan)
            &&& total_data_blocks(plan) == input_blocks(chunks)
            &&& raw_chunks_exact(chunks, header.block_size) ==> total_data_bytes(plan)
                == input_payload(chunks)
        }),
{
    let first = Plan::start(size, FILE_HEADER_BYTES_LEN + CHUNK_HEADER_BYTES_LEN);
    Plan::lemma_start(size, FILE_HEADER_BYTES_LEN + CHUNK_HEADER_BYTES_LEN);
    assert(chunks.take(0) =~= Seq::empty());
    first.lemma_place_from(chunks, 0, size, header.block_size);
    let q = first.place_from(chunks, 0, size, header.block_size)->Some_0;
    q.lemma_fragments_fit(size, chunks.len() as int + 1);
}

/// Fragment `k` starts where the `k` fragments before it end.
proof fn lemma_starts_in_order_at(fragments: Seq<Seq<SplitChunk>>, k: int)
    requires
        starts_in_order(fragments),
        0 <= k < fragments.len(),
    ensures
        lead_blocks(fragments[k]) == total_data_blocks(fragments.take(k)),
    decreases fragments.len(),
{
    if k == fragments.len() - 1 {
        assert(fragments.take(k) =~= fragments.drop_last());
    } else {
        lemma_starts_in_order_at(fragments.drop_last(), k);
        assert(fragments.drop_last().take(k) =~= fragments.take(k));
    }
}

/// Whether every skipped range that was taken over from the image is empty:
/// each chunk of type `DontCare` among `chunks` is a seek or stands for no
/// block.
pub open spec fn skips_nothing(chunks: Seq<SplitChunk>) -> bool {
    forall|i: int|
        0 <= i < chunks.len() && (#[trigger] chunks[i]).header.chunk_type == ChunkType::DontCare
            && !chunks[i].is_seek() ==> chunks[i].header.chunk_size == 0
}

/// Where no skipped range with blocks was taken over, the chunks that are no
/// skipped range are the chunks that write.
proof fn lemma_kept_blocks(chunks: Seq<SplitChunk>)
    requires
        skips_nothing(chunks),
    ensures
        kept_blocks(chunks) == data_blocks(chunks),
    decreases chunks.len(),
{
    if chunks.len() > 0 {
        let rest = chunks.drop_last();
        assert forall|i: int|
            0 <= i < rest.len() && (#[trigger] rest[i]).header.chunk_type == ChunkType::DontCare
                && !rest[i].is_seek() implies rest[i].header.chunk_size == 0 by {
            assert(rest[i] == chunks[i]);
        }
        lemma_kept_blocks(rest);
        assert(chunks.last() == chunks[chunks.len() - 1]);
    }
}

/// The same of a sequence of fragments.
proof fn lemma_total_kept_blocks(fragments: Seq<Seq<SplitChunk>>)
    requires
        forall|j: int| 0 <= j < fragments.len() ==> skips_nothing(#[trigger] fragments[j]),
    ensures
        total_kept_blocks(fragments) == total_data_blocks(fragments),
    decreases fragments.len(),
{
    if fragments.len() > 0 {
        let rest = fragments.drop_last();
        assert forall|j: int| 0 <= j < rest.len() implies skips_nothing(#[trigger] rest[j]) by {
            assert(rest[j] == fragments[j]);
        }
        lemma_total_kept_blocks(rest);
        assert(fragments.last() == fragments[fragments.len() - 1]);
        lemma_kept_blocks(fragments.last());
    }
}

/// Each fragment of a split image can be written out within `size` bytes, and
/// its header counts its blocks and its chunks exactly.
pub proof fn lemma_split_image_fits(header: FileHeader, chunks: Seq<ChunkHeader>, size: u32)
    requires
        splittable(header, chunks),
        split_plan(header, chunks, size) is Some,
    ensures
        forall|k: int|
            #![trigger split_plan(header, chunks, size)->Some_0[k]]
            0 <= k < split_plan(header, chunks, size)->Some_0.len() ==> {
                let fragment = split_plan(header, chunks, size)->Some_0[k];
                &&& image_size(fragment) <= size
                &&& summary(fragment, header.block_size).blocks == blocks_of(fragment)
                &&& summary(fragment, header.block_size).chunks == fragment.len()
            },
{
    lemma_split_plan(header, chunks, size);
    let plan = split_plan(header, chunks, size)->Some_0;
    assert forall|k: int| 0 <= k < plan.len() implies blocks_of(#[trigger] plan[k]) >= 0 by {
        lemma_sums_nonnegative(plan[k]);
    }
}

/// Each fragment of a split image starts where the fragments before it end:
/// what its leading seek skips is the sum of the blocks that the chunks of
/// the earlier fragments write.  The first fragment has no seek.
pub proof fn lemma_split_image_starts(
    header: FileHeader,
    chunks: Seq<ChunkHeader>,
    size: u32,
    k: int,
)
    requires
        splittable(header, chunks),
        split_plan(header, chunks, size) is Some,
        0 <= k < split_plan(header, chunks, size)->Some_0.len(),
    ensures
        lead_blocks(split_plan(header, chunks, size)->Some_0[k]) == total_data_blocks(
            split_plan(header, chunks, size)->Some_0.take(k),
        ),
{
    lemma_split_plan(header, chunks, size);
    lemma_starts_in_order_at(split_plan(header, chunks, size)->Some_0, k);
}

/// Where the fragments before fragment `k` took over no skipped range but
/// empty ones, the leading seek of fragment `k` skips the sum of the
/// `chunk_size` of all their chunks that are not of type `DontCare`.
pub proof fn lemma_split_image_starts_after_kept(
    header: FileHeader,
    chunks: Seq<ChunkHeader>,
    size: u32,
    k: int,
)
    requires
        splittable(header, chunks),
        split_plan(header, chunks, size) is Some,
        0 <= k < split_plan(header, chunks, size)->Some_0.len(),
        forall|j: int|
            0 <= j < k ==> skips_nothing(#[trigger] split_plan(header, chunks, size)->Some_0[j]),
    ensures
        lead_blocks(split_plan(header, chunks, size)->Some_0[k]) == total_kept_blocks(
            split_plan(header, chunks, size)->Some_0.take(k),
        ),
{
    let plan = split_plan(header, chunks, size)->Some_0;
    lemma_split_image_starts(header, chunks, size, k);
    assert forall|j: int| 0 <= j < plan.take(k).len() implies skips_nothing(
        #[trigger] plan.take(k)[j],
    ) by {
        assert(plan.take(k)[j] == plan[j]);
    }
    lemma_total_kept_blocks(plan.take(k));
}

/// The chunks of a split image write as many blocks as the chunks of the
/// image stand for.
pub proof fn lemma_split_image_blocks(header: FileHeader, chunks: Seq<ChunkHeader>, size: u32)
    requires
        splittable(header, chunks),
        split_plan(header, chunks, size) is Some,
    ensures
        total_data_blocks(split_plan(header, chunks, size)->Some_0) == input_blocks(chunks),
{
    lemma_split_plan(header, chunks, size);
}

/// Where the payload of each raw chunk is exactly its blocks, the chunks of a
/// split image read as many bytes from the input as its chunks have payload.
pub proof fn lemma_split_image_payload(header: FileHeader, chunks: Seq<ChunkHeader>, size: u32)
    requires
        splittable(header, chunks),
        raw_chunks_exact(chunks, header.block_size),
        split_plan(header, chunks, size) is Some,
    ensures
        total_data_bytes(split_plan(header, chunks, size)->Some_0) == input_payload(chunks),
{
    lemma_split_plan(header, chunks, size);
}

/// An image can be split where `size` is no less than `minimal_size` and
/// each chunk that is no raw data fits, with a byte to spare, into a
/// fragment that starts with a seek.  It cannot be split where `size` is
/// less than `minimal_size`, nor where a chunk that is no raw data does not
/// fit, with a byte to spare, into a fragment without a seek.
pub proof fn lemma_split_image_succeeds(header: FileHeader, chunks: Seq<ChunkHeader>, size: u32)
    requires
        splittable(header, chunks),
    ensures
        size >= minimal_size(header.block_size) && (forall|i: int|
            0 <= i < chunks.len() && (#[trigger] chunks[i]).chunk_type != ChunkType::Raw
                ==> FILE_HEADER_BYTES_LEN + CHUNK_HEADER_BYTES_LEN + chunks[i].total_size < size)
            ==> split_plan(header, chunks, size) is Some,
        split_plan(header, chunks, size) is Some ==> size >= minimal_size(header.block_size)
            && (forall|i: int|
            0 <= i < chunks.len() && (#[trigger] chunks[i]).chunk_type != ChunkType::Raw
                ==> FILE_HEADER_BYTES_LEN + chunks[i].total_size < size),
{
    if size >= minimal_size(header.block_size) {
        let first = Plan::start(size, FILE_HEADER_BYTES_LEN + CHUNK_HEADER_BYTES_LEN);
        Plan::lemma_start(size, FILE_HEADER_BYTES_LEN + CHUNK_HEADER_BYTES_LEN);
        assert(chunks.take(0) =~= Seq::empty());
        lemma_place_from_succeeds(first, chunks, 0, size, header.block_size);
    }
}

/// Where the chunks from `from` on can be placed, and where not.
proof fn lemma_place_from_succeeds(
    plan: Plan,
    chunks: Seq<ChunkHeader>,
    from: int,
    size: u32,
    block_size: u32,
)
    requires
        block_size > 0,
        size >= minimal_size(block_size),
        0 <= from <= chunks.len(),
        plan.sound(size, from + 1),
        plan.blocks == input_blocks(chunks.take(from)),
        plan.cursor == FILE_HEADER_BYTES_LEN + CHUNK_HEADER_BYTES_LEN + input_bytes(
            chunks.take(from),
        ),
        input_blocks(chunks) <= u32::MAX,
        FILE_HEADER_BYTES_LEN + CHUNK_HEADER_BYTES_LEN + input_bytes(chunks) <= usize::MAX,
    ensures
        (forall|i: int|
            from <= i < chunks.len() && (#[trigger] chunks[i]).chunk_type != ChunkType::Raw
                ==> FILE_HEADER_BYTES_LEN + CHUNK_HEADER_BYTES_LEN + chunks[i].total_size < size)
            ==> plan.place_from(chunks, from, size, block_size) is Some,
        plan.place_from(chunks, from, size, block_size) is Some ==> (forall|i: int|
            from <= i < chunks.len() && (#[trigger] chunks[i]).chunk_type != ChunkType::Raw
                ==> FILE_HEADER_BYTES_LEN + chunks[i].total_size < size),
    decreases chunks.len() - from,
{
    if from < chunks.len() {
        let chunk = chunks[from];
        lemma_input_prefix(chunks, from);
        lemma_input_prefix(chunks, from + 1);
        plan.lemma_place(chunk, size, block_size, from + 1);
        lemma_sums_nonnegative(plan.open);
        plan.lemma_turn(size, from + 1);
        lemma_sums_nonnegative(plan.turn(size).open);
        match plan.place(chunk, size, block_size) {
            Some(next) => {
                lemma_place_from_succeeds(next, chunks, from + 1, size, block_size);
            },
            None => {},
        }
    }
}

/// Each fragment of a split raw image can be written out within `size`
/// bytes, its header counts its blocks and its chunks exactly, and it starts
/// where the fragments before it end.
pub proof fn lemma_split_raw_fits(raw_size: usize, size: u32)
    requires
        raw_block_count(raw_size as int) <= u32::MAX,
        raw_split_plan(raw_size, size) is Some,
    ensures
        forall|k: int|
            #![trigger raw_split_plan(raw_size, size)->Some_0[k]]
            0 <= k < raw_split_plan(raw_size, size)->Some_0.len() ==> {
                let fragment = raw_split_plan(raw_size, size)->Some_0[k];
                &&& image_size(fragment) <= size
                &&& summary(fragment, DEFAULT_BLOCKSIZE).blocks == blocks_of(fragment)
                &&& summary(fragment, DEFAULT_BLOCKSIZE).chunks == fragment.len()
                &&& lead_blocks(fragment) == total_data_blocks(
                    raw_split_plan(raw_size, size)->Some_0.take(k),
                )
            },
{
    let plan = raw_split_plan(raw_size, size)->Some_0;
    if raw_size != 0 {
        let first = Plan::start(size, 0);
        Plan::lemma_start(size, 0);
        first.lemma_spread_raw(size, DEFAULT_BLOCKSIZE, raw_block_count(raw_size as int) as nat, 2);
        let q = first.spread_raw(size, DEFAULT_BLOCKSIZE, raw_block_count(raw_size as int) as nat);
        q.lemma_fragments_fit(size, 2);
        assert forall|k: int| 0 <= k < plan.len() implies blocks_of(#[trigger] plan[k]) >= 0
            && lead_blocks(plan[k]) == total_data_blocks(plan.take(k)) by {
            lemma_sums_nonnegative(plan[k]);
            lemma_starts_in_order_at(plan, k);
        }
    }
}

/// The raw chunks of a split raw image hold as many blocks as the image
/// takes up, its last block padded.
pub proof fn lemma_split_raw_blocks(raw_size: usize, size: u32)
    requires
        raw_block_count(raw_size as int) <= u32::MAX,
        raw_split_plan(raw_size, size) is Some,
    ensures
        total_raw_blocks(raw_split_plan(raw_size, size)->Some_0) == raw_block_count(
            raw_size as int,
        ),
{
    if raw_size != 0 {
        let first = Plan::start(size, 0);
        Plan::lemma_start(size, 0);
        first.lemma_spread_raw(size, DEFAULT_BLOCKSIZE, raw_block_count(raw_size as int) as nat, 2);
    }
}

impl Plan {
    /// One more chunk in the open fragment adds the bytes it reads.
    proof fn lemma_read_with_chunk(self, chunk: SplitChunk, cursor: int, file: Seq<u8>)
        ensures
            total_read(self.with_chunk(chunk, cursor).fragments(), file) == total_read(
                self.fragments(),
                file,
            ) + file.subrange(chunk.offset as int, chunk.offset + chunk.size),
    {
        let q = self.with_chunk(chunk, cursor);
        lemma_read_push(self.open, chunk, file);
        lemma_total_read_push(self.done, self.open, file);
        lemma_total_read_push(q.done, q.open, file);
        let piece = file.subrange(chunk.offset as int, chunk.offset + chunk.size);
        assert(total_read(self.done, file) + (read_of(self.open, file) + piece) =~= (total_read(
            self.done,
            file,
        ) + read_of(self.open, file)) + piece);
    }
    /// Closing the open fragment adds nothing to the bytes read.
    proof fn lemma_read_turn(self, size: u32, file: Seq<u8>)
        ensures
            total_read(self.turn(size).fragments(), file) == total_read(self.fragments(), file),
    {
        let q = self.turn(size);
        lemma_total_read_push(q.done, q.open, file);
        if self.blocks != 0 {
            lemma_read_push(Seq::empty(), seek_chunk(self.blocks), file);
            assert(q.open =~= Seq::<SplitChunk>::empty().push(seek_chunk(self.blocks)));
            assert(read_of(q.open, file) =~= Seq::<u8>::empty());
        } else {
            assert(read_of(q.open, file) =~= Seq::<u8>::empty());
        }
        assert(total_read(q.done, file) + Seq::<u8>::empty() =~= total_read(q.done, file));
    }
    /// Spreading raw data reads its bytes, from the first to the last.
    proof fn lemma_read_spread_raw(
        self,
        size: u32,
        block_size: u32,
        left: nat,
        count: int,
        file: Seq<u8>,
    )
        requires
            block_size > 0,
            size >= minimal_size(block_size),
            self.sound(size, count),
            self.open.len() < count,
            count >= 2,
            self.blocks + left <= u32::MAX,
            0 <= self.cursor,
            self.cursor + left * block_size <= file.len() <= usize::MAX,
        ensures
            total_read(self.spread_raw(size, block_size, left).fragments(), file) == total_read(
                self.fragments(),
                file,
            ) + file.subrange(self.cursor, self.cursor + left * block_size),
        decreases left, (if raw_room(self.space, block_size) > 0 {
            0int
        } else {
            1int
        }),
    {
        let room = raw_room(self.space, block_size);
        let all = file.subrange(self.cursor, self.cursor + left * block_size);
        if room > 0 {
            let blocks = if left <= room {
                left as int
            } else {
                room
            };
            lemma_sums_nonnegative(self.open);
            lemma_raw_take(self.space, block_size, blocks);
            let chunk = raw_chunk(blocks, block_size, self.cursor);
            let filled = self.take_raw(blocks, block_size);
            assert(filled == self.with_chunk(chunk, self.cursor + blocks * block_size));
            self.lemma_with_chunk(chunk, self.cursor + blocks * block_size, size, count);
            self.lemma_read_with_chunk(chunk, self.cursor + blocks * block_size, file);
            assert(blocks * block_size <= left * block_size) by (nonlinear_arith)
                requires
                    0 <= blocks <= left,
                    block_size > 0,
            ;
            let head = file.subrange(self.cursor, self.cursor + blocks * block_size);
            if blocks < left {
                filled.lemma_turn(size, count);
                filled.lemma_read_turn(size, file);
                assert((left - blocks) * block_size + blocks * block_size == left * block_size)
                    by (nonlinear_arith);
                filled.turn(size).lemma_read_spread_raw(
                    size,
                    block_size,
                    (left - blocks) as nat,
                    count,
                    file,
                );
                let tail = file.subrange(
                    self.cursor + blocks * block_size,
                    self.cursor + left * block_size,
                );
                assert(head + tail =~= all);
                assert((total_read(self.fragments(), file) + head) + tail =~= total_read(
                    self.fragments(),
                    file,
                ) + (head + tail));
            }
        } else if left == 0 {
            assert(left * block_size == 0) by (nonlinear_arith)
                requires
                    left == 0,
            ;
            assert(all =~= Seq::<u8>::empty());
            assert(total_read(self.fragments(), file) + Seq::<u8>::empty() =~= total_read(
                self.fragments(),
                file,
            ));
        } else {
            self.lemma_turn(size, count);
            self.lemma_read_turn(size, file);
            lemma_fresh_room(size, block_size, self.blocks);
            self.turn(size).lemma_read_spread_raw(size, block_size, left, count, file);
        }
    }
    /// Placing a chunk reads its payload.
    proof fn lemma_read_place(
        self,
        chunk: ChunkHeader,
        size: u32,
        block_size: u32,
        count: int,
        file: Seq<u8>,
    )
        requires
            block_size > 0,
            size >= minimal_size(block_size),
            self.sound(size, count),
            count >= 1,
            0 < self.cursor,
            self.cursor + chunk.payload_size() <= file.len() <= usize::MAX,
            self.blocks + chunk.chunk_size <= u32::MAX,
            chunk.chunk_type == ChunkType::Raw ==> chunk.chunk_size * block_size
                == chunk.payload_size(),
        ensures
            self.place(chunk, size, block_size) matches Some(q) ==> total_read(
                q.fragments(),
                file,
            ) == total_read(self.fragments(), file) + file.subrange(
                self.cursor,
                self.cursor + chunk.payload_size(),
            ),
    {
        if self.space > chunk.total_size {
            let whole = whole_chunk(chunk, self.cursor);
            assert(self.take_whole(chunk) == self.with_chunk(
                whole,
                self.cursor + chunk.total_size,
            ));
            self.lemma_read_with_chunk(whole, self.cursor + chunk.total_size, file);
        } else if chunk.chunk_type == ChunkType::Raw {
            self.lemma_read_spread_raw(size, block_size, chunk.chunk_size as nat, count + 1, file);
        } else if self.turn(size).space > chunk.total_size {
            let turned = self.turn(size);
            self.lemma_read_turn(size, file);
            let whole = whole_chunk(chunk, turned.cursor);
            assert(turned.take_whole(chunk) == turned.with_chunk(
                whole,
                turned.cursor + chunk.total_size,
            ));
            turned.lemma_read_with_chunk(whole, turned.cursor + chunk.total_size, file);
        }
    }
    /// Placing the chunks from `from` on reads the payload of the image.
    proof fn lemma_read_place_from(
        self,
        chunks: Seq<ChunkHeader>,
        from: int,
        size: u32,
        block_size: u32,
        file: Seq<u8>,
    )
        requires
            block_size > 0,
            size >= minimal_size(block_size),
            0 <= from <= chunks.len(),
            self.sound(size, from + 1),
            self.blocks == input_blocks(chunks.take(from)),
            self.cursor == FILE_HEADER_BYTES_LEN + CHUNK_HEADER_BYTES_LEN + input_bytes(
                chunks.take(from),
            ),
            input_blocks(chunks) <= u32::MAX,
            raw_chunks_exact(chunks, block_size),
            holds_image(file, chunks),
            total_read(self.fragments(), file) == input_payload_of(chunks.take(from), file),
        ensures
            self.place_from(chunks, from, size, block_size) matches Some(q) ==> total_read(
                q.fragments(),
                file,
            ) == input_payload_of(chunks, file),
        decreases chunks.len() - from,
    {
        lemma_input_prefix(chunks, from);
        if from < chunks.len() {
            lemma_input_prefix(chunks, from + 1);
            assert(chunks.take(from + 1).drop_last() =~= chunks.take(from));
            self.lemma_place(chunks[from], size, block_size, from + 1);
            self.lemma_read_place(chunks[from], size, block_size, from + 1, file);
            match self.place(chunks[from], size, block_size) {
                None => {},
                Some(next) => {
                    next.lemma_read_place_from(chunks, from + 1, size, block_size, file);
                },
            }
        } else {
            assert(chunks.take(from) =~= chunks);
        }
    }
}

/// Where the payload of each raw chunk is exactly its blocks, the chunks of
/// a split image read the payload of the image from its file: each byte of
/// it once, and in the order in which it lies there.
pub proof fn lemma_split_image_reads_payload(
    header: FileHeader,
    chunks: Seq<ChunkHeader>,
    size: u32,
    file: Seq<u8>,
)
    requires
        splittable(header, chunks),
        raw_chunks_exact(chunks, header.block_size),
        holds_image(file, chunks),
        split_plan(header, chunks, size) is Some,
    ensures
        total_read(split_plan(header, chunks, size)->Some_0, file) == input_payload_of(
            chunks,
            file,
        ),
{
    let first = Plan::start(size, FILE_HEADER_BYTES_LEN + CHUNK_HEADER_BYTES_LEN);
    Plan::lemma_start(size, FILE_HEADER_BYTES_LEN + CHUNK_HEADER_BYTES_LEN);
    assert(chunks.take(0) =~= Seq::empty());
    lemma_total_read_push(first.done, first.open, file);
    assert(total_read(first.fragments(), file) =~= Seq::<u8>::empty());
    first.lemma_read_place_from(chunks, 0, size, header.block_size, file);
}

/// The chunks of a split raw image read a file of whole blocks from its
/// first byte to its last.
pub proof fn lemma_split_raw_reads_all(raw_size: usize, size: u32, file: Seq<u8>)
    requires
        raw_block_count(raw_size as int) <= u32::MAX,
        file.len() == raw_block_count(raw_size as int) * DEFAULT_BLOCKSIZE,
        file.len() <= usize::MAX,
        raw_split_plan(raw_size, size) is Some,
    ensures
        total_read(raw_split_plan(raw_size, size)->Some_0, file) == file,
{
    if raw_size != 0 {
        let first = Plan::start(size, 0);
        Plan::lemma_start(size, 0);
        lemma_total_read_push(first.done, first.open, file);
        assert(total_read(first.fragments(), file) =~= Seq::<u8>::empty());
        first.lemma_read_spread_raw(
            size,
            DEFAULT_BLOCKSIZE,
            raw_block_count(raw_size as int) as nat,
            2,
            file,
        );
        assert(Seq::<u8>::empty() + file.subrange(0, file.len() as int) =~= file);
    } else {
        assert(file =~= Seq::<u8>::empty());
    }
}

/// Whether every skipped range among the chunks is the leading seek: a
/// chunk of type `DontCare` stands first and reads nothing.
pub open spec fn seeks_lead(chunks: Seq<SplitChunk>) -> bool {
    forall|j: int|
        0 <= j < chunks.len() && (#[trigger] chunks[j]).header.chunk_type == ChunkType::DontCare
            ==> j == 0 && chunks[j].is_seek()
}

/// Whether the image holds no skipped range.
pub open spec fn no_skipped_range(chunks: Seq<ChunkHeader>) -> bool {
    forall|i: int|
        0 <= i < chunks.len() ==> (#[trigger] chunks[i]).chunk_type != ChunkType::DontCare
}

/// Whether every skipped range of the image is empty.
pub open spec fn no_skipped_blocks(chunks: Seq<ChunkHeader>) -> bool {
    forall|i: int|
        0 <= i < chunks.len() && (#[trigger] chunks[i]).chunk_type == ChunkType::DontCare
            ==> chunks[i].chunk_size == 0
}

/// What is asked of the skipped ranges of a fragment: that each is the
/// leading seek, or, where `strict` is not set, that each is a seek or
/// empty.
spec fn shaped(chunks: Seq<SplitChunk>, strict: bool) -> bool {
    if strict {
        seeks_lead(chunks)
    } else {
        skips_nothing(chunks)
    }
}

/// Whether a chunk can follow in a fragment that is shaped.
spec fn follows(chunk: SplitChunk, strict: bool) -> bool {
    chunk.header.chunk_type == ChunkType::DontCare ==> !strict && chunk.header.chunk_size == 0
}

/// Whether a chunk of the image can be placed in fragments that are
/// shaped.
spec fn placeable(chunk: ChunkHeader, strict: bool) -> bool {
    chunk.chunk_type == ChunkType::DontCare ==> !strict && chunk.chunk_size == 0
}

/// Whether each of the fragments is shaped.
spec fn all_shaped(fragments: Seq<Seq<SplitChunk>>, strict: bool) -> bool {
    forall|k: int| 0 <= k < fragments.len() ==> shaped(#[trigger] fragments[k], strict)
}

/// A chunk that can follow keeps a fragment shaped.
proof fn lemma_shaped_push(chunks: Seq<SplitChunk>, chunk: SplitChunk, strict: bool)
    requires
        shaped(chunks, strict),
        follows(chunk, strict),
    ensures
        shaped(chunks.push(chunk), strict),
{
    let more = chunks.push(chunk);
    assert forall|j: int| 0 <= j < more.len() implies (if j < chunks.len() {
        #[trigger] more[j] == chunks[j]
    } else {
        more[j] == chunk
    }) by {}
}

/// A new fragment is shaped.
proof fn lemma_shaped_fresh(first_block: int, strict: bool)
    ensures
        shaped(fresh_chunks(first_block), strict),
{
    let fresh = fresh_chunks(first_block);
    assert forall|j: int| 0 <= j < fresh.len() implies j == 0 && (#[trigger] fresh[j]).is_seek(
    ) by {}
}

impl Plan {
    /// A chunk that can follow in the open fragment keeps the fragments
    /// shaped.
    proof fn lemma_shaped_with_chunk(self, chunk: SplitChunk, cursor: int, strict: bool)
        requires
            all_shaped(self.fragments(), strict),
            follows(chunk, strict),
        ensures
            all_shaped(self.with_chunk(chunk, cursor).fragments(), strict),
    {
        let q = self.with_chunk(chunk, cursor);
        assert(self.fragments()[self.done.len() as int] == self.open);
        lemma_shaped_push(self.open, chunk, strict);
        assert forall|k: int| 0 <= k < q.fragments().len() implies shaped(
            #[trigger] q.fragments()[k],
            strict,
        ) by {
            if k < self.done.len() {
                assert(q.fragments()[k] == self.fragments()[k]);
            }
        }
    }

    /// Closing the open fragment keeps the fragments shaped.
    proof fn lemma_shaped_turn(self, size: u32, strict: bool)
        requires
            all_shaped(self.fragments(), strict),
        ensures
            all_shaped(self.turn(size).fragments(), strict),
    {
        let q = self.turn(size);
        lemma_shaped_fresh(self.blocks, strict);
        assert forall|k: int| 0 <= k < q.fragments().len() implies shaped(
            #[trigger] q.fragments()[k],
            strict,
        ) by {
            if k <= self.done.len() {
                assert(q.fragments()[k] == self.fragments()[k]);
            }
        }
    }

    /// Spreading raw data keeps the fragments shaped.
    proof fn lemma_shaped_spread_raw(self, size: u32, block_size: u32, left: nat, strict: bool)
        requires
            block_size > 0,
            size >= minimal_size(block_size),
            all_shaped(self.fragments(), strict),
        ensures
            all_shaped(self.spread_raw(size, block_size, left).fragments(), strict),
        decreases left, (if raw_room(self.space, block_size) > 0 {
            0int
        } else {
            1int
        }),
    {
        let room = raw_room(self.space, block_size);
        if room > 0 {
            let blocks = if left <= room {
                left as int
            } else {
                room
            };
            let chunk = raw_chunk(blocks, block_size, self.cursor);
            let filled = self.take_raw(blocks, block_size);
            assert(filled.fragments() == self.with_chunk(
                chunk,
                self.cursor + blocks * block_size,
            ).fragments());
            self.lemma_shaped_with_chunk(chunk, self.cursor + blocks * block_size, strict);
            if blocks < left {
                filled.lemma_shaped_turn(size, strict);
                filled.turn(size).lemma_shaped_spread_raw(
                    size,
                    block_size,
                    (left - blocks) as nat,
                    strict,
                );
            }
        } else if left != 0 {
            self.lemma_shaped_turn(size, strict);
            lemma_fresh_room(size, block_size, self.blocks);
            self.turn(size).lemma_shaped_spread_raw(size, block_size, left, strict);
        }
    }

    /// Placing chunks that can be placed keeps the fragments shaped.
    proof fn lemma_shaped_place_from(
        self,
        chunks: Seq<ChunkHeader>,
        from: int,
        size: u32,
        block_size: u32,
        strict: bool,
    )
        requires
            block_size > 0,
            size >= minimal_size(block_size),
            0 <= from <= chunks.len(),
            all_shaped(self.fragments(), strict),
            forall|i: int| 0 <= i < chunks.len() ==> placeable(#[trigger] chunks[i], strict),
        ensures
            self.place_from(chunks, from, size, block_size) matches Some(q) ==> all_shaped(
                q.fragments(),
                strict,
            ),
        decreases chunks.len() - from,
    {
        if from < chunks.len() {
            let chunk = chunks[from];
            assert(placeable(chunk, strict));
            if self.space > chunk.total_size {
                let whole = whole_chunk(chunk, self.cursor);
                assert(self.take_whole(chunk).fragments() == self.with_chunk(
                    whole,
                    self.cursor + chunk.total_size,
                ).fragments());
                self.lemma_shaped_with_chunk(whole, self.cursor + chunk.total_size, strict);
            } else if chunk.chunk_type == ChunkType::Raw {
                self.lemma_shaped_spread_raw(size, block_size, chunk.chunk_size as nat, strict);
            } else if self.turn(size).space > chunk.total_size {
                let turned = self.turn(size);
                self.lemma_shaped_turn(size, strict);
                let whole = whole_chunk(chunk, turned.cursor);
                assert(turned.take_whole(chunk).fragments() == turned.with_chunk(
                    whole,
                    turned.cursor + chunk.total_size,
                ).fragments());
                turned.lemma_shaped_with_chunk(whole, turned.cursor + chunk.total_size, strict);
            }
            match self.place(chunk, size, block_size) {
                None => {},
                Some(next) => {
                    next.lemma_shaped_place_from(chunks, from + 1, size, block_size, strict);
                },
            }
        }
    }
}

/// What holds of the skipped ranges in the fragments of a split image.
proof fn lemma_split_image_shaped(
    header: FileHeader,
    chunks: Seq<ChunkHeader>,
    size: u32,
    strict: bool,
)
    requires
        header.block_size > 0,
        split_plan(header, chunks, size) is Some,
        forall|i: int| 0 <= i < chunks.len() ==> placeable(#[trigger] chunks[i], strict),
    ensures
        all_shaped(split_plan(header, chunks, size)->Some_0, strict),
{
    let first = Plan::start(size, FILE_HEADER_BYTES_LEN + CHUNK_HEADER_BYTES_LEN);
    lemma_shaped_fresh(0, strict);
    assert forall|k: int| 0 <= k < first.fragments().len() implies shaped(
        #[trigger] first.fragments()[k],
        strict,
    ) by {
        assert(first.fragments()[k] == fresh_chunks(0));
    }
    first.lemma_shaped_place_from(chunks, 0, size, header.block_size, strict);
}

/// Where the image holds no skipped range, every skipped range in a
/// fragment of the split image is the leading seek of the fragment.
pub proof fn lemma_split_image_seeks_lead(
    header: FileHeader,
    chunks: Seq<ChunkHeader>,
    size: u32,
)
    requires
        header.block_size > 0,
        no_skipped_range(chunks),
        split_plan(header, chunks, size) is Some,
    ensures
        forall|k: int|
            0 <= k < split_plan(header, chunks, size)->Some_0.len() ==> seeks_lead(
                #[trigger] split_plan(header, chunks, size)->Some_0[k],
            ),
{
    lemma_split_image_shaped(header, chunks, size, true);
    let plan = split_plan(header, chunks, size)->Some_0;
    assert forall|k: int| 0 <= k < plan.len() implies seeks_lead(#[trigger] plan[k]) by {
        assert(shaped(plan[k], true));
    }
}

/// Where every skipped range of the image is empty, the fragments of the
/// split image took over no skipped range but empty ones.
pub proof fn lemma_split_image_skips_nothing(
    header: FileHeader,
    chunks: Seq<ChunkHeader>,
    size: u32,
)
    requires
        header.block_size > 0,
        no_skipped_blocks(chunks),
        split_plan(header, chunks, size) is Some,
    ensures
        forall|k: int|
            0 <= k < split_plan(header, chunks, size)->Some_0.len() ==> skips_nothing(
                #[trigger] split_plan(header, chunks, size)->Some_0[k],
            ),
{
    lemma_split_image_shaped(header, chunks, size, false);
    let plan = split_plan(header, chunks, size)->Some_0;
    assert forall|k: int| 0 <= k < plan.len() implies skips_nothing(#[trigger] plan[k]) by {
        assert(shaped(plan[k], false));
    }
}

/// Where every skipped range of the image is empty, the leading seek of
/// each fragment skips the sum of the `chunk_size` of all chunks of the
/// fragments before it that are not of type `DontCare`.
pub proof fn lemma_split_image_starts_of_kept(
    header: FileHeader,
    chunks: Seq<ChunkHeader>,
    size: u32,
    k: int,
)
    requires
        splittable(header, chunks),
        no_skipped_blocks(chunks),
        split_plan(header, chunks, size) is Some,
        0 <= k < split_plan(header, chunks, size)->Some_0.len(),
    ensures
        lead_blocks(split_plan(header, chunks, size)->Some_0[k]) == total_kept_blocks(
            split_plan(header, chunks, size)->Some_0.take(k),
        ),
{
    lemma_split_image_skips_nothing(header, chunks, size);
    lemma_split_image_starts_after_kept(header, chunks, size, k);
}

/// Whether a fragment of a split raw image has its shape, where `before`
/// raw blocks come before it: a seek to block `before`, unless that is
/// block 0, and one raw chunk of one block at least, which reads from where
/// block `before` lies in the image.
pub open spec fn raw_fragment(chunks: Seq<SplitChunk>, before: int) -> bool {
    &&& chunks.len() > 0
    &&& chunks.last().header.chunk_size >= 1
    &&& chunks == fresh_chunks(before).push(
        raw_chunk(
            chunks.last().header.chunk_size as int,
            DEFAULT_BLOCKSIZE,
            before * DEFAULT_BLOCKSIZE,
        ),
    )
}

/// Whether each of the fragments has the shape of a fragment of a split
/// raw image, with the raw blocks of the fragments before it before it.
spec fn raw_fragments(fragments: Seq<Seq<SplitChunk>>) -> bool
    decreases fragments.len(),
{
    fragments.len() == 0 || (raw_fragments(fragments.drop_last()) && raw_fragment(
        fragments.last(),
        total_raw_blocks(fragments.drop_last()),
    ))
}

/// A fragment of a split raw image holds the raw blocks of its one raw
/// chunk.
proof fn lemma_raw_fragment_blocks(chunks: Seq<SplitChunk>, before: int)
    requires
        raw_fragment(chunks, before),
    ensures
        raw_blocks(chunks) == chunks.last().header.chunk_size,
        raw_blocks(chunks) >= 1,
{
    let fresh = fresh_chunks(before);
    let raw = raw_chunk(
        chunks.last().header.chunk_size as int,
        DEFAULT_BLOCKSIZE,
        before * DEFAULT_BLOCKSIZE,
    );
    if before != 0 {
        lemma_sums_push(Seq::empty(), seek_chunk(before));
        assert(fresh =~= Seq::<SplitChunk>::empty().push(seek_chunk(before)));
    }
    assert(raw_blocks(fresh) == 0);
    lemma_sums_push(fresh, raw);
}

/// The first `k` of such fragments are such fragments, with `k` raw blocks
/// at least; and the next one has its shape.
proof fn lemma_raw_fragments_prefix(fragments: Seq<Seq<SplitChunk>>, k: int)
    requires
        raw_fragments(fragments),
        0 <= k <= fragments.len(),
    ensures
        raw_fragments(fragments.take(k)),
        total_raw_blocks(fragments.take(k)) >= k,
        k < fragments.len() ==> raw_fragment(fragments[k], total_raw_blocks(fragments.take(k))),
    decreases fragments.len(),
{
    if k == fragments.len() {
        assert(fragments.take(k) =~= fragments);
        if k > 0 {
            lemma_raw_fragments_prefix(fragments.drop_last(), k - 1);
            assert(fragments.drop_last().take(k - 1) =~= fragments.drop_last());
            lemma_raw_fragment_blocks(
                fragments.last(),
                total_raw_blocks(fragments.drop_last()),
            );
        }
    } else {
        lemma_raw_fragments_prefix(fragments.drop_last(), k);
        assert(fragments.drop_last().take(k) =~= fragments.take(k));
        if k == fragments.len() - 1 {
            assert(fragments.take(k) =~= fragments.drop_last());
        } else {
            assert(fragments.drop_last()[k] == fragments[k]);
        }
    }
}

impl Plan {
    /// Spreading raw data from a new fragment on makes fragments of the
    /// shape of a split raw image.
    proof fn lemma_raw_spread_shape(self, size: u32, left: nat)
        requires
            size >= minimal_size(DEFAULT_BLOCKSIZE),
            left >= 1,
            raw_fragments(self.done),
            total_raw_blocks(self.done) == self.blocks,
            0 <= self.blocks,
            self.blocks + left <= u32::MAX,
            self.open == fresh_chunks(self.blocks),
            self.space == fresh_space(size, self.blocks),
            self.cursor == self.blocks * DEFAULT_BLOCKSIZE,
        ensures
            raw_fragments(self.spread_raw(size, DEFAULT_BLOCKSIZE, left).fragments()),
        decreases left,
    {
        lemma_fresh_room(size, DEFAULT_BLOCKSIZE, self.blocks);
        let room = raw_room(self.space, DEFAULT_BLOCKSIZE);
        let blocks = if left <= room {
            left as int
        } else {
            room
        };
        lemma_raw_take(self.space, DEFAULT_BLOCKSIZE, blocks);
        let filled = self.take_raw(blocks, DEFAULT_BLOCKSIZE);
        assert(filled.open.last() == raw_chunk(blocks, DEFAULT_BLOCKSIZE, self.cursor));
        assert(raw_fragment(filled.open, self.blocks));
        lemma_raw_fragment_blocks(filled.open, self.blocks);
        lemma_totals_push(self.done, filled.open);
        assert(self.done.push(filled.open).drop_last() =~= self.done);
        assert(raw_fragments(self.done.push(filled.open)));
        if blocks < left {
            let turned = filled.turn(size);
            turned.lemma_raw_spread_shape(size, (left - blocks) as nat);
        }
    }
}

/// Each fragment of a split raw image is a seek to the raw blocks that the
/// fragments before it hold, and one raw chunk of one block at least, which
/// reads from where the first of its blocks lies in the image.  The first
/// fragment, and no other, has no seek.
pub proof fn lemma_split_raw_shape(raw_size: usize, size: u32, k: int)
    requires
        raw_block_count(raw_size as int) <= u32::MAX,
        raw_split_plan(raw_size, size) is Some,
        0 <= k < raw_split_plan(raw_size, size)->Some_0.len(),
    ensures
        raw_fragment(
            raw_split_plan(raw_size, size)->Some_0[k],
            total_raw_blocks(raw_split_plan(raw_size, size)->Some_0.take(k)),
        ),
        k == 0 <==> total_raw_blocks(raw_split_plan(raw_size, size)->Some_0.take(k)) == 0,
{
    let plan = raw_split_plan(raw_size, size)->Some_0;
    if raw_size != 0 {
        let first = Plan::start(size, 0);
        first.lemma_raw_spread_shape(size, raw_block_count(raw_size as int) as nat);
        lemma_raw_fragments_prefix(plan, k);
        if k == 0 {
            assert(plan.take(0) =~= Seq::<Seq<SplitChunk>>::empty());
        }
    }
}

} // verus!
