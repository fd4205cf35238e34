//! The Android sparse image container: its file header and chunk headers.
//!
//! A sparse image is a 28 byte file header followed by chunks.  Each chunk is
//! a 12 byte header followed by its payload.  All integers are little-endian.

use crate::wire::{
    advance, get_u16_le, get_u32_le, le_u16, le_u32, lemma_le_u16_of_prefix,
    lemma_le_u32_of_prefix, lemma_u16_le_bytes_of_value, lemma_u32_le_bytes_of_value, put_u16_le,
    put_u32_le, u16_le_bytes, u32_le_bytes,
};
use vstd::prelude::*;

verus! {

/// Length of the file header in bytes
pub const FILE_HEADER_BYTES_LEN: usize = 28;

/// Length of the chunk header in bytes
pub const CHUNK_HEADER_BYTES_LEN: usize = 12;

/// File magic: the first four bytes, read as a little-endian integer
pub const HEADER_MAGIC: u32 = 0xed26ff3a;

/// Block size used where the image itself does not name one
pub const DEFAULT_BLOCKSIZE: u32 = 4096;

/// Byte parsing errors
#[derive(Clone, Copy, Debug, PartialEq, Eq)]
pub enum ParseError {
    /// The header has an unknown magic value
    UnknownMagic,
    /// The header has an unknown version
    UnknownVersion,
    /// The header has an unexpected header or chunk header size
    UnexpectedSize,
    /// The chunk header has an unknown chunk type
    UnknownChunkType,
}

/// Byte array which fits a file header
pub type FileHeaderBytes = [u8; FILE_HEADER_BYTES_LEN];

/// Global file header
#[derive(Debug, Clone, PartialEq, Eq)]
pub struct FileHeader {
    /// Block size in bytes (should be multiple of 4)
    pub block_size: u32,
    /// Number of blocks in the expanded image
    pub blocks: u32,
    /// Number of chunks in the sparse image
    pub chunks: u32,
    /// Optional CRC32 Checksum
    pub checksum: u32,
}

impl FileHeader {
    /// What 28 bytes decode to: the header they hold, or the first check
    /// that they fail.
    pub open spec fn decode(b: Seq<u8>) -> Result<FileHeader, ParseError>
        recommends
            b.len() == FILE_HEADER_BYTES_LEN,
    {
        if le_u32(b) != HEADER_MAGIC {
            Err(ParseError::UnknownMagic)
        } else if le_u16(b.skip(4)) != 1 || le_u16(b.skip(6)) != 0 {
            Err(ParseError::UnknownVersion)
        } else if le_u16(b.skip(8)) != FILE_HEADER_BYTES_LEN || le_u16(b.skip(10))
            != CHUNK_HEADER_BYTES_LEN {
            Err(ParseError::UnexpectedSize)
        } else {
            Ok(
                FileHeader {
                    block_size: le_u32(b.skip(12)) as u32,
                    blocks: le_u32(b.skip(16)) as u32,
                    chunks: le_u32(b.skip(20)) as u32,
                    checksum: le_u32(b.skip(24)) as u32,
                },
            )
        }
    }

    /// The 28 bytes of this header on the wire: magic, version 1.0, the two
    /// fixed sizes, then the four fields.
    pub open spec fn encoding(&self) -> Seq<u8> {
        u32_le_bytes(HEADER_MAGIC) + u16_le_bytes(1) + u16_le_bytes(0) + u16_le_bytes(28)
            + u16_le_bytes(12) + u32_le_bytes(self.block_size) + u32_le_bytes(self.blocks)
            + u32_le_bytes(self.chunks) + u32_le_bytes(self.checksum)
    }

    /// Size in bytes of the expanded image.
    pub open spec fn expanded_size(&self) -> int {
        self.blocks as int * self.block_size as int
    }

    /// Create new FileHeader from a raw header
    pub fn from_bytes(bytes: &FileHeaderBytes) -> (r: Result<FileHeader, ParseError>)
        ensures
            r == FileHeader::decode(bytes@),
    {
        let b: &[u8] = bytes.as_slice();
        let (magic, b) = get_u32_le(b);
        if magic != HEADER_MAGIC {
            return Err(ParseError::UnknownMagic);
        }
        let (major, b) = get_u16_le(b);
        if major != 0x1 {
            return Err(ParseError::UnknownVersion);
        }
        let (minor, b) = get_u16_le(b);
        if minor != 0x0 {
            return Err(ParseError::UnknownVersion);
        }
        let (header_len, b) = get_u16_le(b);
        if header_len as usize != FILE_HEADER_BYTES_LEN {
            return Err(ParseError::UnexpectedSize);
        }
        let (chunk_header_len, b) = get_u16_le(b);
        if chunk_header_len as usize != CHUNK_HEADER_BYTES_LEN {
            return Err(ParseError::UnexpectedSize);
        }
        let (block_size, b) = get_u32_le(b);
        let (blocks, b) = get_u32_le(b);
        let (chunks, b) = get_u32_le(b);
        let (checksum, _) = get_u32_le(b);
        Ok(FileHeader { block_size, blocks, chunks, checksum })
    }

    /// Convert into a raw header
    pub fn to_bytes(&self) -> (bytes: FileHeaderBytes)
        ensures
            bytes@ == self.encoding(),
    {
        let mut w: Vec<u8> = Vec::new();
        put_u32_le(&mut w, HEADER_MAGIC);
        // Version 1.0
        put_u16_le(&mut w, 0x1);
        put_u16_le(&mut w, 0x0);
        put_u16_le(&mut w, FILE_HEADER_BYTES_LEN as u16);
        put_u16_le(&mut w, CHUNK_HEADER_BYTES_LEN as u16);
        put_u32_le(&mut w, self.block_size);
        put_u32_le(&mut w, self.blocks);
        put_u32_le(&mut w, self.chunks);
        put_u32_le(&mut w, self.checksum);
        let mut bytes: FileHeaderBytes = [0; FILE_HEADER_BYTES_LEN];
        let mut i: usize = 0;
        while i < FILE_HEADER_BYTES_LEN
            invariant
                i <= FILE_HEADER_BYTES_LEN,
                w@.len() == FILE_HEADER_BYTES_LEN,
                forall|j: int| 0 <= j < i ==> bytes@[j] == w@[j],
            decreases FILE_HEADER_BYTES_LEN - i,
        {
            bytes[i] = w[i];
            i += 1;
        }
        assert(bytes@ =~= w@);
        bytes
    }

    /// Size in bytes of the expanded image
    pub fn total_size(&self) -> (r: usize)
        requires
            self.expanded_size() <= usize::MAX,
        ensures
            r == self.expanded_size(),
    {
        proof {
            vstd::arithmetic::mul::lemma_mul_nonnegative(
                self.blocks as int,
                self.block_size as int,
            );
        }
        self.blocks as usize * self.block_size as usize
    }
}

/// Type of a chunk
#[derive(Copy, Clone, Debug, Eq, PartialEq, Structural)]
pub enum ChunkType {
    /// Chunk header is followed by raw content for [ChunkHeader::out_size] bytes; Should be copied
    /// to the output
    Raw,
    /// Chunk header is followed by 4 bytes; which should be used to fill the output
    Fill,
    /// No data after the chunk; The next [ChunkHeader::out_size] bytes can be filled with any
    /// content
    DontCare,
    /// Chunk header is followed by 4 bytes, which is a crc32 checksum
    Crc32,
}

impl ChunkType {
    /// The number that stands for this type on the wire.
    pub open spec fn code(self) -> u16 {
        match self {
            ChunkType::Raw => 0xcac1,
            ChunkType::Fill => 0xcac2,
            ChunkType::DontCare => 0xcac3,
            ChunkType::Crc32 => 0xcac4,
        }
    }

    /// The type that `code` stands for, if it is one of the four known codes.
    pub open spec fn of_code(code: int) -> Option<ChunkType> {
        if code == 0xcac1 {
            Some(ChunkType::Raw)
        } else if code == 0xcac2 {
            Some(ChunkType::Fill)
        } else if code == 0xcac3 {
            Some(ChunkType::DontCare)
        } else if code == 0xcac4 {
            Some(ChunkType::Crc32)
        } else {
            None
        }
    }

    /// The type with the given wire code; `None` for any other number.
    pub fn from_repr(discriminant: usize) -> (r: Option<ChunkType>)
        ensures
            r == ChunkType::of_code(discriminant as int),
    {
        if discriminant == 0xcac1 {
            Some(ChunkType::Raw)
        } else if discriminant == 0xcac2 {
            Some(ChunkType::Fill)
        } else if discriminant == 0xcac3 {
            Some(ChunkType::DontCare)
        } else if discriminant == 0xcac4 {
            Some(ChunkType::Crc32)
        } else {
            None
        }
    }

    /// The wire code of this type.
    pub fn to_repr(self) -> (r: u16)
        ensures
            r == self.code(),
    {
        match self {
            ChunkType::Raw => 0xcac1,
            ChunkType::Fill => 0xcac2,
            ChunkType::DontCare => 0xcac3,
            ChunkType::Crc32 => 0xcac4,
        }
    }
}

/// Byte array which fits a chunk header
pub type ChunkHeaderBytes = [u8; CHUNK_HEADER_BYTES_LEN];

/// Header of a chunk
#[derive(Debug, Clone, PartialEq, Eq)]
pub struct ChunkHeader {
    /// The type of the chunk
    pub chunk_type: ChunkType,
    /// Output size of the chunk in blocksize
    pub chunk_size: u32,
    /// Size of the chunk in the sparse image
    pub total_size: u32,
}

impl ChunkHeader {
    /// What 12 bytes decode to.  The two reserved bytes are not looked at.
    pub open spec fn decode(b: Seq<u8>) -> Result<ChunkHeader, ParseError>
        recommends
            b.len() == CHUNK_HEADER_BYTES_LEN,
    {
        match ChunkType::of_code(le_u16(b)) {
            None => Err(ParseError::UnknownChunkType),
            Some(chunk_type) => Ok(
                ChunkHeader {
                    chunk_type,
                    chunk_size: le_u32(b.skip(4)) as u32,
                    total_size: le_u32(b.skip(8)) as u32,
                },
            ),
        }
    }

    /// The 12 bytes of this header on the wire; the reserved bytes are zero.
    pub open spec fn encoding(&self) -> Seq<u8> {
        u16_le_bytes(self.chunk_type.code()) + u16_le_bytes(0) + u32_le_bytes(self.chunk_size)
            + u32_le_bytes(self.total_size)
    }

    /// Bytes of expanded output that a chunk of `chunk_size` blocks stands for.
    pub open spec fn expanded_size(&self, header: &FileHeader) -> int {
        self.chunk_size as int * header.block_size as int
    }

    /// Bytes of payload that follow the header: `total_size` less the header,
    /// and zero where `total_size` is smaller than a header.
    pub open spec fn payload_size(&self) -> int {
        if self.total_size >= CHUNK_HEADER_BYTES_LEN {
            self.total_size - CHUNK_HEADER_BYTES_LEN
        } else {
            0
        }
    }

    /// The `total_size` of a raw chunk of `blocks` blocks: the header and the
    /// blocks, held to what 32 bits can express.
    pub open spec fn raw_total_size(blocks: u32, block_size: u32) -> int {
        if CHUNK_HEADER_BYTES_LEN + blocks as int * block_size as int <= u32::MAX {
            CHUNK_HEADER_BYTES_LEN + blocks as int * block_size as int
        } else {
            u32::MAX as int
        }
    }

    /// Whether the sizes agree with the type: a raw chunk carries its blocks,
    /// a fill chunk and a checksum carry four bytes, a skipped range nothing.
    pub open spec fn well_formed(&self, block_size: u32) -> bool {
        match self.chunk_type {
            ChunkType::Raw => self.total_size == CHUNK_HEADER_BYTES_LEN + self.chunk_size as int
                * block_size as int,
            ChunkType::Fill => self.total_size == CHUNK_HEADER_BYTES_LEN + 4,
            ChunkType::DontCare => self.total_size == CHUNK_HEADER_BYTES_LEN,
            ChunkType::Crc32 => self.total_size == CHUNK_HEADER_BYTES_LEN + 4,
        }
    }

    /// Create a don't care header for a given length in blocks
    pub fn new_dontcare(blocks: u32) -> (r: Self)
        ensures
            r == (ChunkHeader {
                chunk_type: ChunkType::DontCare,
                chunk_size: blocks,
                total_size: 12,
            }),
            forall|block_size: u32| r.well_formed(block_size),
    {
        ChunkHeader {
            chunk_type: ChunkType::DontCare,
            total_size: CHUNK_HEADER_BYTES_LEN as u32,
            chunk_size: blocks,
        }
    }

    /// Create a new raw header for a given amount in blocks for block_size
    ///
    /// The actual data should follow this header
    pub fn new_raw(blocks: u32, block_size: u32) -> (r: Self)
        ensures
            r.chunk_type == ChunkType::Raw,
            r.chunk_size == blocks,
            r.total_size == ChunkHeader::raw_total_size(blocks, block_size),
            CHUNK_HEADER_BYTES_LEN + blocks as int * block_size as int <= u32::MAX
                ==> r.well_formed(block_size),
    {
        proof {
            vstd::arithmetic::mul::lemma_mul_nonnegative(blocks as int, block_size as int);
        }
        let payload: u32 = match blocks.checked_mul(block_size) {
            Some(bytes) => bytes,
            None => u32::MAX,
        };
        ChunkHeader {
            chunk_type: ChunkType::Raw,
            chunk_size: blocks,
            total_size: (CHUNK_HEADER_BYTES_LEN as u32).saturating_add(payload),
        }
    }

    /// Create a new fill header for a given amount of blocks to be filled
    ///
    /// The header should be followed by 4 bytes indicate the data to fill with
    pub fn new_fill(blocks: u32) -> (r: Self)
        ensures
            r == (ChunkHeader { chunk_type: ChunkType::Fill, chunk_size: blocks, total_size: 16 }),
            forall|block_size: u32| r.well_formed(block_size),
    {
        ChunkHeader {
            chunk_type: ChunkType::Fill,
            chunk_size: blocks,
            total_size: CHUNK_HEADER_BYTES_LEN as u32 + 4,
        }
    }

    /// Create new ChunkHeader from a raw header
    pub fn from_bytes(bytes: &ChunkHeaderBytes) -> (r: Result<ChunkHeader, ParseError>)
        ensures
            r == ChunkHeader::decode(bytes@),
    {
        let b: &[u8] = bytes.as_slice();
        let (code, b) = get_u16_le(b);
        let chunk_type: ChunkType = match ChunkType::from_repr(code as usize) {
            Some(chunk_type) => chunk_type,
            None => {
                return Err(ParseError::UnknownChunkType);
            },
        };
        // reserved
        let b: &[u8] = advance(b, 2);
        let (chunk_size, b) = get_u32_le(b);
        let (total_size, _) = get_u32_le(b);
        Ok(ChunkHeader { chunk_type, chunk_size, total_size })
    }

    /// Convert into a raw header
    pub fn to_bytes(&self) -> (bytes: ChunkHeaderBytes)
        ensures
            bytes@ == self.encoding(),
    {
        let mut w: Vec<u8> = Vec::new();
        put_u16_le(&mut w, self.chunk_type.to_repr());
        put_u16_le(&mut w, 0x0);
        put_u32_le(&mut w, self.chunk_size);
        put_u32_le(&mut w, self.total_size);
        let mut bytes: ChunkHeaderBytes = [0; CHUNK_HEADER_BYTES_LEN];
        let mut i: usize = 0;
        while i < CHUNK_HEADER_BYTES_LEN
            invariant
                i <= CHUNK_HEADER_BYTES_LEN,
                w@.len() == CHUNK_HEADER_BYTES_LEN,
                forall|j: int| 0 <= j < i ==> bytes@[j] == w@[j],
            decreases CHUNK_HEADER_BYTES_LEN - i,
        {
            bytes[i] = w[i];
            i += 1;
        }
        assert(bytes@ =~= w@);
        bytes
    }

    /// Resulting size of this chunk in the output
    pub fn out_size(&self, header: &FileHeader) -> (r: usize)
        requires
            self.expanded_size(header) <= usize::MAX,
        ensures
            r == self.expanded_size(header),
    {
        proof {
            vstd::arithmetic::mul::lemma_mul_nonnegative(
                self.chunk_size as int,
                header.block_size as int,
            );
        }
        self.chunk_size as usize * header.block_size as usize
    }

    /// Data bytes after the header
    pub fn data_size(&self) -> (r: usize)
        ensures
            r == self.payload_size(),
    {
        (self.total_size as usize).saturating_sub(CHUNK_HEADER_BYTES_LEN)
    }
}

/// Where the nine fields of a file header lie among its bytes.
proof fn lemma_file_header_layout(
    magic: Seq<u8>,
    major: Seq<u8>,
    minor: Seq<u8>,
    header_len: Seq<u8>,
    chunk_len: Seq<u8>,
    block_size: Seq<u8>,
    blocks: Seq<u8>,
    chunks: Seq<u8>,
    checksum: Seq<u8>,
)
    requires
        magic.len() == 4,
        major.len() == 2,
        minor.len() == 2,
        header_len.len() == 2,
        chunk_len.len() == 2,
        block_size.len() == 4,
        blocks.len() == 4,
        chunks.len() == 4,
        checksum.len() == 4,
    ensures
        ({
            let b = magic + major + minor + header_len + chunk_len + block_size + blocks + chunks
                + checksum;
            &&& b.len() == 28
            &&& b.subrange(0, 4) == magic
            &&& b.skip(4).subrange(0, 2) == major
            &&& b.skip(6).subrange(0, 2) == minor
            &&& b.skip(8).subrange(0, 2) == header_len
            &&& b.skip(10).subrange(0, 2) == chunk_len
            &&& b.skip(12).subrange(0, 4) == block_size
            &&& b.skip(16).subrange(0, 4) == blocks
            &&& b.skip(20).subrange(0, 4) == chunks
            &&& b.skip(24).subrange(0, 4) == checksum
        }),
{
    let b = magic + major + minor + header_len + chunk_len + block_size + blocks + chunks
        + checksum;
    assert(b.subrange(0, 4) =~= magic);
    assert(b.skip(4).subrange(0, 2) =~= major);
    assert(b.skip(6).subrange(0, 2) =~= minor);
    assert(b.skip(8).subrange(0, 2) =~= header_len);
    assert(b.skip(10).subrange(0, 2) =~= chunk_len);
    assert(b.skip(12).subrange(0, 4) =~= block_size);
    assert(b.skip(16).subrange(0, 4) =~= blocks);
    assert(b.skip(20).subrange(0, 4) =~= chunks);
    assert(b.skip(24).subrange(0, 4) =~= checksum);
}

/// Where the four fields of a chunk header lie among its bytes.
proof fn lemma_chunk_header_layout(
    code: Seq<u8>,
    reserved: Seq<u8>,
    chunk_size: Seq<u8>,
    total_size: Seq<u8>,
)
    requires
        code.len() == 2,
        reserved.len() == 2,
        chunk_size.len() == 4,
        total_size.len() == 4,
    ensures
        ({
            let b = code + reserved + chunk_size + total_size;
            &&& b.len() == 12
            &&& b.subrange(0, 2) == code
            &&& b.subrange(2, 4) == reserved
            &&& b.skip(4).subrange(0, 4) == chunk_size
            &&& b.skip(8).subrange(0, 4) == total_size
        }),
{
    let b = code + reserved + chunk_size + total_size;
    assert(b.subrange(0, 2) =~= code);
    assert(b.subrange(2, 4) =~= reserved);
    assert(b.skip(4).subrange(0, 4) =~= chunk_size);
    assert(b.skip(8).subrange(0, 4) =~= total_size);
}

/// Decoding the bytes of a file header gives the header back.
pub proof fn lemma_file_header_roundtrip(h: FileHeader)
    ensures
        h.encoding().len() == FILE_HEADER_BYTES_LEN,
        FileHeader::decode(h.encoding()) == Ok::<FileHeader, ParseError>(h),
{
    let b = h.encoding();
    lemma_file_header_layout(
        u32_le_bytes(HEADER_MAGIC),
        u16_le_bytes(1),
        u16_le_bytes(0),
        u16_le_bytes(28),
        u16_le_bytes(12),
        u32_le_bytes(h.block_size),
        u32_le_bytes(h.blocks),
        u32_le_bytes(h.chunks),
        u32_le_bytes(h.checksum),
    );
    lemma_le_u32_of_prefix(b, HEADER_MAGIC);
    lemma_le_u16_of_prefix(b.skip(4), 1);
    lemma_le_u16_of_prefix(b.skip(6), 0);
    lemma_le_u16_of_prefix(b.skip(8), 28);
    lemma_le_u16_of_prefix(b.skip(10), 12);
    lemma_le_u32_of_prefix(b.skip(12), h.block_size);
    lemma_le_u32_of_prefix(b.skip(16), h.blocks);
    lemma_le_u32_of_prefix(b.skip(20), h.chunks);
    lemma_le_u32_of_prefix(b.skip(24), h.checksum);
}

/// Bytes that decode to a file header are the bytes of that header.
pub proof fn lemma_file_header_bytes_roundtrip(b: Seq<u8>)
    requires
        b.len() == FILE_HEADER_BYTES_LEN,
        FileHeader::decode(b) is Ok,
    ensures
        FileHeader::decode(b)->Ok_0.encoding() == b,
{
    let h = FileHeader::decode(b)->Ok_0;
    lemma_u32_le_bytes_of_value(b);
    lemma_u16_le_bytes_of_value(b.skip(4));
    lemma_u16_le_bytes_of_value(b.skip(6));
    lemma_u16_le_bytes_of_value(b.skip(8));
    lemma_u16_le_bytes_of_value(b.skip(10));
    lemma_u32_le_bytes_of_value(b.skip(12));
    lemma_u32_le_bytes_of_value(b.skip(16));
    lemma_u32_le_bytes_of_value(b.skip(20));
    lemma_u32_le_bytes_of_value(b.skip(24));
    let magic = b.subrange(0, 4);
    let major = b.skip(4).subrange(0, 2);
    let minor = b.skip(6).subrange(0, 2);
    let header_len = b.skip(8).subrange(0, 2);
    let chunk_len = b.skip(10).subrange(0, 2);
    let block_size = b.skip(12).subrange(0, 4);
    let blocks = b.skip(16).subrange(0, 4);
    let chunks = b.skip(20).subrange(0, 4);
    let checksum = b.skip(24).subrange(0, 4);
    let fields = magic + major + minor + header_len + chunk_len + block_size + blocks + chunks
        + checksum;
    assert(h.encoding() == fields);
    assert(fields =~= b);
}

/// Decoding the bytes of a chunk header gives the header back.
pub proof fn lemma_chunk_header_roundtrip(h: ChunkHeader)
    ensures
        h.encoding().len() == CHUNK_HEADER_BYTES_LEN,
        ChunkHeader::decode(h.encoding()) == Ok::<ChunkHeader, ParseError>(h),
{
    let b = h.encoding();
    lemma_chunk_header_layout(
        u16_le_bytes(h.chunk_type.code()),
        u16_le_bytes(0),
        u32_le_bytes(h.chunk_size),
        u32_le_bytes(h.total_size),
    );
    lemma_le_u16_of_prefix(b, h.chunk_type.code());
    lemma_le_u32_of_prefix(b.skip(4), h.chunk_size);
    lemma_le_u32_of_prefix(b.skip(8), h.total_size);
}

/// Bytes that decode to a chunk header are the bytes of that header, but for
/// the two reserved bytes, which the header writes as zero.
pub proof fn lemma_chunk_header_bytes_roundtrip(b: Seq<u8>)
    requires
        b.len() == CHUNK_HEADER_BYTES_LEN,
        ChunkHeader::decode(b) is Ok,
    ensures
        ChunkHeader::decode(b)->Ok_0.encoding() == b.update(2, 0u8).update(3, 0u8),
{
    let h = ChunkHeader::decode(b)->Ok_0;
    lemma_u16_le_bytes_of_value(b);
    lemma_u32_le_bytes_of_value(b.skip(4));
    lemma_u32_le_bytes_of_value(b.skip(8));
    let code = b.subrange(0, 2);
    let reserved = u16_le_bytes(0);
    let chunk_size = b.skip(4).subrange(0, 4);
    let total_size = b.skip(8).subrange(0, 4);
    assert(h.encoding() == code + reserved + chunk_size + total_size);
    assert(code + reserved + chunk_size + total_size =~= b.update(2, 0u8).update(3, 0u8));
}

} // verus!
