use fastboot_sparse::sparse::{
    ChunkHeader, ChunkType, FileHeader, ParseError, CHUNK_HEADER_BYTES_LEN, DEFAULT_BLOCKSIZE,
    FILE_HEADER_BYTES_LEN, HEADER_MAGIC,
};

fn sample_file_header_bytes() -> [u8; FILE_HEADER_BYTES_LEN] {
    [
        0x3au8, 0xff, 0x26, 0xed, 0x01, 0x00, 0x00, 0x00, 0x1c, 0x00, 0x0c, 0x00, 0x00, 0x10,
        0x00, 0x00, 0x77, 0x39, 0x14, 0x00, 0xb1, 0x00, 0x00, 0x00, 0xaa, 0x00, 0x00, 0xcc,
    ]
}

#[test]
fn file_header_parse() {
    let data = sample_file_header_bytes();

    let h = FileHeader::from_bytes(&data).unwrap();
    assert_eq!(
        h,
        FileHeader {
            block_size: 4096,
            blocks: 1325431,
            chunks: 177,
            checksum: 0xcc0000aa,
        }
    );
}

#[test]
fn file_header_roundtrip() {
    let orig = FileHeader {
        block_size: 4096,
        blocks: 1024,
        chunks: 42,
        checksum: 0xabcd,
    };

    let b = orig.to_bytes();
    let echo = FileHeader::from_bytes(&b).unwrap();

    assert_eq!(orig, echo);
}

#[test]
fn chunk_header_parse() {
    let data = [
        0xc3u8, 0xca, 0x0, 0x0, 0x1f, 0xf1, 0xaa, 0xbb, 0x0c, 0x00, 0x00, 0x00,
    ];

    let h = ChunkHeader::from_bytes(&data).unwrap();
    assert_eq!(
        h,
        ChunkHeader {
            chunk_type: ChunkType::DontCare,
            chunk_size: 0xbbaaf11f,
            total_size: CHUNK_HEADER_BYTES_LEN as u32,
        }
    );
}

#[test]
fn chunk_header_roundtrip() {
    let orig = ChunkHeader {
        chunk_type: ChunkType::Fill,
        chunk_size: 8,
        total_size: (CHUNK_HEADER_BYTES_LEN + 4) as u32,
    };

    let b = orig.to_bytes();
    let echo = ChunkHeader::from_bytes(&b).unwrap();

    assert_eq!(orig, echo);
}

#[test]
fn constants_have_wire_values() {
    assert_eq!(FILE_HEADER_BYTES_LEN, 28);
    assert_eq!(CHUNK_HEADER_BYTES_LEN, 12);
    assert_eq!(HEADER_MAGIC, 0xed26ff3a);
    assert_eq!(DEFAULT_BLOCKSIZE, 4096);
}

#[test]
fn file_header_bytes_are_exact() {
    let header = FileHeader {
        block_size: 4096,
        blocks: 1325431,
        chunks: 177,
        checksum: 0xcc0000aa,
    };
    assert_eq!(header.to_bytes(), sample_file_header_bytes());
}

#[test]
fn file_header_bytes_roundtrip() {
    let data = sample_file_header_bytes();
    let header = FileHeader::from_bytes(&data).unwrap();
    assert_eq!(header.to_bytes(), data);
}

#[test]
fn file_header_unknown_magic() {
    let mut data = sample_file_header_bytes();
    data[0] = 0x3b;
    assert_eq!(FileHeader::from_bytes(&data), Err(ParseError::UnknownMagic));
    // the magic is looked at first
    data[4] = 0x02;
    data[8] = 0x00;
    assert_eq!(FileHeader::from_bytes(&data), Err(ParseError::UnknownMagic));
}

#[test]
fn file_header_unknown_version() {
    let mut major = sample_file_header_bytes();
    major[4] = 0x02;
    assert_eq!(FileHeader::from_bytes(&major), Err(ParseError::UnknownVersion));
    let mut major_high = sample_file_header_bytes();
    major_high[5] = 0x01;
    assert_eq!(
        FileHeader::from_bytes(&major_high),
        Err(ParseError::UnknownVersion)
    );
    let mut minor = sample_file_header_bytes();
    minor[6] = 0x01;
    assert_eq!(FileHeader::from_bytes(&minor), Err(ParseError::UnknownVersion));
    // the version is looked at before the sizes
    minor[8] = 0x1d;
    assert_eq!(FileHeader::from_bytes(&minor), Err(ParseError::UnknownVersion));
}

#[test]
fn file_header_unexpected_size() {
    let mut header_len = sample_file_header_bytes();
    header_len[8] = 0x1d;
    assert_eq!(
        FileHeader::from_bytes(&header_len),
        Err(ParseError::UnexpectedSize)
    );
    let mut chunk_len = sample_file_header_bytes();
    chunk_len[10] = 0x0d;
    assert_eq!(
        FileHeader::from_bytes(&chunk_len),
        Err(ParseError::UnexpectedSize)
    );
    let mut chunk_len_high = sample_file_header_bytes();
    chunk_len_high[11] = 0x01;
    assert_eq!(
        FileHeader::from_bytes(&chunk_len_high),
        Err(ParseError::UnexpectedSize)
    );
}

#[test]
fn file_header_total_size() {
    let header = FileHeader {
        block_size: 4096,
        blocks: 1024,
        chunks: 2,
        checksum: 0,
    };
    assert_eq!(header.total_size(), 4 * 1024 * 1024);
    let empty = FileHeader {
        block_size: 4096,
        blocks: 0,
        chunks: 0,
        checksum: 0,
    };
    assert_eq!(empty.total_size(), 0);
}

#[test]
fn chunk_type_codes() {
    assert_eq!(ChunkType::from_repr(0xcac1), Some(ChunkType::Raw));
    assert_eq!(ChunkType::from_repr(0xcac2), Some(ChunkType::Fill));
    assert_eq!(ChunkType::from_repr(0xcac3), Some(ChunkType::DontCare));
    assert_eq!(ChunkType::from_repr(0xcac4), Some(ChunkType::Crc32));
    assert_eq!(ChunkType::from_repr(0xcac0), None);
    assert_eq!(ChunkType::from_repr(0xcac5), None);
    assert_eq!(ChunkType::from_repr(0), None);
    assert_eq!(ChunkType::from_repr(0x1cac1), None);
    assert_eq!(ChunkType::Raw.to_repr(), 0xcac1);
    assert_eq!(ChunkType::Fill.to_repr(), 0xcac2);
    assert_eq!(ChunkType::DontCare.to_repr(), 0xcac3);
    assert_eq!(ChunkType::Crc32.to_repr(), 0xcac4);
}

#[test]
fn chunk_header_parse_each_type() {
    let mut data = [
        0xc1u8, 0xca, 0x0, 0x0, 0x02, 0x00, 0x00, 0x00, 0x0c, 0x20, 0x00, 0x00,
    ];
    assert_eq!(
        ChunkHeader::from_bytes(&data),
        Ok(ChunkHeader {
            chunk_type: ChunkType::Raw,
            chunk_size: 2,
            total_size: 12 + 2 * 4096,
        })
    );
    data[0] = 0xc2;
    assert_eq!(
        ChunkHeader::from_bytes(&data).unwrap().chunk_type,
        ChunkType::Fill
    );
    data[0] = 0xc4;
    assert_eq!(
        ChunkHeader::from_bytes(&data).unwrap().chunk_type,
        ChunkType::Crc32
    );
}

#[test]
fn chunk_header_unknown_type() {
    let data = [
        0xc5u8, 0xca, 0x0, 0x0, 0x1f, 0xf1, 0xaa, 0xbb, 0x0c, 0x00, 0x00, 0x00,
    ];
    assert_eq!(
        ChunkHeader::from_bytes(&data),
        Err(ParseError::UnknownChunkType)
    );
    let zero = [0u8; CHUNK_HEADER_BYTES_LEN];
    assert_eq!(
        ChunkHeader::from_bytes(&zero),
        Err(ParseError::UnknownChunkType)
    );
}

#[test]
fn chunk_header_reserved_bytes() {
    // ignored when read
    let data = [
        0xc3u8, 0xca, 0x12, 0x34, 0x1f, 0xf1, 0xaa, 0xbb, 0x0c, 0x00, 0x00, 0x00,
    ];
    let header = ChunkHeader::from_bytes(&data).unwrap();
    assert_eq!(
        header,
        ChunkHeader {
            chunk_type: ChunkType::DontCare,
            chunk_size: 0xbbaaf11f,
            total_size: 12,
        }
    );
    // written as zero
    assert_eq!(
        header.to_bytes(),
        [0xc3u8, 0xca, 0x0, 0x0, 0x1f, 0xf1, 0xaa, 0xbb, 0x0c, 0x00, 0x00, 0x00]
    );
}

#[test]
fn chunk_header_constructors() {
    assert_eq!(
        ChunkHeader::new_dontcare(7),
        ChunkHeader {
            chunk_type: ChunkType::DontCare,
            chunk_size: 7,
            total_size: 12,
        }
    );
    assert_eq!(
        ChunkHeader::new_fill(8),
        ChunkHeader {
            chunk_type: ChunkType::Fill,
            chunk_size: 8,
            total_size: 16,
        }
    );
    assert_eq!(
        ChunkHeader::new_raw(1016, 4096),
        ChunkHeader {
            chunk_type: ChunkType::Raw,
            chunk_size: 1016,
            total_size: 12 + 1016 * 4096,
        }
    );
    assert_eq!(ChunkHeader::new_raw(0, 4096).total_size, 12);
}

#[test]
fn chunk_header_new_raw_saturates() {
    // the payload alone is too large
    assert_eq!(ChunkHeader::new_raw(0x10_0000, 4096).total_size, u32::MAX);
    assert_eq!(ChunkHeader::new_raw(u32::MAX, u32::MAX).total_size, u32::MAX);
    // the payload fits, the header does not
    assert_eq!(ChunkHeader::new_raw(1, u32::MAX - 5).total_size, u32::MAX);
    assert_eq!(ChunkHeader::new_raw(1, u32::MAX - 12).total_size, u32::MAX);
    assert_eq!(
        ChunkHeader::new_raw(1, u32::MAX - 13).total_size,
        u32::MAX - 1
    );
    assert_eq!(ChunkHeader::new_raw(0x10_0000, 4096).chunk_size, 0x10_0000);
}

#[test]
fn chunk_header_sizes() {
    let header = FileHeader {
        block_size: 4096,
        blocks: 1024,
        chunks: 2,
        checksum: 0,
    };
    let raw = ChunkHeader::new_raw(3, 4096);
    assert_eq!(raw.out_size(&header), 3 * 4096);
    assert_eq!(raw.data_size(), 3 * 4096);
    let fill = ChunkHeader::new_fill(8);
    assert_eq!(fill.out_size(&header), 8 * 4096);
    assert_eq!(fill.data_size(), 4);
    let skip = ChunkHeader::new_dontcare(5);
    assert_eq!(skip.out_size(&header), 5 * 4096);
    assert_eq!(skip.data_size(), 0);
    // a total size below the header's own counts as no payload
    let short = ChunkHeader {
        chunk_type: ChunkType::Crc32,
        chunk_size: 0,
        total_size: 4,
    };
    assert_eq!(short.data_size(), 0);
    assert_eq!(short.out_size(&header), 0);
}
