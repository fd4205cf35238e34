use fastboot_sparse::sparse::{
    ChunkHeader, ChunkType, FileHeader, CHUNK_HEADER_BYTES_LEN, DEFAULT_BLOCKSIZE,
    FILE_HEADER_BYTES_LEN,
};
use fastboot_sparse::split::{can_split, split_image, split_raw, Split, SplitChunk, SplitError};

#[test]
fn split_simple() {
    let header = FileHeader {
        block_size: 4096,
        blocks: 1024,
        chunks: 2,
        checksum: 0,
    };
    let chunks = [
        ChunkHeader::new_fill(8),
        ChunkHeader::new_raw(1024 - 8, 4096),
    ];

    let split = split_image(&header, &chunks, 1024 * 4096).unwrap();
    assert_eq!(split.len(), 1);
    let split = &split[0];

    assert_eq!(split.header, header);
    assert_eq!(split.chunks.len(), 2);
    assert_eq!(
        &split.chunks[0],
        &SplitChunk {
            header: chunks[0].clone(),
            offset: FILE_HEADER_BYTES_LEN + CHUNK_HEADER_BYTES_LEN,
            size: chunks[0].data_size()
        }
    );
    assert_eq!(
        &split.chunks[1],
        &SplitChunk {
            header: chunks[1].clone(),
            offset: FILE_HEADER_BYTES_LEN + 2 * CHUNK_HEADER_BYTES_LEN + 4,
            size: chunks[1].data_size(),
        }
    );
}

#[test]
fn split_multiple() {
    let header = FileHeader {
        block_size: 4096,
        blocks: 2048,
        chunks: 2,
        checksum: 0,
    };
    let chunks = [
        ChunkHeader::new_fill(8),
        ChunkHeader::new_raw(1024 - 8, 4096),
        ChunkHeader::new_raw(1024 - 8, 4096),
        ChunkHeader::new_fill(8),
    ];
    let expected = [
        Split {
            header: FileHeader {
                block_size: 4096,
                blocks: 519,
                chunks: 2,
                checksum: 0,
            },
            chunks: vec![
                SplitChunk {
                    header: ChunkHeader::new_fill(8),
                    offset: FILE_HEADER_BYTES_LEN + CHUNK_HEADER_BYTES_LEN,
                    size: 4,
                },
                SplitChunk {
                    header: ChunkHeader::new_raw(511, 4096),
                    offset: FILE_HEADER_BYTES_LEN + 2 * CHUNK_HEADER_BYTES_LEN + 4,
                    size: 511 * 4096,
                },
            ],
        },
        Split {
            header: FileHeader {
                block_size: 4096,
                blocks: 519 + 511,
                chunks: 3,
                checksum: 0,
            },
            chunks: vec![
                SplitChunk {
                    header: ChunkHeader::new_dontcare(519),
                    offset: 0,
                    size: 0,
                },
                // Finalizing first raw block, 1024 - 519 left: 505
                SplitChunk {
                    header: ChunkHeader::new_raw(505, 4096),
                    offset: FILE_HEADER_BYTES_LEN + 2 * CHUNK_HEADER_BYTES_LEN + 4 + 511 * 4096,
                    size: 505 * 4096,
                },
                // First part of the second raw chunk, 511 - 505 left: 6
                SplitChunk {
                    header: ChunkHeader::new_raw(6, 4096),
                    offset: FILE_HEADER_BYTES_LEN
                        + 3 * CHUNK_HEADER_BYTES_LEN
                        + 4
                        + 1016 * 4096,
                    size: 6 * 4096,
                },
            ],
        },
        Split {
            header: FileHeader {
                block_size: 4096,
                blocks: 519 + 511 + 511,
                chunks: 2,
                checksum: 0,
            },
            chunks: vec![
                SplitChunk {
                    header: ChunkHeader::new_dontcare(519 + 511),
                    offset: 0,
                    size: 0,
                },
                // Second part of the second raw chunk, 6 were in the last chunk
                SplitChunk {
                    header: ChunkHeader::new_raw(511, 4096),
                    offset: FILE_HEADER_BYTES_LEN
                        + 3 * CHUNK_HEADER_BYTES_LEN
                        + 4
                        + 1016 * 4096
                        + 6 * 4096,
                    size: 511 * 4096,
                },
            ],
        },
        Split {
            header: FileHeader {
                block_size: 4096,
                blocks: 2048,
                chunks: 3,
                checksum: 0,
            },
            chunks: vec![
                SplitChunk {
                    header: ChunkHeader::new_dontcare(519 + 511 + 511),
                    offset: 0,
                    size: 0,
                },
                // Final part of the second raw chunk, 6 + 511 already accounted for, so 499
                // left of 1016
                SplitChunk {
                    header: ChunkHeader::new_raw(499, 4096),
                    offset: FILE_HEADER_BYTES_LEN
                        + 3 * CHUNK_HEADER_BYTES_LEN
                        + 4
                        + 1016 * 4096
                        + 517 * 4096,
                    size: 499 * 4096,
                },
                // Second fill
                SplitChunk {
                    header: ChunkHeader::new_fill(8),
                    offset: FILE_HEADER_BYTES_LEN
                        + 4 * CHUNK_HEADER_BYTES_LEN
                        + 4
                        + 1016 * 4096
                        + 1016 * 4096,
                    size: 4,
                },
            ],
        },
    ];

    let splits = split_image(&header, &chunks, 512 * 4096).unwrap();
    for (i, (split, expected)) in splits.iter().zip(expected.iter()).enumerate() {
        assert_eq!(split, expected, "split {i} mismatch");
    }
    assert_eq!(splits.len(), expected.len());
}

#[test]
fn test_split_raw() {
    let splits = split_raw(8 * DEFAULT_BLOCKSIZE as usize, 3 * DEFAULT_BLOCKSIZE).unwrap();
    assert_eq!(splits.len(), 4, "Incorrect parts: {splits:?}");
    for (i, split) in splits.iter().enumerate() {
        assert_eq!(split.header.block_size, 4096);
        assert_eq!(split.header.checksum, 0);
        let raw = if i == 0 {
            assert_eq!(split.header.chunks, 1);
            assert_eq!(split.chunks.len(), 1);
            &split.chunks[0]
        } else {
            assert_eq!(split.header.chunks, 2);
            assert_eq!(split.chunks.len(), 2);
            assert_eq!(
                split.chunks[0],
                SplitChunk {
                    header: ChunkHeader {
                        chunk_type: ChunkType::DontCare,
                        chunk_size: 2 * i as u32,
                        total_size: CHUNK_HEADER_BYTES_LEN as u32
                    },
                    offset: 0,
                    size: 0
                },
                "chunk {i}"
            );
            &split.chunks[1]
        };
        assert_eq!(
            raw,
            &SplitChunk {
                header: ChunkHeader {
                    chunk_type: ChunkType::Raw,
                    chunk_size: 2,
                    total_size: 2 * DEFAULT_BLOCKSIZE + CHUNK_HEADER_BYTES_LEN as u32
                },
                offset: 2 * i * DEFAULT_BLOCKSIZE as usize,
                size: 2 * DEFAULT_BLOCKSIZE as usize
            },
            "chunk {i}"
        );
    }
}

fn raw_image(blocks: u32) -> (FileHeader, Vec<ChunkHeader>) {
    (
        FileHeader {
            block_size: 4096,
            blocks,
            chunks: 1,
            checksum: 0,
        },
        vec![ChunkHeader::new_raw(blocks, 4096)],
    )
}

fn is_seek(chunk: &SplitChunk) -> bool {
    chunk.header.chunk_type == ChunkType::DontCare && chunk.offset == 0 && chunk.size == 0
}

#[test]
fn split_image_size_too_small() {
    let (header, chunks) = raw_image(4);
    // file header, leading seek, chunk header and one block
    let minimal: u32 = 28 + 12 + 12 + 4096;
    assert_eq!(
        split_image(&header, &chunks, minimal - 1),
        Err(SplitError::TooSmall)
    );
    assert_eq!(split_image(&header, &chunks, 0), Err(SplitError::TooSmall));
    assert_eq!(split_image(&header, &[], 51), Err(SplitError::TooSmall));
    assert!(split_image(&header, &chunks, minimal).is_ok());
}

#[test]
fn split_image_of_minimal_size() {
    let (header, chunks) = raw_image(4);
    let splits = split_image(&header, &chunks, 28 + 12 + 12 + 4096).unwrap();
    // without a seek the first fragment has 12 bytes to spare: still one block
    assert_eq!(splits.len(), 4);
    for (i, split) in splits.iter().enumerate() {
        let raw = split.chunks.last().unwrap();
        assert_eq!(raw.header, ChunkHeader::new_raw(1, 4096));
        assert_eq!(raw.offset, 40 + i * 4096);
        assert_eq!(raw.size, 4096);
        assert_eq!(split.header.blocks, i as u32 + 1);
        if i == 0 {
            assert_eq!(split.chunks.len(), 1);
        } else {
            assert_eq!(split.chunks.len(), 2);
            assert_eq!(split.chunks[0].header, ChunkHeader::new_dontcare(i as u32));
        }
    }
}

#[test]
fn split_image_without_chunks() {
    let header = FileHeader {
        block_size: 4096,
        blocks: 0,
        chunks: 0,
        checksum: 0,
    };
    let splits = split_image(&header, &[], 1024 * 4096).unwrap();
    assert_eq!(
        splits,
        vec![Split {
            header: FileHeader {
                block_size: 4096,
                blocks: 0,
                chunks: 0,
                checksum: 0
            },
            chunks: vec![],
        }]
    );
}

#[test]
fn split_image_chunk_must_leave_a_byte() {
    let header = FileHeader {
        block_size: 4096,
        blocks: 8,
        chunks: 1,
        checksum: 0,
    };
    let chunks = [ChunkHeader::new_fill(8)];
    // 28 bytes of file header and 16 of the chunk: exactly 44 is not enough
    let size: u32 = 28 + 12 + 12 + 4096;
    assert_eq!(split_image(&header, &chunks, size).unwrap().len(), 1);
    let raw = [ChunkHeader::new_raw(1, 4096)];
    // the whole chunk needs more than its 4108 bytes
    let splits = split_image(&header, &raw, size).unwrap();
    assert_eq!(splits.len(), 1);
    assert_eq!(
        splits[0].chunks,
        vec![SplitChunk {
            header: ChunkHeader::new_raw(1, 4096),
            offset: 40,
            size: 4096
        }]
    );
}

#[test]
fn split_image_chunk_that_cannot_be_cut() {
    let header = FileHeader {
        block_size: 16,
        blocks: 100,
        chunks: 2,
        checksum: 0,
    };
    // a chunk of an unusual size that is no raw data
    let big = ChunkHeader {
        chunk_type: ChunkType::Fill,
        chunk_size: 1,
        total_size: 200,
    };
    let chunks = [ChunkHeader::new_fill(1), big.clone()];
    assert_eq!(
        split_image(&header, &chunks, 100),
        Err(SplitError::TooSmall)
    );
    // it needs a fragment of its own, with a seek: 28 + 12 + 200 and one to spare
    assert_eq!(
        split_image(&header, &chunks, 240),
        Err(SplitError::TooSmall)
    );
    let splits = split_image(&header, &chunks, 241).unwrap();
    assert_eq!(splits.len(), 2);
    assert_eq!(
        splits[1].chunks,
        vec![
            SplitChunk {
                header: ChunkHeader::new_dontcare(1),
                offset: 0,
                size: 0
            },
            SplitChunk {
                header: big.clone(),
                offset: 40 + 16,
                size: 188
            },
        ]
    );
    // with room for both they share a fragment
    let splits = split_image(&header, &chunks, 28 + 16 + 200 + 1).unwrap();
    assert_eq!(splits.len(), 1);
}

#[test]
fn split_image_keeps_skipped_ranges() {
    let header = FileHeader {
        block_size: 4096,
        blocks: 5 + 20,
        chunks: 2,
        checksum: 0,
    };
    let chunks = [ChunkHeader::new_dontcare(5), ChunkHeader::new_raw(20, 4096)];
    let splits = split_image(&header, &chunks, 28 + 24 + 8 * 4096).unwrap();
    assert_eq!(splits.len(), 3);
    assert_eq!(
        splits[0].chunks,
        vec![
            SplitChunk {
                header: ChunkHeader::new_dontcare(5),
                offset: 40,
                size: 0
            },
            SplitChunk {
                header: ChunkHeader::new_raw(8, 4096),
                offset: 52,
                size: 8 * 4096
            },
        ]
    );
    // the seek of the next fragment counts the skipped range too
    assert_eq!(splits[1].chunks[0].header, ChunkHeader::new_dontcare(13));
    assert_eq!(splits[2].chunks[0].header, ChunkHeader::new_dontcare(21));
    assert_eq!(splits[2].chunks[1].header, ChunkHeader::new_raw(4, 4096));
    assert_eq!(splits[2].header.blocks, 25);
}

#[test]
fn split_image_properties_hold() {
    let header = FileHeader {
        block_size: 512,
        blocks: 0,
        chunks: 9,
        checksum: 0,
    };
    let chunks = vec![
        ChunkHeader::new_raw(700, 512),
        ChunkHeader::new_fill(30),
        ChunkHeader::new_raw(3, 512),
        ChunkHeader {
            chunk_type: ChunkType::Crc32,
            chunk_size: 0,
            total_size: 16,
        },
        ChunkHeader::new_raw(0, 512),
        ChunkHeader::new_fill(1),
        ChunkHeader::new_raw(1200, 512),
        ChunkHeader::new_fill(2),
        ChunkHeader::new_raw(64, 512),
    ];
    let total_blocks: u32 = chunks.iter().map(|c| c.chunk_size).sum();
    let total_payload: usize = chunks.iter().map(|c| c.data_size()).sum();
    let sizes: [u32; 5] = [28 + 24 + 512, 5000, 100_000, 350_000, 2_000_000];
    for size in sizes {
        let splits = split_image(&header, &chunks, size).unwrap();
        let mut written: u32 = 0;
        let mut read: usize = 0;
        for (k, split) in splits.iter().enumerate() {
            // within the size
            assert!(split.sparse_size() <= size as usize, "size {size} split {k}");
            let on_wire: usize = split
                .chunks
                .iter()
                .map(|c| c.header.total_size as usize)
                .sum();
            assert_eq!(split.sparse_size(), 28 + on_wire);
            // the header sums the chunks up
            assert_eq!(split.header.block_size, 512);
            assert_eq!(split.header.checksum, 0);
            assert_eq!(split.header.chunks as usize, split.chunks.len());
            let blocks: u32 = split.chunks.iter().map(|c| c.header.chunk_size).sum();
            assert_eq!(split.header.blocks, blocks);
            // the seek skips what was written before
            let lead: u32 = match split.chunks.first() {
                Some(first) if is_seek(first) => first.header.chunk_size,
                _ => 0,
            };
            assert_eq!(lead, written, "size {size} split {k}");
            assert_eq!(k == 0 || written == 0, lead == 0);
            for chunk in split.chunks.iter().filter(|c| !is_seek(c)) {
                written += chunk.header.chunk_size;
                read += chunk.size;
                assert_eq!(chunk.size, chunk.header.data_size());
            }
        }
        assert_eq!(written, total_blocks, "size {size}");
        assert_eq!(read, total_payload, "size {size}");
    }
}

#[test]
fn split_image_reads_each_payload_byte_once() {
    let header = FileHeader {
        block_size: 512,
        blocks: 0,
        chunks: 4,
        checksum: 0,
    };
    let chunks = vec![
        ChunkHeader::new_fill(3),
        ChunkHeader::new_raw(100, 512),
        ChunkHeader::new_dontcare(9),
        ChunkHeader::new_raw(33, 512),
    ];
    let splits = split_image(&header, &chunks, 28 + 24 + 7 * 512).unwrap();
    // the payload of each chunk, as it lies in the file
    let mut expected: Vec<(usize, usize)> = Vec::new();
    let mut offset: usize = 28;
    for chunk in &chunks {
        offset += 12;
        if chunk.data_size() > 0 {
            expected.push((offset, offset + chunk.data_size()));
        }
        offset += chunk.data_size();
    }
    let mut ranges: Vec<(usize, usize)> = Vec::new();
    for split in &splits {
        for chunk in split.chunks.iter().filter(|c| c.size > 0) {
            match ranges.last_mut() {
                Some(last) if last.1 == chunk.offset => last.1 += chunk.size,
                _ => ranges.push((chunk.offset, chunk.offset + chunk.size)),
            }
        }
    }
    assert_eq!(ranges, expected);
}

#[test]
fn split_raw_size_too_small() {
    assert_eq!(split_raw(4096, 28 + 24 + 4095), Err(SplitError::TooSmall));
    assert_eq!(split_raw(0, 0), Err(SplitError::TooSmall));
    assert!(split_raw(4096, 28 + 24 + 4096).is_ok());
}

#[test]
fn split_raw_of_nothing() {
    assert_eq!(split_raw(0, 3 * 4096), Ok(vec![]));
}

#[test]
fn split_raw_pads_the_last_block() {
    let splits = split_raw(1, 3 * 4096).unwrap();
    assert_eq!(
        splits,
        vec![Split {
            header: FileHeader {
                block_size: 4096,
                blocks: 1,
                chunks: 1,
                checksum: 0
            },
            chunks: vec![SplitChunk {
                header: ChunkHeader::new_raw(1, 4096),
                offset: 0,
                size: 4096
            }],
        }]
    );
    let splits = split_raw(2 * 4096 + 1, 1024 * 4096).unwrap();
    assert_eq!(splits.len(), 1);
    assert_eq!(splits[0].chunks[0].header, ChunkHeader::new_raw(3, 4096));
    let splits = split_raw(2 * 4096, 1024 * 4096).unwrap();
    assert_eq!(splits[0].chunks[0].header, ChunkHeader::new_raw(2, 4096));
}

#[test]
fn split_raw_first_fragment_has_no_seek() {
    // the first fragment has the 12 bytes of the seek to spare
    let size: u32 = 28 + 12 + 3 * 4096;
    let splits = split_raw(7 * 4096, size).unwrap();
    assert_eq!(splits.len(), 3);
    assert_eq!(splits[0].chunks.len(), 1);
    assert_eq!(splits[0].chunks[0].header, ChunkHeader::new_raw(3, 4096));
    assert_eq!(splits[1].chunks[0].header, ChunkHeader::new_dontcare(3));
    assert_eq!(splits[1].chunks[1].header, ChunkHeader::new_raw(2, 4096));
    assert_eq!(splits[1].chunks[1].offset, 3 * 4096);
    assert_eq!(splits[2].chunks[0].header, ChunkHeader::new_dontcare(5));
    assert_eq!(splits[2].chunks[1].header, ChunkHeader::new_raw(2, 4096));
    assert_eq!(splits[2].chunks[1].offset, 5 * 4096);
    assert_eq!(splits[2].header.blocks, 7);
}

#[test]
fn split_raw_properties_hold() {
    let cases: [(usize, u32); 5] = [
        (1, 28 + 24 + 4096),
        (4096 * 10, 28 + 24 + 4096),
        (4096 * 1000 + 17, 100_000),
        (123_456_789, 1_000_000),
        (4095, 4096 * 4096),
    ];
    for (raw_size, size) in cases {
        let splits = split_raw(raw_size, size).unwrap();
        let mut raw_blocks: usize = 0;
        for split in &splits {
            assert!(split.sparse_size() <= size as usize);
            let lead: usize = match split.chunks.first() {
                Some(first) if first.header.chunk_type == ChunkType::DontCare => {
                    first.header.chunk_size as usize
                }
                _ => 0,
            };
            assert_eq!(lead, raw_blocks);
            for chunk in &split.chunks {
                if chunk.header.chunk_type == ChunkType::Raw {
                    assert_eq!(chunk.offset, raw_blocks * 4096);
                    assert_eq!(chunk.size, chunk.header.chunk_size as usize * 4096);
                    raw_blocks += chunk.header.chunk_size as usize;
                }
            }
            assert_eq!(split.header.blocks as usize, raw_blocks);
        }
        assert_eq!(raw_blocks, raw_size.div_ceil(4096));
    }
}

#[test]
fn sparse_size_counts_headers_and_payload() {
    let split = Split {
        header: FileHeader {
            block_size: 4096,
            blocks: 12,
            chunks: 3,
            checksum: 0,
        },
        chunks: vec![
            SplitChunk {
                header: ChunkHeader::new_dontcare(2),
                offset: 0,
                size: 0,
            },
            SplitChunk {
                header: ChunkHeader::new_fill(8),
                offset: 40,
                size: 4,
            },
            SplitChunk {
                header: ChunkHeader::new_raw(2, 4096),
                offset: 56,
                size: 2 * 4096,
            },
        ],
    };
    assert_eq!(split.sparse_size(), 28 + 12 + 16 + 12 + 2 * 4096);
    let empty = Split {
        header: FileHeader {
            block_size: 4096,
            blocks: 0,
            chunks: 0,
            checksum: 0,
        },
        chunks: vec![],
    };
    assert_eq!(empty.sparse_size(), FILE_HEADER_BYTES_LEN);
}

#[test]
fn can_split_checks_the_image() {
    let header = FileHeader {
        block_size: 4096,
        blocks: 1024,
        chunks: 2,
        checksum: 0,
    };
    let chunks = [
        ChunkHeader::new_fill(8),
        ChunkHeader::new_raw(1024 - 8, 4096),
    ];
    assert!(can_split(&header, &chunks));
    assert!(can_split(&header, &[]));
    // no block size
    let no_blocks = FileHeader {
        block_size: 0,
        blocks: 1024,
        chunks: 2,
        checksum: 0,
    };
    assert!(!can_split(&no_blocks, &chunks));
    // raw data that its payload does not hold
    let short = ChunkHeader {
        chunk_type: ChunkType::Raw,
        chunk_size: 2,
        total_size: 12 + 4096 + 4095,
    };
    assert!(!can_split(&header, &[short]));
    let exact = ChunkHeader {
        chunk_type: ChunkType::Raw,
        chunk_size: 2,
        total_size: 12 + 2 * 4096,
    };
    assert!(can_split(&header, &[exact]));
    let long = ChunkHeader {
        chunk_type: ChunkType::Raw,
        chunk_size: 2,
        total_size: 12 + 2 * 4096 + 1,
    };
    assert!(can_split(&header, &[long]));
    // other chunks may have any size
    let odd = ChunkHeader {
        chunk_type: ChunkType::Fill,
        chunk_size: 1 << 20,
        total_size: 3,
    };
    assert!(can_split(&header, &[odd]));
    // more blocks than a header can count
    assert!(can_split(&header, &[ChunkHeader::new_dontcare(u32::MAX)]));
    assert!(!can_split(
        &header,
        &[
            ChunkHeader::new_dontcare(u32::MAX),
            ChunkHeader::new_dontcare(1)
        ]
    ));
}

/// Expands chunks into `out`, the way an image is expanded: raw data is
/// copied, a fill repeats its four bytes, a skipped range moves on.
fn expand_into(out: &mut [Option<u8>], chunks: &[SplitChunk], block_size: usize, file: &[u8]) {
    let mut at: usize = 0;
    for chunk in chunks {
        let len = chunk.header.chunk_size as usize * block_size;
        match chunk.header.chunk_type {
            ChunkType::Raw => {
                for i in 0..len {
                    out[at + i] = Some(file[chunk.offset + i]);
                }
                at += len;
            }
            ChunkType::Fill => {
                for i in 0..len {
                    out[at + i] = Some(file[chunk.offset + i % 4]);
                }
                at += len;
            }
            ChunkType::DontCare => at += len,
            ChunkType::Crc32 => (),
        }
    }
}

/// The file of a sparse image with these chunks, and the chunks as they lie
/// in it.
fn image_file(header: &FileHeader, chunks: &[ChunkHeader]) -> (Vec<u8>, Vec<SplitChunk>) {
    let mut file = header.to_bytes().to_vec();
    let mut placed = Vec::new();
    for (k, chunk) in chunks.iter().enumerate() {
        file.extend_from_slice(&chunk.to_bytes());
        placed.push(SplitChunk {
            header: chunk.clone(),
            offset: file.len(),
            size: chunk.data_size(),
        });
        for i in 0..chunk.data_size() {
            file.push(((i * 31 + k * 7 + 1) % 253) as u8);
        }
    }
    (file, placed)
}

#[test]
fn split_image_expands_to_the_same_output() {
    let header = FileHeader {
        block_size: 64,
        blocks: 0,
        chunks: 8,
        checksum: 0,
    };
    let chunks = vec![
        ChunkHeader::new_raw(50, 64),
        ChunkHeader::new_fill(7),
        ChunkHeader::new_dontcare(5),
        ChunkHeader::new_raw(1, 64),
        ChunkHeader {
            chunk_type: ChunkType::Crc32,
            chunk_size: 0,
            total_size: 16,
        },
        ChunkHeader::new_fill(40),
        ChunkHeader::new_raw(33, 64),
        ChunkHeader::new_dontcare(2),
    ];
    let (file, placed) = image_file(&header, &chunks);
    let blocks: usize = chunks.iter().map(|c| c.chunk_size as usize).sum();
    let mut expected: Vec<Option<u8>> = vec![None; blocks * 64];
    expand_into(&mut expected, &placed, 64, &file);

    let sizes: [u32; 5] = [28 + 24 + 64, 300, 1000, 2500, 100_000];
    for size in sizes {
        let splits = split_image(&header, &chunks, size).unwrap();
        let mut output: Vec<Option<u8>> = vec![None; blocks * 64];
        let mut read: Vec<u8> = Vec::new();
        for split in &splits {
            expand_into(&mut output, &split.chunks, 64, &file);
            for chunk in &split.chunks {
                read.extend_from_slice(&file[chunk.offset..chunk.offset + chunk.size]);
            }
        }
        assert_eq!(output, expected, "size {size}");
        // the payload is read byte for byte, and in order
        let mut payload: Vec<u8> = Vec::new();
        for chunk in &placed {
            payload.extend_from_slice(&file[chunk.offset..chunk.offset + chunk.size]);
        }
        assert_eq!(read, payload, "size {size}");
    }
}

#[test]
fn split_raw_expands_to_the_raw_image() {
    let raw_size: usize = 4096 * 9 + 100;
    let file: Vec<u8> = (0..4096 * 10).map(|i| ((i * 13 + 5) % 251) as u8).collect();
    let sizes: [u32; 3] = [28 + 24 + 4096, 3 * 4096, 100 * 4096];
    for size in sizes {
        let splits = split_raw(raw_size, size).unwrap();
        let mut output: Vec<Option<u8>> = vec![None; 4096 * 10];
        for split in &splits {
            expand_into(&mut output, &split.chunks, 4096, &file);
        }
        let expected: Vec<Option<u8>> = file.iter().map(|b| Some(*b)).collect();
        assert_eq!(output, expected, "size {size}");
    }
}

#[test]
fn split_image_without_skipped_ranges_has_only_leading_seeks() {
    let header = FileHeader {
        block_size: 512,
        blocks: 0,
        chunks: 5,
        checksum: 0,
    };
    let chunks = vec![
        ChunkHeader::new_raw(300, 512),
        ChunkHeader::new_fill(12),
        ChunkHeader::new_raw(7, 512),
        ChunkHeader::new_fill(1),
        ChunkHeader::new_raw(90, 512),
    ];
    let sizes: [u32; 4] = [28 + 24 + 512, 4000, 60_000, 1_000_000];
    for size in sizes {
        let splits = split_image(&header, &chunks, size).unwrap();
        let mut kept: u32 = 0;
        for (k, split) in splits.iter().enumerate() {
            for (j, chunk) in split.chunks.iter().enumerate() {
                if chunk.header.chunk_type == ChunkType::DontCare {
                    assert_eq!(j, 0, "size {size} split {k}");
                    assert!(is_seek(chunk));
                    // it skips what is no skipped range before it
                    assert_eq!(chunk.header.chunk_size, kept);
                } else {
                    kept += chunk.header.chunk_size;
                }
            }
            assert_eq!(k == 0, split.chunks[0].header.chunk_type != ChunkType::DontCare);
        }
    }
}

#[test]
fn split_raw_fragments_have_one_raw_chunk() {
    let cases: [(usize, u32); 3] = [
        (4096 * 10, 28 + 24 + 4096),
        (4096 * 1000 + 17, 100_000),
        (1, 3 * 4096),
    ];
    for (raw_size, size) in cases {
        let splits = split_raw(raw_size, size).unwrap();
        let mut before: u32 = 0;
        for (k, split) in splits.iter().enumerate() {
            let raw = split.chunks.last().unwrap();
            assert!(raw.header.chunk_size >= 1);
            assert_eq!(
                raw,
                &SplitChunk {
                    header: ChunkHeader::new_raw(raw.header.chunk_size, 4096),
                    offset: before as usize * 4096,
                    size: raw.header.chunk_size as usize * 4096,
                }
            );
            if k == 0 {
                assert_eq!(split.chunks.len(), 1);
            } else {
                assert_eq!(split.chunks.len(), 2);
                assert_eq!(
                    split.chunks[0],
                    SplitChunk {
                        header: ChunkHeader::new_dontcare(before),
                        offset: 0,
                        size: 0
                    }
                );
            }
            before += raw.header.chunk_size;
        }
    }
}
