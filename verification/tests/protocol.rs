use fastboot_sparse::protocol::{FastBootCommand, FastBootResponse, FastBootResponseParseError};

#[test]
fn command_bytes() {
    assert_eq!(
        FastBootCommand::GetVar("version").to_bytes(),
        b"getvar:version".to_vec()
    );
    assert_eq!(
        FastBootCommand::GetVar("all").to_bytes(),
        b"getvar:all".to_vec()
    );
    assert_eq!(
        FastBootCommand::Flash("boot").to_bytes(),
        b"flash:boot".to_vec()
    );
    assert_eq!(
        FastBootCommand::Erase("userdata").to_bytes(),
        b"erase:userdata".to_vec()
    );
    assert_eq!(FastBootCommand::Reboot.to_bytes(), b"reboot".to_vec());
    assert_eq!(
        FastBootCommand::RebootBootloader.to_bytes(),
        b"reboot-bootloader".to_vec()
    );
    assert_eq!(FastBootCommand::Continue.to_bytes(), b"continue".to_vec());
}

#[test]
fn command_with_empty_argument() {
    assert_eq!(FastBootCommand::GetVar("").to_bytes(), b"getvar:".to_vec());
    assert_eq!(FastBootCommand::Flash("").to_bytes(), b"flash:".to_vec());
}

#[test]
fn command_argument_is_utf8() {
    assert_eq!(
        FastBootCommand::GetVar("größe").to_bytes(),
        "getvar:größe".as_bytes().to_vec()
    );
}

#[test]
fn download_command_has_eight_lowercase_digits() {
    assert_eq!(
        FastBootCommand::Download(0).to_bytes(),
        b"download:00000000".to_vec()
    );
    assert_eq!(
        FastBootCommand::Download(4096).to_bytes(),
        b"download:00001000".to_vec()
    );
    assert_eq!(
        FastBootCommand::Download(0xabcdef).to_bytes(),
        b"download:00abcdef".to_vec()
    );
    assert_eq!(
        FastBootCommand::Download(0x1234_5678).to_bytes(),
        b"download:12345678".to_vec()
    );
    assert_eq!(
        FastBootCommand::Download(u32::MAX).to_bytes(),
        b"download:ffffffff".to_vec()
    );
    assert_eq!(
        FastBootCommand::Download(0x9a0b_c0d0).to_bytes(),
        b"download:9a0bc0d0".to_vec()
    );
}

#[test]
fn response_text() {
    assert_eq!(
        FastBootResponse::from_bytes(b"OKAY"),
        Ok(FastBootResponse::Okay(String::new()))
    );
    assert_eq!(
        FastBootResponse::from_bytes(b"OKAY0.4"),
        Ok(FastBootResponse::Okay("0.4".to_string()))
    );
    assert_eq!(
        FastBootResponse::from_bytes(b"INFOversion: 0.4"),
        Ok(FastBootResponse::Info("version: 0.4".to_string()))
    );
    assert_eq!(
        FastBootResponse::from_bytes(b"TEXTmore to say"),
        Ok(FastBootResponse::Text("more to say".to_string()))
    );
    assert_eq!(
        FastBootResponse::from_bytes(b"FAILunknown command"),
        Ok(FastBootResponse::Fail("unknown command".to_string()))
    );
    assert_eq!(
        FastBootResponse::from_bytes("INFOgrößer".as_bytes()),
        Ok(FastBootResponse::Info("größer".to_string()))
    );
}

#[test]
fn response_data() {
    assert_eq!(
        FastBootResponse::from_bytes(b"DATA00100000"),
        Ok(FastBootResponse::Data(0x10_0000))
    );
    assert_eq!(
        FastBootResponse::from_bytes(b"DATA00000000"),
        Ok(FastBootResponse::Data(0))
    );
    assert_eq!(
        FastBootResponse::from_bytes(b"DATAffffffff"),
        Ok(FastBootResponse::Data(u32::MAX))
    );
    assert_eq!(
        FastBootResponse::from_bytes(b"DATA0000ABCD"),
        Ok(FastBootResponse::Data(0xabcd))
    );
    assert_eq!(
        FastBootResponse::from_bytes(b"DATA12345678"),
        Ok(FastBootResponse::Data(0x1234_5678))
    );
    assert_eq!(
        FastBootResponse::from_bytes(b"DATA9aBcDeF0"),
        Ok(FastBootResponse::Data(0x9abc_def0))
    );
}

#[test]
fn response_data_length_errors() {
    let bad: [&[u8]; 9] = [
        b"DATA",
        b"DATA1000",
        b"DATA0010000",
        b"DATA001000000",
        b"DATA0010000g",
        b"DATA+0100000",
        b"DATA 0100000",
        b"DATA0x100000",
        b"DATA0010000\0",
    ];
    for bytes in bad {
        assert_eq!(
            FastBootResponse::from_bytes(bytes),
            Err(FastBootResponseParseError::DataLength),
            "{bytes:?}"
        );
    }
    assert_eq!(
        FastBootResponse::from_bytes(&[b'D', b'A', b'T', b'A', 0xff, 0xfe, 0, 0, 0, 0, 0, 0]),
        Err(FastBootResponseParseError::DataLength)
    );
}

#[test]
fn response_unknown_reply() {
    let bad: [&[u8]; 8] = [
        b"", b"O", b"OKA", b"okay", b"NOPEtext", b"DONE", b" OKAY", b"DATB00100000",
    ];
    for bytes in bad {
        assert_eq!(
            FastBootResponse::from_bytes(bytes),
            Err(FastBootResponseParseError::UnknownReply),
            "{bytes:?}"
        );
    }
    assert_eq!(
        FastBootResponse::from_bytes(&[0xff, 0xfe, 0xfd, 0xfc, 0x41]),
        Err(FastBootResponseParseError::UnknownReply)
    );
}

#[test]
fn response_invalid_text() {
    assert_eq!(
        FastBootResponse::from_bytes(&[b'O', b'K', b'A', b'Y', 0xff]),
        Err(FastBootResponseParseError::InvalidText)
    );
    assert_eq!(
        FastBootResponse::from_bytes(&[b'I', b'N', b'F', b'O', b'a', 0xc3]),
        Err(FastBootResponseParseError::InvalidText)
    );
    assert_eq!(
        FastBootResponse::from_bytes(&[b'T', b'E', b'X', b'T', 0xed, 0xa0, 0x80]),
        Err(FastBootResponseParseError::InvalidText)
    );
    assert_eq!(
        FastBootResponse::from_bytes(&[b'F', b'A', b'I', b'L', 0x80]),
        Err(FastBootResponseParseError::InvalidText)
    );
}

#[test]
fn download_size_roundtrip() {
    let sizes: [u32; 7] = [0, 1, 15, 16, 0x1000, 0x8000_0000, u32::MAX];
    for size in sizes {
        let command = FastBootCommand::Download(size).to_bytes();
        let mut response = b"DATA".to_vec();
        response.extend_from_slice(&command[9..]);
        assert_eq!(
            FastBootResponse::from_bytes(&response),
            Ok(FastBootResponse::Data(size))
        );
    }
}
