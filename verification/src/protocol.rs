//! Lowlevel protocol types and helpers.
//!
//! A Fastboot command is a line of ASCII text without a delimiter.  A
//! response is a tag of four ASCII letters followed by its payload: text, or,
//! after `DATA`, a size as eight hexadecimal digits.

use vstd::prelude::*;
use vstd::string::StringSliceAdditionalSpecFns;
use vstd::utf8::{decode_utf8, valid_utf8};

verus! {

/// The error of `core::str::from_utf8`.
#[verifier::external_type_specification]
#[verifier::external_body]
pub struct ExUtf8Error(core::str::Utf8Error);

/// `core::str::from_utf8` succeeds on the byte sequences that are valid
/// UTF-8, and on no others.  The string slice it returns then has the bytes
/// it was given.
pub assume_specification[ core::str::from_utf8 ](v: &[u8]) -> (r: Result<
    &str,
    core::str::Utf8Error,
>)
    ensures
        r is Ok <==> valid_utf8(v@),
        r matches Ok(s) ==> s.spec_bytes() == v@,
;

/// The ASCII character that stands for the hexadecimal digit `d`, in lower
/// case.
pub open spec fn hex_digit(d: int) -> u8
    recommends
        0 <= d < 16,
{
    if d < 10 {
        ('0' as u8 + d) as u8
    } else {
        ('a' as u8 + d - 10) as u8
    }
}

/// The last `width` hexadecimal digits of `n`, most significant first, padded
/// with zeros.
pub open spec fn hex_digits(n: nat, width: nat) -> Seq<u8>
    decreases width,
{
    if width == 0 {
        Seq::empty()
    } else {
        hex_digits(n / 16, (width - 1) as nat).push(hex_digit((n % 16) as int))
    }
}

/// The value of a hexadecimal digit in either case; `None` for any other
/// byte.
pub open spec fn digit_value(b: u8) -> Option<int> {
    if '0' as u8 <= b <= '9' as u8 {
        Some(b - '0' as u8)
    } else if 'a' as u8 <= b <= 'f' as u8 {
        Some(b - 'a' as u8 + 10)
    } else if 'A' as u8 <= b <= 'F' as u8 {
        Some(b - 'A' as u8 + 10)
    } else {
        None
    }
}

/// The number that a sequence of hexadecimal digits stands for, most
/// significant first; `None` where any byte is no digit.
pub open spec fn hex_value(s: Seq<u8>) -> Option<int>
    decreases s.len(),
{
    if s.len() == 0 {
        Some(0)
    } else {
        match (hex_value(s.drop_last()), digit_value(s.last())) {
            (Some(v), Some(d)) => Some(16 * v + d),
            _ => None,
        }
    }
}

/// 16 to the power of `e`.
pub open spec fn pow16(e: nat) -> nat
    decreases e,
{
    if e == 0 {
        1
    } else {
        16 * pow16((e - 1) as nat)
    }
}

/// The size that the payload of a `DATA` response or the argument of a
/// `download` command holds: exactly eight hexadecimal digits.
pub open spec fn hex_size(s: Seq<u8>) -> Option<u32> {
    if s.len() == 8 {
        match hex_value(s) {
            Some(v) => Some(v as u32),
            None => None,
        }
    } else {
        None
    }
}

/// Digits stand for a number with no more digits than they are.
proof fn lemma_hex_value_bound(s: Seq<u8>)
    ensures
        hex_value(s) matches Some(v) ==> 0 <= v < pow16(s.len()),
    decreases s.len(),
{
    if s.len() > 0 {
        lemma_hex_value_bound(s.drop_last());
    }
}

/// Eight digits count up to 2^32.
proof fn lemma_pow16_8()
    ensures
        pow16(8) == 0x1_0000_0000,
{
    reveal_with_fuel(pow16, 9);
}

/// Digits that were written for a number stand for that number, where the
/// number has no more digits than were written.
pub proof fn lemma_hex_roundtrip(n: nat, width: nat)
    requires
        n < pow16(width),
    ensures
        hex_digits(n, width).len() == width,
        hex_value(hex_digits(n, width)) == Some(n as int),
    decreases width,
{
    if width > 0 {
        lemma_hex_roundtrip(n / 16, (width - 1) as nat);
        let s = hex_digits(n, width);
        assert(s.drop_last() =~= hex_digits(n / 16, (width - 1) as nat));
    }
}

/// The eight digits written for a size are read back as that size.
pub proof fn lemma_hex_size_roundtrip(size: u32)
    ensures
        hex_size(hex_digits(size as nat, 8)) == Some(size),
{
    lemma_pow16_8();
    lemma_hex_roundtrip(size as nat, 8);
}

/// Appends the last `width` hexadecimal digits of `n` to `out`.
fn put_hex(out: &mut Vec<u8>, n: u32, width: u8)
    ensures
        final(out)@ == old(out)@ + hex_digits(n as nat, width as nat),
    decreases width,
{
    if width > 0 {
        put_hex(out, n / 16, width - 1);
        let d: u8 = (n % 16) as u8;
        let c: u8 = if d < 10 {
            0x30 + d
        } else {
            0x61 + (d - 10)
        };
        out.push(c);
        assert(final(out)@ =~= old(out)@ + hex_digits(n as nat, width as nat));
    } else {
        assert(final(out)@ =~= old(out)@ + hex_digits(n as nat, width as nat));
    }
}

/// Reads a size of exactly eight hexadecimal digits.
fn parse_hex_size(s: &[u8]) -> (r: Option<u32>)
    ensures
        r == hex_size(s@),
{
    if s.len() != 8 {
        return None;
    }
    let mut value: u64 = 0;
    let mut i: usize = 0;
    while i < 8
        invariant
            i <= 8,
            s@.len() == 8,
            hex_value(s@.take(i as int)) == Some(value as int),
        decreases 8 - i,
    {
        let b: u8 = s[i];
        let d: u8 = if 0x30 <= b && b <= 0x39 {
            b - 0x30
        } else if 0x61 <= b && b <= 0x66 {
            b - 0x61 + 10
        } else if 0x41 <= b && b <= 0x46 {
            b - 0x41 + 10
        } else {
            proof {
                assert(s@.take(i + 1).drop_last() =~= s@.take(i as int));
                lemma_hex_value_prefix(s@, i + 1);
            }
            return None;
        };
        proof {
            assert(s@.take(i + 1).drop_last() =~= s@.take(i as int));
            lemma_hex_value_bound(s@.take(i as int));
            lemma_pow16_le(i as nat, 7);
            reveal_with_fuel(pow16, 8);
        }
        value = value * 16 + d as u64;
        i += 1;
    }
    proof {
        assert(s@.take(8) =~= s@);
        lemma_hex_value_bound(s@);
        lemma_pow16_8();
    }
    Some(value as u32)
}

/// The powers of 16 grow.
proof fn lemma_pow16_le(a: nat, b: nat)
    requires
        a <= b,
    ensures
        pow16(a) <= pow16(b),
    decreases b,
{
    if a < b {
        lemma_pow16_le(a, (b - 1) as nat);
    }
}

/// Where the first digits stand for no number, all of them stand for none.
proof fn lemma_hex_value_prefix(s: Seq<u8>, n: int)
    requires
        0 <= n <= s.len(),
        hex_value(s.take(n)) is None,
    ensures
        hex_value(s) is None,
    decreases s.len() - n,
{
    if n < s.len() {
        assert(s.take(n + 1).drop_last() =~= s.take(n));
        lemma_hex_value_prefix(s, n + 1);
    } else {
        assert(s.take(n) =~= s);
    }
}

/// Fastboot commands
#[derive(Debug, Clone, Copy, PartialEq, Eq)]
pub enum FastBootCommand<'a> {
    /// Get a variable value
    GetVar(&'a str),
    /// Download a given length of data to the devices
    Download(u32),
    /// Flash downloaded to a given target
    Flash(&'a str),
    /// Erase a given target
    Erase(&'a str),
    /// Reboot the devices
    Reboot,
    /// Reboot into the bootloader
    RebootBootloader,
    /// Continue booting
    Continue,
}

impl<'a> FastBootCommand<'a> {
    /// The bytes of the command on the wire: its name and, after a colon,
    /// its argument.  The size of a download is written as eight
    /// hexadecimal digits.
    pub open spec fn wire(self) -> Seq<u8> {
        match self {
            FastBootCommand::GetVar(var) => "getvar:".spec_bytes() + var.spec_bytes(),
            FastBootCommand::Download(size) => "download:".spec_bytes() + hex_digits(
                size as nat,
                8,
            ),
            FastBootCommand::Flash(target) => "flash:".spec_bytes() + target.spec_bytes(),
            FastBootCommand::Erase(target) => "erase:".spec_bytes() + target.spec_bytes(),
            FastBootCommand::Reboot => "reboot".spec_bytes(),
            FastBootCommand::RebootBootloader => "reboot-bootloader".spec_bytes(),
            FastBootCommand::Continue => "continue".spec_bytes(),
        }
    }

    /// The bytes to send for this command
    pub fn to_bytes(&self) -> (out: Vec<u8>)
        ensures
            out@ == self.wire(),
    {
        let mut out: Vec<u8> = Vec::new();
        match self {
            FastBootCommand::GetVar(var) => {
                out.extend_from_slice("getvar:".as_bytes());
                out.extend_from_slice(var.as_bytes());
            },
            FastBootCommand::Download(size) => {
                out.extend_from_slice("download:".as_bytes());
                put_hex(&mut out, *size, 8);
            },
            FastBootCommand::Flash(target) => {
                out.extend_from_slice("flash:".as_bytes());
                out.extend_from_slice(target.as_bytes());
            },
            FastBootCommand::Erase(target) => {
                out.extend_from_slice("erase:".as_bytes());
                out.extend_from_slice(target.as_bytes());
            },
            FastBootCommand::Reboot => {
                out.extend_from_slice("reboot".as_bytes());
            },
            FastBootCommand::RebootBootloader => {
                out.extend_from_slice("reboot-bootloader".as_bytes());
            },
            FastBootCommand::Continue => {
                out.extend_from_slice("continue".as_bytes());
            },
        }
        assert(out@ =~= self.wire());
        out
    }
}

/// Parse errors for fastboot responses
#[derive(Debug, Clone, Copy, PartialEq, Eq)]
pub enum FastBootResponseParseError {
    /// Unknown response type: the response does not start with a known tag
    UnknownReply,
    /// Couldn't parse DATA length: it is not eight hexadecimal digits
    DataLength,
    /// The text of the response is not UTF-8
    InvalidText,
}

/// Fastboot response
#[derive(Debug, PartialEq, Eq)]
pub enum FastBootResponse {
    /// Command succeeded, with the value it gives
    Okay(String),
    /// Information from the device while the command runs
    Info(String),
    /// Text that continues earlier information
    Text(String),
    /// Command failed, with the reason
    Fail(String),
    /// The device is ready to receive so many bytes
    Data(u32),
}

/// What a response says: its kind and its text or size.
pub enum Reply {
    /// Command succeeded, with the value it gives
    Okay(Seq<char>),
    /// Information from the device while the command runs
    Info(Seq<char>),
    /// Text that continues earlier information
    Text(Seq<char>),
    /// Command failed, with the reason
    Fail(Seq<char>),
    /// The device is ready to receive so many bytes
    Data(u32),
}

impl View for FastBootResponse {
    type V = Reply;

    open spec fn view(&self) -> Reply {
        match self {
            FastBootResponse::Okay(text) => Reply::Okay(text@),
            FastBootResponse::Info(text) => Reply::Info(text@),
            FastBootResponse::Text(text) => Reply::Text(text@),
            FastBootResponse::Fail(text) => Reply::Fail(text@),
            FastBootResponse::Data(size) => Reply::Data(*size),
        }
    }
}

/// Whether `bytes` start with the bytes of `tag`.
pub open spec fn has_tag(bytes: Seq<u8>, tag: &str) -> bool {
    bytes.len() >= tag.spec_bytes().len() && bytes.subrange(0, tag.spec_bytes().len() as int)
        == tag.spec_bytes()
}

/// The text that a payload holds, where it is UTF-8.
pub open spec fn payload_text(payload: Seq<u8>) -> Result<Seq<char>, FastBootResponseParseError> {
    if valid_utf8(payload) {
        Ok(decode_utf8(payload))
    } else {
        Err(FastBootResponseParseError::InvalidText)
    }
}

/// What the bytes of a response say.  The first four bytes are the tag, the
/// rest is the payload.  Bytes without a known tag are an unknown reply; so
/// are fewer than four bytes.
pub open spec fn parse_reply(bytes: Seq<u8>) -> Result<Reply, FastBootResponseParseError> {
    let payload = bytes.skip(4);
    if bytes.len() < 4 {
        Err(FastBootResponseParseError::UnknownReply)
    } else if has_tag(bytes, "OKAY") {
        match payload_text(payload) {
            Ok(text) => Ok(Reply::Okay(text)),
            Err(e) => Err(e),
        }
    } else if has_tag(bytes, "INFO") {
        match payload_text(payload) {
            Ok(text) => Ok(Reply::Info(text)),
            Err(e) => Err(e),
        }
    } else if has_tag(bytes, "TEXT") {
        match payload_text(payload) {
            Ok(text) => Ok(Reply::Text(text)),
            Err(e) => Err(e),
        }
    } else if has_tag(bytes, "FAIL") {
        match payload_text(payload) {
            Ok(text) => Ok(Reply::Fail(text)),
            Err(e) => Err(e),
        }
    } else if has_tag(bytes, "DATA") {
        match hex_size(payload) {
            Some(size) => Ok(Reply::Data(size)),
            None => Err(FastBootResponseParseError::DataLength),
        }
    } else {
        Err(FastBootResponseParseError::UnknownReply)
    }
}

/// Whether `bytes` start with the bytes of `tag`.
fn starts_with(bytes: &[u8], tag: &str) -> (r: bool)
    ensures
        r == has_tag(bytes@, tag),
{
    let t = tag.as_bytes();
    if bytes.len() < t.len() {
        return false;
    }
    let mut i: usize = 0;
    while i < t.len()
        invariant
            i <= t@.len() <= bytes@.len(),
            t@ == tag.spec_bytes(),
            forall|j: int| 0 <= j < i ==> bytes@[j] == t@[j],
        decreases t@.len() - i,
    {
        if bytes[i] != t[i] {
            assert(bytes@.subrange(0, t@.len() as int)[i as int] != t@[i as int]);
            return false;
        }
        i += 1;
    }
    assert(bytes@.subrange(0, t@.len() as int) =~= t@);
    true
}

/// The text of a payload
fn text_of(payload: &[u8]) -> (r: Result<String, FastBootResponseParseError>)
    ensures
        match r {
            Ok(text) => payload_text(payload@) == Ok::<Seq<char>, FastBootResponseParseError>(
                text@,
            ),
            Err(e) => payload_text(payload@) == Err::<Seq<char>, FastBootResponseParseError>(e),
        },
{
    match core::str::from_utf8(payload) {
        Ok(text) => {
            proof {
                vstd::utf8::encode_utf8_decode_utf8(text@);
            }
            Ok(text.to_owned())
        },
        Err(_) => Err(FastBootResponseParseError::InvalidText),
    }
}

impl FastBootResponse {
    /// Parse a fastboot response from provided data
    pub fn from_bytes(bytes: &[u8]) -> (r: Result<FastBootResponse, FastBootResponseParseError>)
        ensures
            match r {
                Ok(response) => parse_reply(bytes@) == Ok::<Reply, FastBootResponseParseError>(
                    response@,
                ),
                Err(e) => parse_reply(bytes@) == Err::<Reply, FastBootResponseParseError>(e),
            },
    {
        if bytes.len() < 4 {
            return Err(FastBootResponseParseError::UnknownReply);
        }
        let payload = vstd::slice::slice_subrange(bytes, 4, bytes.len());
        assert(payload@ =~= bytes@.skip(4));
        if starts_with(bytes, "OKAY") {
            match text_of(payload) {
                Ok(text) => Ok(FastBootResponse::Okay(text)),
                Err(e) => Err(e),
            }
        } else if starts_with(bytes, "INFO") {
            match text_of(payload) {
                Ok(text) => Ok(FastBootResponse::Info(text)),
                Err(e) => Err(e),
            }
        } else if starts_with(bytes, "TEXT") {
            match text_of(payload) {
                Ok(text) => Ok(FastBootResponse::Text(text)),
                Err(e) => Err(e),
            }
        } else if starts_with(bytes, "FAIL") {
            match text_of(payload) {
                Ok(text) => Ok(FastBootResponse::Fail(text)),
                Err(e) => Err(e),
            }
        } else if starts_with(bytes, "DATA") {
            match parse_hex_size(payload) {
                Some(size) => Ok(FastBootResponse::Data(size)),
                None => Err(FastBootResponseParseError::DataLength),
            }
        } else {
            Err(FastBootResponseParseError::UnknownReply)
        }
    }
}

} // verus!
