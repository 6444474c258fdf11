//! The bytes of trace files: a header with the version of the format, then the data.
use crate::text::{self, decimal, number};
use flate2::Compression;
use std::io::Read;
use vstd::prelude::*;

verus! {

/// What stands between the version and the data, in big-endian order.
pub const VERSION_DELIMITER: u32 = 0xDEADBEEF;

/// The error type of std's I/O functions.
#[verifier::external_type_specification]
#[verifier::external_body]
pub struct ExIoError(std::io::Error);

/// The data in a gzip member that the bytes begin with, or none where they do not begin with one
/// that is whole and sound.
pub uninterp spec fn gunzipped(bytes: Seq<u8>) -> Option<Seq<u8>>;

/// `flate2::read::GzEncoder`, read to its end: a gzip member with the data, compressed at the
/// default level. Reading from a slice never fails, and neither does the compressor. Which of the
/// members with that data it is, is not said.
#[verifier::external_body]
fn gzip(data: &[u8]) -> (result: Result<Vec<u8>, std::io::Error>)
    ensures
        result is Ok,
        result matches Ok(bytes) ==> gunzipped(bytes@) == Some(data@),
{
    let mut encoder = flate2::read::GzEncoder::new(data, Compression::default());
    let mut result = Vec::new();
    match encoder.read_to_end(&mut result) {
        Ok(_) => Ok(result),
        Err(error) => Err(error),
    }
}

/// `flate2::read::GzDecoder`, read to its end: the data in the gzip member that the bytes begin
/// with. It fails where they do not begin with one that is whole and sound.
#[verifier::external_body]
fn gunzip(bytes: &[u8]) -> (result: Result<Vec<u8>, std::io::Error>)
    ensures
        match result {
            Ok(data) => gunzipped(bytes@) == Some(data@),
            Err(_) => gunzipped(bytes@) is None,
        },
{
    let mut decoder = flate2::read::GzDecoder::new(bytes);
    let mut decoded = Vec::new();
    match decoder.read_to_end(&mut decoded) {
        Ok(_) => Ok(decoded),
        Err(error) => Err(error),
    }
}

/// What is wrong with the bytes of a trace file.
#[derive(Debug, Clone, Copy, PartialEq, Eq, Structural)]
pub enum CodecError {
    TooShort,
    BadDelimiter,
    VersionMismatch { trace_major: u16, trace_minor: u16, tool_major: u16, tool_minor: u16 },
    /// The data is no sound gzip member.
    Gzip,
}

impl CodecError {
    pub open spec fn text(self) -> Seq<char> {
        match self {
            CodecError::TooShort => "Trace data is too short, it can't possible be correct!"@,
            CodecError::BadDelimiter =>
                "Trace data is corrupted, version delimiter is incorrect!"@,
            CodecError::VersionMismatch { trace_major, trace_minor, tool_major, tool_minor } =>
                "Version mismatch: trace data is v"@ + decimal(trace_major as nat) + "."@ + decimal(
                    trace_minor as nat,
                ) + " but tool is v"@ + decimal(tool_major as nat) + "."@ + decimal(
                    tool_minor as nat,
                ),
            CodecError::Gzip => "Trace data is not a sound gzip member"@,
        }
    }

    pub fn to_string(&self) -> (result: String)
        ensures
            result@ == self.text(),
    {
        match self {
            CodecError::TooShort =>
                "Trace data is too short, it can't possible be correct!".to_string(),
            CodecError::BadDelimiter =>
                "Trace data is corrupted, version delimiter is incorrect!".to_string(),
            CodecError::VersionMismatch { trace_major, trace_minor, tool_major, tool_minor } => {
                let mut out = "Version mismatch: trace data is v".to_string();
                text::push_decimal(&mut out, *trace_major as u64);
                out.append(".");
                text::push_decimal(&mut out, *trace_minor as u64);
                out.append(" but tool is v");
                text::push_decimal(&mut out, *tool_major as u64);
                out.append(".");
                text::push_decimal(&mut out, *tool_minor as u64);
                assert(out@ =~= self.text());
                out
            },
            CodecError::Gzip => "Trace data is not a sound gzip member".to_string(),
        }
    }
}

/// The number that two bytes stand for, the more significant first.
pub open spec fn short_of(bytes: Seq<u8>) -> u16 {
    (bytes[0] * 256 + bytes[1]) as u16
}

/// The number that four bytes stand for, the more significant first.
pub open spec fn word_of(bytes: Seq<u8>) -> u32 {
    (bytes[0] * 0x100_0000 + bytes[1] * 0x1_0000 + bytes[2] * 0x100 + bytes[3]) as u32
}

/// The header of a trace file: the version of the format, and the delimiter.
///
/// Versions are vX.Y.Z, where vX.Y is the version of the format. The first two bytes are X, the
/// next two are Y.
pub open spec fn header(major: u16, minor: u16) -> Seq<u8> {
    seq![
        (major / 256) as u8,
        (major % 256) as u8,
        (minor / 256) as u8,
        (minor % 256) as u8,
        0xDE,
        0xAD,
        0xBE,
        0xEF,
    ]
}

/// The data that the bytes of a trace file hold.
pub open spec fn decoded(bytes: Seq<u8>, gzip: bool, tool_major: u16, tool_minor: u16) -> Result<
    Seq<u8>,
    CodecError,
> {
    let trace_major = short_of(bytes.take(2));
    let trace_minor = short_of(bytes.subrange(2, 4));
    if bytes.len() < 8 {
        Err(CodecError::TooShort)
    } else if word_of(bytes.subrange(4, 8)) != VERSION_DELIMITER {
        Err(CodecError::BadDelimiter)
    } else if trace_major != tool_major || trace_minor != tool_minor {
        Err(CodecError::VersionMismatch { trace_major, trace_minor, tool_major, tool_minor })
    } else if !gzip {
        Ok(bytes.skip(8))
    } else {
        match gunzipped(bytes.skip(8)) {
            Some(data) => Ok(data),
            None => Err(CodecError::Gzip),
        }
    }
}

/// A header is read as what was written.
proof fn header_is_read(major: u16, minor: u16, rest: Seq<u8>)
    ensures
        ({
            let bytes = header(major, minor) + rest;
            &&& bytes.len() == 8 + rest.len()
            &&& short_of(bytes.take(2)) == major
            &&& short_of(bytes.subrange(2, 4)) == minor
            &&& word_of(bytes.subrange(4, 8)) == VERSION_DELIMITER
            &&& bytes.skip(8) == rest
        }),
{
    let bytes = header(major, minor) + rest;
    assert(bytes.skip(8) =~= rest);
    assert(bytes.take(2)[0] == (major / 256) as u8);
    assert(bytes.take(2)[1] == (major % 256) as u8);
    assert(bytes.subrange(2, 4)[0] == (minor / 256) as u8);
    assert(bytes.subrange(2, 4)[1] == (minor % 256) as u8);
    assert(bytes.subrange(4, 8)[0] == 0xDE);
    assert(bytes.subrange(4, 8)[1] == 0xAD);
    assert(bytes.subrange(4, 8)[2] == 0xBE);
    assert(bytes.subrange(4, 8)[3] == 0xEF);
}

/// Reading gives back what was written, by a tool with the same version of the format.
pub proof fn decode_after_encode(data: Seq<u8>, bytes: Seq<u8>, gzip: bool, major: u16, minor: u16)
    requires
        encodes(bytes, data, gzip, major, minor),
    ensures
        decoded(bytes, gzip, major, minor) == Ok::<Seq<u8>, CodecError>(data),
{
    header_is_read(major, minor, bytes.skip(8));
    assert(bytes =~= header(major, minor) + bytes.skip(8));
}

/// What was written by a tool with another version of the format is refused.
pub proof fn other_versions_are_refused(
    data: Seq<u8>,
    bytes: Seq<u8>,
    gzip: bool,
    trace_major: u16,
    trace_minor: u16,
    tool_major: u16,
    tool_minor: u16,
)
    requires
        encodes(bytes, data, gzip, trace_major, trace_minor),
        trace_major != tool_major || trace_minor != tool_minor,
    ensures
        forall|unzip: bool|
            #[trigger] decoded(bytes, unzip, tool_major, tool_minor) == Err::<Seq<u8>, CodecError>(
                CodecError::VersionMismatch { trace_major, trace_minor, tool_major, tool_minor },
            ),
{
    header_is_read(trace_major, trace_minor, bytes.skip(8));
    assert(bytes =~= header(trace_major, trace_minor) + bytes.skip(8));
}

/// The bytes are a trace file with the data: the header, then the data or a gzip member with it.
pub open spec fn encodes(bytes: Seq<u8>, data: Seq<u8>, gzip: bool, major: u16, minor: u16) -> bool {
    &&& bytes.len() >= 8
    &&& bytes.take(8) == header(major, minor)
    &&& if gzip {
        gunzipped(bytes.skip(8)) == Some(data)
    } else {
        bytes.skip(8) == data
    }
}

/// The version of the format, from the parts of the version of the tool.
pub fn get_major_minor(major: &str, minor: &str) -> (result: Result<(u16, u16), &'static str>)
    ensures
        match (number(major@, u16::MAX as nat), number(minor@, u16::MAX as nat)) {
            (Ok(x), Ok(y)) => result == Ok::<(u16, u16), &'static str>((x as u16, y as u16)),
            (Err(_), _) => result matches Err(text) && text@
                == "Tool's major version is not a 16-bit integer"@,
            (_, Err(_)) => result matches Err(text) && text@
                == "Tool's minor version is not a 16-bit integer"@,
        },
{
    let major_digits = text::characters(major);
    let minor_digits = text::characters(minor);
    match text::parse_number(major_digits.as_slice(), u16::MAX as u64) {
        Ok(x) => match text::parse_number(minor_digits.as_slice(), u16::MAX as u64) {
            Ok(y) => Ok((x as u16, y as u16)),
            Err(_) => Err("Tool's minor version is not a 16-bit integer"),
        },
        Err(_) => Err("Tool's major version is not a 16-bit integer"),
    }
}

/// The bytes of a trace file with the data. It never fails: neither writing to memory nor
/// compressing does.
pub fn encode(data: Vec<u8>, gzip: bool, major: u16, minor: u16) -> (result: Result<
    Vec<u8>,
    CodecError,
>)
    ensures
        result matches Ok(bytes) && encodes(bytes@, data@, gzip, major, minor),
{
    let mut bytes: Vec<u8> = Vec::new();
    bytes.push((major / 256) as u8);
    bytes.push((major % 256) as u8);
    bytes.push((minor / 256) as u8);
    bytes.push((minor % 256) as u8);
    bytes.push(0xDE);
    bytes.push(0xAD);
    bytes.push(0xBE);
    bytes.push(0xEF);
    assert(bytes@ =~= header(major, minor));
    let mut rest = if gzip {
        match self::gzip(data.as_slice()) {
            Ok(zipped) => zipped,
            Err(_) => {
                return Err(CodecError::Gzip);
            },
        }
    } else {
        data
    };
    let ghost payload = rest@;
    bytes.append(&mut rest);
    proof {
        assert(bytes@.take(8) =~= header(major, minor));
        assert(bytes@.skip(8) =~= payload);
    }
    Ok(bytes)
}

/// The data that the bytes of a trace file hold.
pub fn decode(bytes: &[u8], gzip: bool, tool_major: u16, tool_minor: u16) -> (result: Result<
    Vec<u8>,
    CodecError,
>)
    ensures
        match (result, decoded(bytes@, gzip, tool_major, tool_minor)) {
            (Ok(data), Ok(model)) => data@ == model,
            (Err(error), Err(model)) => error == model,
            _ => false,
        },
{
    if bytes.len() < 8 {
        return Err(CodecError::TooShort);
    }
    let trace_major: u16 = bytes[0] as u16 * 256 + bytes[1] as u16;
    let trace_minor: u16 = bytes[2] as u16 * 256 + bytes[3] as u16;
    let trace_delimiter: u32 = bytes[4] as u32 * 0x100_0000 + bytes[5] as u32 * 0x1_0000
        + bytes[6] as u32 * 0x100 + bytes[7] as u32;
    proof {
        assert(short_of(bytes@.take(2)) == trace_major);
        assert(short_of(bytes@.subrange(2, 4)) == trace_minor);
        assert(word_of(bytes@.subrange(4, 8)) == trace_delimiter);
    }
    if trace_delimiter != VERSION_DELIMITER {
        return Err(CodecError::BadDelimiter);
    }
    if trace_major != tool_major || trace_minor != tool_minor {
        return Err(
            CodecError::VersionMismatch { trace_major, trace_minor, tool_major, tool_minor },
        );
    }
    let rest = vstd::slice::slice_subrange(bytes, 8, bytes.len());
    assert(rest@ =~= bytes@.skip(8));
    if gzip {
        match gunzip(rest) {
            Ok(data) => Ok(data),
            Err(_) => Err(CodecError::Gzip),
        }
    } else {
        let data = vstd::slice::slice_to_vec(rest);
        assert(data@ =~= rest@);
        Ok(data)
    }
}

/// The text for a frame whose symbol index is beyond the table of symbols.
pub open spec fn symbol_index_text(index: nat, available: nat) -> Seq<char> {
    "Invalid symbol index "@ + decimal(index) + " for frame, only "@ + decimal(available)
        + " symbols available"@
}

/// The text for a frame whose symbol index is beyond the table of symbols.
pub fn symbol_index_error(index: usize, available: usize) -> (result: String)
    ensures
        result@ == symbol_index_text(index as nat, available as nat),
{
    let mut out = "Invalid symbol index ".to_string();
    text::push_decimal(&mut out, index as u64);
    out.append(" for frame, only ");
    text::push_decimal(&mut out, available as u64);
    out.append(" symbols available");
    assert(out@ =~= symbol_index_text(index as nat, available as nat));
    out
}

} // verus!
