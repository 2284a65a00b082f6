use vstd::prelude::*;
use crate::bytes::{le_value, le_u32_at};
use crate::content::{content_spec, parse_tphira_content};
use crate::error::RecordError;
use crate::model::{PhiraRecord, RecordModel};

verus! {

/// Size of the tphira-mp header: magic (8), version (4), compression (1).
pub const HEADER_SIZE: usize = 13;

/// Compression byte for a payload stored as it is.
pub const COMPRESSION_NONE: u8 = 0;

/// Compression byte for a Zstandard payload.
pub const COMPRESSION_ZSTD: u8 = 1;

/// Compression byte for a DEFLATE payload.
pub const COMPRESSION_DEFLATE: u8 = 2;

/// The eight bytes every `.phirarec` file starts with: ASCII `PHIRAREC`.
pub open spec fn magic_tag() -> Seq<u8> {
    seq![0x50u8, 0x48u8, 0x49u8, 0x52u8, 0x41u8, 0x52u8, 0x45u8, 0x43u8]
}

/// Whether `data` starts with the `PHIRAREC` magic.
pub open spec fn has_magic(data: Seq<u8>) -> bool {
    data.len() >= 8 && data.subrange(0, 8) == magic_tag()
}

/// Quick validity test without full parsing: whether `data` starts with `PHIRAREC`.
pub fn is_phirarec(data: &[u8]) -> (b: bool)
    ensures
        b == has_magic(data@),
{
    let b = data.len() >= 8 && data[0] == 0x50 && data[1] == 0x48 && data[2] == 0x49 && data[3]
        == 0x52 && data[4] == 0x41 && data[5] == 0x52 && data[6] == 0x45 && data[7] == 0x43;
    proof {
        if data@.len() >= 8 {
            let head = data@.subrange(0, 8);
            if b {
                assert(head =~= magic_tag());
            } else {
                if head == magic_tag() {
                    assert(head[0] == 0x50u8 && head[1] == 0x48u8 && head[2] == 0x49u8 && head[3]
                        == 0x52u8);
                    assert(head[4] == 0x41u8 && head[5] == 0x52u8 && head[6] == 0x45u8 && head[7]
                        == 0x43u8);
                }
            }
        }
    }
    b
}

// ---------------------------------------------------------------------------
// Decompression
// ---------------------------------------------------------------------------

/// What `ruzstd`'s `StreamingDecoder` reads out of `frame`, to its end; `None` where it
/// reports an error.
pub uninterp spec fn zstd_decoded(frame: Seq<u8>) -> Option<Seq<u8>>;

/// What `flate2`'s `read::DeflateDecoder` reads out of `stream`, to its end; `None` where
/// it reports an error.
pub uninterp spec fn deflate_decoded(stream: Seq<u8>) -> Option<Seq<u8>>;

/// Decodes a Zstandard frame with `ruzstd::decoding::StreamingDecoder::new` and
/// `std::io::Read::read_to_end`. Trusted: the result is the name `zstd_decoded` of the
/// input (decoding depends on the input bytes alone); nothing more is claimed of it.
#[verifier::external_body]
fn zstd_decompress(frame: &[u8]) -> (out: Option<Vec<u8>>)
    ensures
        zstd_decoded(frame@) == match out {
            Some(v) => Some(v@),
            None => None::<Seq<u8>>,
        },
{
    let mut decoder = match ruzstd::decoding::StreamingDecoder::new(frame) {
        Ok(decoder) => decoder,
        Err(_) => return None,
    };
    let mut out = Vec::new();
    match std::io::Read::read_to_end(&mut decoder, &mut out) {
        Ok(_) => Some(out),
        Err(_) => None,
    }
}

/// Decodes a raw DEFLATE stream with `flate2::read::DeflateDecoder::new` and
/// `std::io::Read::read_to_end`. Trusted: the result is the name `deflate_decoded` of the
/// input (decoding depends on the input bytes alone); nothing more is claimed of it.
#[verifier::external_body]
fn deflate_decompress(stream: &[u8]) -> (out: Option<Vec<u8>>)
    ensures
        deflate_decoded(stream@) == match out {
            Some(v) => Some(v@),
            None => None::<Seq<u8>>,
        },
{
    let mut decoder = flate2::read::DeflateDecoder::new(stream);
    let mut out = Vec::new();
    match std::io::Read::read_to_end(&mut decoder, &mut out) {
        Ok(_) => Some(out),
        Err(_) => None,
    }
}

/// The payload after decompression with the algorithm that the compression byte names.
pub open spec fn decompress_spec(compression: u8, payload: Seq<u8>) -> Result<
    Seq<u8>,
    RecordError,
> {
    if compression == COMPRESSION_NONE {
        Ok(payload)
    } else if compression == COMPRESSION_ZSTD {
        match zstd_decoded(payload) {
            Some(bytes) => Ok(bytes),
            None => Err(RecordError::ZstdFailed),
        }
    } else if compression == COMPRESSION_DEFLATE {
        match deflate_decoded(payload) {
            Some(bytes) => Ok(bytes),
            None => Err(RecordError::DeflateFailed),
        }
    } else {
        Err(RecordError::UnsupportedCompression(compression))
    }
}

/// Decompresses the payload with the algorithm that the header names.
pub fn decompress_payload(compression: u8, payload: &[u8]) -> (r: Result<Vec<u8>, RecordError>)
    ensures
        match decompress_spec(compression, payload@) {
            Ok(bytes) => r matches Ok(v) && v@ == bytes,
            Err(e) => r == Err::<Vec<u8>, RecordError>(e),
        },
{
    if compression == COMPRESSION_NONE {
        Ok(vstd::slice::slice_to_vec(payload))
    } else if compression == COMPRESSION_ZSTD {
        match zstd_decompress(payload) {
            Some(out) => Ok(out),
            None => Err(RecordError::ZstdFailed),
        }
    } else if compression == COMPRESSION_DEFLATE {
        match deflate_decompress(payload) {
            Some(out) => Ok(out),
            None => Err(RecordError::DeflateFailed),
        }
    } else {
        Err(RecordError::UnsupportedCompression(compression))
    }
}

// ---------------------------------------------------------------------------
// Format detection
// ---------------------------------------------------------------------------

/// Which kind of `.phirarec` file some bytes are.
#[derive(Clone, Copy, Debug, PartialEq, Eq, Structural)]
pub enum FormatDetection {
    /// A tphira-mp recording whose payload decompresses with the given algorithm.
    TphiraMp { compression: u8 },
    /// A Phira client recording with an encrypted payload.
    PhiraClientEncrypted,
    /// Shorter than the header.
    TooSmall,
    /// No `PHIRAREC` magic.
    BadMagic,
    /// Neither of the known formats.
    Unknown,
}

/// The payload that follows the header.
pub open spec fn payload_of(data: Seq<u8>) -> Seq<u8> {
    data.subrange(HEADER_SIZE as int, data.len() as int)
}

/// Whether the header is a tphira-mp header whose compression byte names an algorithm
/// under which the payload decompresses.
pub open spec fn payload_decodes(data: Seq<u8>) -> bool {
    &&& data.len() >= HEADER_SIZE
    &&& has_magic(data)
    &&& data[12] <= COMPRESSION_DEFLATE
    &&& decompress_spec(data[12], payload_of(data)) is Ok
}

/// The kind of file `data` is, given whether its payload decompresses. Byte 12 is the
/// compression byte of a tphira-mp header and the version marker of a Phira client header;
/// a client file has at least 26 bytes, marker 1, and a nonzero little-endian `u32` at
/// bytes 22..26 (past the 8-byte nonce at bytes 14..22).
pub open spec fn format_of(data: Seq<u8>, payload_decodes: bool) -> FormatDetection {
    if data.len() < HEADER_SIZE {
        FormatDetection::TooSmall
    } else if !has_magic(data) {
        FormatDetection::BadMagic
    } else if data[12] <= COMPRESSION_DEFLATE && payload_decodes {
        FormatDetection::TphiraMp { compression: data[12] }
    } else if data.len() >= 26 && data[12] == 1 && le_value(data.subrange(22, 26)) != 0 {
        FormatDetection::PhiraClientEncrypted
    } else {
        FormatDetection::Unknown
    }
}

/// Decides the kind of file from its bytes and from whether its payload decompressed.
pub fn classify_header(data: &[u8], payload_decodes: bool) -> (f: FormatDetection)
    ensures
        f == format_of(data@, payload_decodes),
{
    if data.len() < HEADER_SIZE {
        return FormatDetection::TooSmall;
    }
    if !is_phirarec(data) {
        return FormatDetection::BadMagic;
    }
    let byte12 = data[12];
    if byte12 <= COMPRESSION_DEFLATE && payload_decodes {
        return FormatDetection::TphiraMp { compression: byte12 };
    }
    if data.len() >= 26 {
        let version_marker = data[12];
        let reserved_raw = le_u32_at(data, 22);
        if version_marker == 1 && reserved_raw != 0 {
            return FormatDetection::PhiraClientEncrypted;
        }
    }
    FormatDetection::Unknown
}

/// Tells which kind of `.phirarec` file `data` is. A header whose compression byte names a
/// known algorithm is tried by decompressing the payload; where that fails, the file may be
/// an encrypted Phira client recording.
pub fn detect_format(data: &[u8]) -> (f: FormatDetection)
    ensures
        f == format_of(data@, payload_decodes(data@)),
{
    let mut decodes = false;
    if data.len() >= HEADER_SIZE && is_phirarec(data) && data[12] <= COMPRESSION_DEFLATE {
        let payload = vstd::slice::slice_subrange(data, HEADER_SIZE, data.len());
        decodes = decompress_payload(data[12], payload).is_ok();
    }
    classify_header(data, decodes)
}

// ---------------------------------------------------------------------------
// Whole files
// ---------------------------------------------------------------------------

/// Reading a whole `.phirarec` file: a tphira-mp file yields its decompressed payload's
/// record, with the header's compression byte; any other kind of file its error.
pub open spec fn record_spec(data: Seq<u8>) -> Result<RecordModel, RecordError> {
    match format_of(data, payload_decodes(data)) {
        FormatDetection::TphiraMp { compression } => match decompress_spec(
            compression,
            payload_of(data),
        ) {
            Err(e) => Err(e),
            Ok(payload) => match content_spec(payload) {
                Err(e) => Err(e),
                Ok(m) => Ok(
                    RecordModel {
                        version: m.version,
                        compression,
                        record_id: m.record_id,
                        timestamp_ms: m.timestamp_ms,
                        chart_id: m.chart_id,
                        chart_name: m.chart_name,
                        user_id: m.user_id,
                        user_name: m.user_name,
                        touches: m.touches,
                        judges: m.judges,
                    },
                ),
            },
        },
        FormatDetection::PhiraClientEncrypted => Err(RecordError::Encrypted),
        FormatDetection::TooSmall => Err(RecordError::TooSmall),
        FormatDetection::BadMagic => Err(RecordError::BadMagic),
        FormatDetection::Unknown => Err(RecordError::UnknownFormat),
    }
}

/// Parses a `.phirarec` file (tphira-mp format). Unencrypted tphira-mp files, stored as
/// they are or compressed with Zstandard or DEFLATE, are parsed; an encrypted Phira client
/// file gives `RecordError::Encrypted`; other files their own error.
pub fn parse_record(data: &[u8]) -> (r: Result<PhiraRecord, RecordError>)
    ensures
        match record_spec(data@) {
            Ok(model) => r matches Ok(record) && record@ == model,
            Err(e) => r == Err::<PhiraRecord, RecordError>(e),
        },
{
    match detect_format(data) {
        FormatDetection::TphiraMp { compression } => {
            let payload = vstd::slice::slice_subrange(data, HEADER_SIZE, data.len());
            let decompressed = decompress_payload(compression, payload)?;
            let mut record = parse_tphira_content(decompressed.as_slice())?;
            record.compression = compression;
            Ok(record)
        },
        FormatDetection::PhiraClientEncrypted => Err(RecordError::Encrypted),
        FormatDetection::TooSmall => Err(RecordError::TooSmall),
        FormatDetection::BadMagic => Err(RecordError::BadMagic),
        FormatDetection::Unknown => Err(RecordError::UnknownFormat),
    }
}

} // verus!
