use vstd::prelude::*;
use crate::bytes::le_value;
use crate::content::content_spec;
use crate::error::RecordError;
use crate::format::{
    has_magic, zstd_decoded, deflate_decoded, decompress_spec, format_of, payload_decodes,
    record_spec, FormatDetection,
};
use crate::model::RecordModel;

verus! {

/// Whether `data` begins with the eight ASCII bytes `P H I R A R E C`.
pub open spec fn starts_with_phirarec(data: Seq<u8>) -> bool {
    &&& data.len() >= 8
    &&& data[0] == 0x50
    &&& data[1] == 0x48
    &&& data[2] == 0x49
    &&& data[3] == 0x52
    &&& data[4] == 0x41
    &&& data[5] == 0x52
    &&& data[6] == 0x45
    &&& data[7] == 0x43
}

/// What the decoder that compression byte `c` names yields for `payload`: the payload itself
/// when stored, the Zstandard or DEFLATE decoder's whole output, `None` where the decoder
/// fails or no decoder is named.
pub open spec fn decoder_output(c: u8, payload: Seq<u8>) -> Option<Seq<u8>> {
    if c == 0 {
        Some(payload)
    } else if c == 1 {
        zstd_decoded(payload)
    } else if c == 2 {
        deflate_decoded(payload)
    } else {
        None
    }
}

/// The magic test compares all eight bytes: a file has the magic exactly when it has at
/// least eight bytes and they are `PHIRAREC`; a difference in any of them fails it.
pub proof fn lemma_magic_is_all_eight_bytes(data: Seq<u8>)
    ensures
        has_magic(data) <==> starts_with_phirarec(data),
{
    if data.len() >= 8 {
        let head = data.subrange(0, 8);
        if starts_with_phirarec(data) {
            assert(head =~= seq![0x50u8, 0x48u8, 0x49u8, 0x52u8, 0x41u8, 0x52u8, 0x45u8, 0x43u8]);
        }
        if has_magic(data) {
            assert(head[0] == data[0] && head[1] == data[1] && head[2] == data[2] && head[3]
                == data[3]);
            assert(head[4] == data[4] && head[5] == data[5] && head[6] == data[6] && head[7]
                == data[7]);
        }
    }
}

/// A file of at least a header's length that does not begin with `PHIRAREC` is reported as
/// lacking the magic.
pub proof fn lemma_other_files_lack_the_magic(data: Seq<u8>)
    requires
        data.len() >= 13,
        !starts_with_phirarec(data),
    ensures
        format_of(data, payload_decodes(data)) == FormatDetection::BadMagic,
        record_spec(data) == Err::<RecordModel, RecordError>(RecordError::BadMagic),
{
    lemma_magic_is_all_eight_bytes(data);
}

/// Decompression hands back everything the decoder yields, whatever its length, and fails
/// exactly where the decoder fails; a byte that names no decoder is reported with its value.
pub proof fn lemma_decompression_is_the_decoder_output(c: u8, payload: Seq<u8>)
    ensures
        decoder_output(c, payload) matches Some(bytes) ==> decompress_spec(c, payload) == Ok::<
            Seq<u8>,
            RecordError,
        >(bytes),
        decoder_output(c, payload) is None ==> decompress_spec(c, payload) is Err,
        c > 2 ==> decompress_spec(c, payload) == Err::<Seq<u8>, RecordError>(
            RecordError::UnsupportedCompression(c),
        ),
{
}

/// A file with the magic and a compression byte of at most 2 whose whole payload (every byte
/// after the 13-byte header) decodes under that byte is a tphira-mp file with that
/// compression; it reads exactly when the decoded payload reads, to that payload's record
/// with the header's compression byte.
pub proof fn lemma_decodable_payload_is_tphira(data: Seq<u8>)
    requires
        data.len() >= 13,
        starts_with_phirarec(data),
        data[12] <= 2,
        decoder_output(data[12], data.subrange(13, data.len() as int)) is Some,
    ensures
        format_of(data, payload_decodes(data)) == (FormatDetection::TphiraMp {
            compression: data[12],
        }),
        ({
            let decoded = decoder_output(data[12], data.subrange(13, data.len() as int))->Some_0;
            match content_spec(decoded) {
                Ok(m) => record_spec(data) == Ok::<RecordModel, RecordError>(
                    RecordModel { compression: data[12], ..m },
                ),
                Err(e) => record_spec(data) == Err::<RecordModel, RecordError>(e),
            }
        }),
{
    lemma_magic_is_all_eight_bytes(data);
    lemma_decompression_is_the_decoder_output(data[12], data.subrange(13, data.len() as int));
}

/// Fewer bytes than the 13-byte header are reported as too small, whatever they are.
pub proof fn lemma_short_files_are_too_small(data: Seq<u8>)
    requires
        data.len() < 13,
    ensures
        format_of(data, payload_decodes(data)) == FormatDetection::TooSmall,
        record_spec(data) == Err::<RecordModel, RecordError>(RecordError::TooSmall),
{
}

/// A file with the magic whose payload does not decode under its byte 12 (or whose byte 12
/// names no decoder) is a Phira client recording exactly when it has at least 26 bytes,
/// byte 12 is 1, and one of the four bytes 22..26 is not zero; such a file is reported as
/// encrypted and any other as of unknown format.
pub proof fn lemma_undecodable_files(data: Seq<u8>)
    requires
        data.len() >= 13,
        starts_with_phirarec(data),
        decoder_output(data[12], data.subrange(13, data.len() as int)) is None,
    ensures
        ({
            let client = data.len() >= 26 && data[12] == 1 && (data[22] != 0 || data[23] != 0
                || data[24] != 0 || data[25] != 0);
            &&& client ==> format_of(data, payload_decodes(data))
                == FormatDetection::PhiraClientEncrypted
            &&& client ==> record_spec(data) == Err::<RecordModel, RecordError>(
                RecordError::Encrypted,
            )
            &&& !client ==> format_of(data, payload_decodes(data)) == FormatDetection::Unknown
            &&& !client ==> record_spec(data) == Err::<RecordModel, RecordError>(
                RecordError::UnknownFormat,
            )
        }),
{
    lemma_magic_is_all_eight_bytes(data);
    lemma_decompression_is_the_decoder_output(data[12], data.subrange(13, data.len() as int));
    if data.len() >= 26 {
        let r = data.subrange(22, 26);
        reveal_with_fuel(le_value, 5);
        assert(r[0] == data[22] && r[1] == data[23] && r[2] == data[24] && r[3] == data[25]);
        assert(r.drop_first().drop_first().drop_first().drop_first().len() == 0);
    }
}

} // verus!
