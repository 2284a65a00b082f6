use vstd::prelude::*;
use vstd::arithmetic::power2::pow2;
use crate::bytes::{
    uleb_extent, uleb_spec, uleb_digits, fixed_spec, string_spec, f32_bits_spec, i32_spec,
    i64_spec,
};
use crate::content::{
    content_spec, point_spec, points_spec, frame_spec, frames_spec, judge_spec, judges_spec,
    touch_frames_spec, judge_events_spec,
};
use crate::error::ValueKind;
use crate::error::RecordError;
use crate::format::{
    record_spec, format_of, payload_decodes, payload_of, has_magic, FormatDetection,
    HEADER_SIZE, COMPRESSION_NONE, COMPRESSION_DEFLATE,
};
use crate::model::RecordModel;

verus! {

// ---------------------------------------------------------------------------
// Unsigned LEB128
// ---------------------------------------------------------------------------

proof fn lemma_uleb_extent_shape(data: Seq<u8>, start: int, i: nat)
    requires
        0 <= start,
    ensures
        uleb_extent(data, start, i) matches Ok(n) ==> {
            &&& i < n <= 10
            &&& start + n <= data.len()
            &&& data[start + n - 1] < 0x80
            &&& forall|j: int| start + i <= j < start + n - 1 ==> data[j] >= 0x80
        },
    decreases 10 - i,
{
    if i < 10 && start + i < data.len() && data[start + i] >= 0x80 {
        lemma_uleb_extent_shape(data, start, i + 1);
    }
}

/// An unsigned LEB128 number that reads occupies one to ten bytes within the data: every
/// byte but its last carries the continuation bit, and its last does not.
pub proof fn lemma_uleb_shape(data: Seq<u8>, start: int)
    requires
        0 <= start,
    ensures
        uleb_spec(data, start) matches Ok((_, end)) ==> {
            &&& start < end <= start + 10
            &&& end <= data.len()
            &&& data[end - 1] < 0x80
            &&& forall|j: int| start <= j < end - 1 ==> data[j] >= 0x80
        },
{
    lemma_uleb_extent_shape(data, start, 0);
}

/// A byte without the continuation bit is an unsigned LEB128 number by itself, with its own
/// value.
pub proof fn lemma_uleb_single_byte(data: Seq<u8>, start: int)
    requires
        0 <= start < data.len(),
        data[start] < 0x80,
    ensures
        uleb_spec(data, start) == Ok::<(u64, int), RecordError>((data[start] as u64, start + 1)),
{
    let groups = data.subrange(start, start + 1);
    assert(groups.drop_last().len() == 0);
    assert(groups.last() == data[start]);
    vstd::arithmetic::power2::lemma2_to64();
    assert(uleb_digits(groups.drop_last()) == 0);
    assert(data[start] % 128 == data[start]);
    assert(pow2((7 * (groups.len() - 1)) as nat) == 1);
    vstd::arithmetic::mul::lemma_mul_basics((data[start] % 128) as int);
    assert(uleb_digits(groups) == data[start]);
}

// ---------------------------------------------------------------------------
// Whole files
// ---------------------------------------------------------------------------

/// Every file that parses passes the quick validity test: it is at least a header long and
/// starts with the `PHIRAREC` magic.
pub proof fn lemma_parsed_file_has_magic(data: Seq<u8>)
    requires
        record_spec(data) is Ok,
    ensures
        data.len() >= HEADER_SIZE,
        has_magic(data),
{
}

/// A parsed record says format version 1 and the compression byte of its header, which
/// names one of the three known algorithms.
pub proof fn lemma_parsed_header_fields(data: Seq<u8>)
    requires
        record_spec(data) is Ok,
    ensures
        record_spec(data)->Ok_0.version == 1,
        record_spec(data)->Ok_0.compression == data[12],
        data[12] <= COMPRESSION_DEFLATE,
{
}

/// A tphira-mp header with compression byte 0 is always recognised, and the record is
/// read straight from the bytes after the header.
pub proof fn lemma_stored_payload_read_directly(data: Seq<u8>)
    requires
        data.len() >= HEADER_SIZE,
        has_magic(data),
        data[12] == COMPRESSION_NONE,
    ensures
        format_of(data, payload_decodes(data)) == (FormatDetection::TphiraMp { compression: 0 }),
        record_spec(data) == match content_spec(payload_of(data)) {
            Ok(m) => Ok(RecordModel { compression: 0, ..m }),
            Err(e) => Err(e),
        },
{
}


// ---------------------------------------------------------------------------
// Errors
// ---------------------------------------------------------------------------

/// The errors that reading a payload can give: the data ends too soon, an LEB128 number
/// runs on too long, or a string is longer than the data left.
pub open spec fn is_payload_error(e: RecordError) -> bool {
    ||| e is UnexpectedEnd
    ||| e is UlebTooLarge
    ||| e is StringTooLong
}

proof fn lemma_uleb_extent_errors(data: Seq<u8>, start: int, i: nat)
    ensures
        uleb_extent(data, start, i) matches Err(e) ==> is_payload_error(e),
    decreases 10 - i,
{
    if i < 10 && start + i < data.len() && data[start + i] >= 0x80 {
        lemma_uleb_extent_errors(data, start, i + 1);
    }
}

proof fn lemma_points_errors(data: Seq<u8>, pos: int, n: nat)
    ensures
        points_spec(data, pos, n) matches Err(e) ==> is_payload_error(e),
    decreases n,
{
    if n > 0 {
        lemma_points_errors(data, pos, (n - 1) as nat);
    }
}

proof fn lemma_frame_errors(data: Seq<u8>, pos: int)
    ensures
        frame_spec(data, pos) matches Err(e) ==> is_payload_error(e),
{
    if let Ok((_, p1)) = f32_bits_spec(data, pos) {
        lemma_uleb_extent_errors(data, p1, 0);
        if let Ok((count, p2)) = uleb_spec(data, p1) {
            lemma_points_errors(data, p2, count as nat);
        }
    }
}

proof fn lemma_frames_errors(data: Seq<u8>, pos: int, n: nat)
    ensures
        frames_spec(data, pos, n) matches Err(e) ==> is_payload_error(e),
    decreases n,
{
    if n > 0 {
        lemma_frames_errors(data, pos, (n - 1) as nat);
        if let Ok((_, p)) = frames_spec(data, pos, (n - 1) as nat) {
            lemma_frame_errors(data, p);
        }
    }
}

proof fn lemma_judges_errors(data: Seq<u8>, pos: int, n: nat)
    ensures
        judges_spec(data, pos, n) matches Err(e) ==> is_payload_error(e),
    decreases n,
{
    if n > 0 {
        lemma_judges_errors(data, pos, (n - 1) as nat);
    }
}

/// Reading a payload fails only with a payload error.
pub proof fn lemma_content_errors(data: Seq<u8>)
    ensures
        content_spec(data) matches Err(e) ==> is_payload_error(e),
{
    if let Ok((_, p1)) = i32_spec(data, 0) {
        if let Ok((_, p2)) = i64_spec(data, p1) {
            if let Ok((_, p3)) = i32_spec(data, p2) {
                lemma_uleb_extent_errors(data, p3, 0);
                if let Ok((_, p4)) = string_spec(data, p3) {
                    if let Ok((_, p5)) = i32_spec(data, p4) {
                        lemma_uleb_extent_errors(data, p5, 0);
                        if let Ok((_, p6)) = string_spec(data, p5) {
                            lemma_uleb_extent_errors(data, p6, 0);
                            if let Ok((count, q)) = uleb_spec(data, p6) {
                                lemma_frames_errors(data, q, count as nat);
                            }
                            if let Ok((_, p7)) = touch_frames_spec(data, p6) {
                                lemma_uleb_extent_errors(data, p7, 0);
                                if let Ok((count, q)) = uleb_spec(data, p7) {
                                    lemma_judges_errors(data, q, count as nat);
                                }
                            }
                        }
                    }
                }
            }
        }
    }
}

/// A file that does not parse is reported by what its header is: too short, no magic, an
/// encrypted client file, or an unknown header each give their own error; a tphira-mp file
/// can fail only in reading its payload.
pub proof fn lemma_errors_report_the_header(data: Seq<u8>)
    requires
        record_spec(data) is Err,
    ensures
        ({
            let e = record_spec(data)->Err_0;
            let f = format_of(data, payload_decodes(data));
            &&& (e == RecordError::TooSmall) == (data.len() < HEADER_SIZE)
            &&& (e == RecordError::BadMagic) == (data.len() >= HEADER_SIZE && !has_magic(data))
            &&& (e == RecordError::Encrypted) == (f == FormatDetection::PhiraClientEncrypted)
            &&& (e == RecordError::UnknownFormat) == (f == FormatDetection::Unknown)
            &&& f is TphiraMp ==> is_payload_error(e)
        }),
{
    let f = format_of(data, payload_decodes(data));
    if f is TphiraMp {
        lemma_content_errors(payload_of_decoded(data));
    }
}

/// The decompressed payload of a file whose payload decodes.
spec fn payload_of_decoded(data: Seq<u8>) -> Seq<u8> {
    crate::format::decompress_spec(data[12], payload_of(data))->Ok_0
}


// ---------------------------------------------------------------------------
// Bytes after the judge section are never read
// ---------------------------------------------------------------------------

proof fn lemma_fixed_extends(data: Seq<u8>, extra: Seq<u8>, pos: int, width: nat, kind: ValueKind)
    requires
        0 <= pos,
        fixed_spec(data, pos, width, kind) is Ok,
    ensures
        fixed_spec(data + extra, pos, width, kind) == fixed_spec(data, pos, width, kind),
        pos <= fixed_spec(data, pos, width, kind)->Ok_0.1 <= data.len(),
{
    assert((data + extra).subrange(pos, pos + width) =~= data.subrange(pos, pos + width));
}

proof fn lemma_uleb_extent_extends(data: Seq<u8>, extra: Seq<u8>, start: int, i: nat)
    requires
        0 <= start,
        uleb_extent(data, start, i) is Ok,
    ensures
        uleb_extent(data + extra, start, i) == uleb_extent(data, start, i),
    decreases 10 - i,
{
    if i < 10 && start + i < data.len() {
        assert((data + extra)[start + i] == data[start + i]);
        if data[start + i] >= 0x80 {
            lemma_uleb_extent_extends(data, extra, start, i + 1);
        }
    }
}

proof fn lemma_uleb_extends(data: Seq<u8>, extra: Seq<u8>, start: int)
    requires
        0 <= start,
        uleb_spec(data, start) is Ok,
    ensures
        uleb_spec(data + extra, start) == uleb_spec(data, start),
        start <= uleb_spec(data, start)->Ok_0.1 <= data.len(),
{
    lemma_uleb_extent_extends(data, extra, start, 0);
    lemma_uleb_shape(data, start);
    let end = uleb_spec(data, start)->Ok_0.1;
    assert((data + extra).subrange(start, end) =~= data.subrange(start, end));
}

proof fn lemma_string_extends(data: Seq<u8>, extra: Seq<u8>, pos: int)
    requires
        0 <= pos,
        string_spec(data, pos) is Ok,
    ensures
        string_spec(data + extra, pos) == string_spec(data, pos),
        pos <= string_spec(data, pos)->Ok_0.1 <= data.len(),
{
    lemma_uleb_extends(data, extra, pos);
    let (len, start) = uleb_spec(data, pos)->Ok_0;
    assert((data + extra).subrange(start, start + len) =~= data.subrange(start, start + len));
}

proof fn lemma_point_extends(data: Seq<u8>, extra: Seq<u8>, pos: int)
    requires
        0 <= pos,
        point_spec(data, pos) is Ok,
    ensures
        point_spec(data + extra, pos) == point_spec(data, pos),
        pos <= point_spec(data, pos)->Ok_0.1 <= data.len(),
{
    lemma_fixed_extends(data, extra, pos, 1, ValueKind::I8);
    let p1 = pos + 1;
    lemma_fixed_extends(data, extra, p1, 2, ValueKind::U16);
    lemma_fixed_extends(data, extra, p1 + 2, 2, ValueKind::U16);
}

proof fn lemma_points_extends(data: Seq<u8>, extra: Seq<u8>, pos: int, n: nat)
    requires
        0 <= pos <= data.len(),
        points_spec(data, pos, n) is Ok,
    ensures
        points_spec(data + extra, pos, n) == points_spec(data, pos, n),
        pos <= points_spec(data, pos, n)->Ok_0.1 <= data.len(),
    decreases n,
{
    if n > 0 {
        lemma_points_extends(data, extra, pos, (n - 1) as nat);
        let p = points_spec(data, pos, (n - 1) as nat)->Ok_0.1;
        lemma_point_extends(data, extra, p);
    }
}


proof fn lemma_frame_extends(data: Seq<u8>, extra: Seq<u8>, pos: int)
    requires
        0 <= pos,
        frame_spec(data, pos) is Ok,
    ensures
        frame_spec(data + extra, pos) == frame_spec(data, pos),
        pos <= frame_spec(data, pos)->Ok_0.1 <= data.len(),
{
    lemma_fixed_extends(data, extra, pos, 4, ValueKind::F32);
    let p1 = pos + 4;
    lemma_uleb_extends(data, extra, p1);
    let (count, p2) = uleb_spec(data, p1)->Ok_0;
    lemma_points_extends(data, extra, p2, count as nat);
}

proof fn lemma_frames_extends(data: Seq<u8>, extra: Seq<u8>, pos: int, n: nat)
    requires
        0 <= pos <= data.len(),
        frames_spec(data, pos, n) is Ok,
    ensures
        frames_spec(data + extra, pos, n) == frames_spec(data, pos, n),
        pos <= frames_spec(data, pos, n)->Ok_0.1 <= data.len(),
    decreases n,
{
    if n > 0 {
        lemma_frames_extends(data, extra, pos, (n - 1) as nat);
        let p = frames_spec(data, pos, (n - 1) as nat)->Ok_0.1;
        lemma_frame_extends(data, extra, p);
    }
}

proof fn lemma_judge_extends(data: Seq<u8>, extra: Seq<u8>, pos: int)
    requires
        0 <= pos,
        judge_spec(data, pos) is Ok,
    ensures
        judge_spec(data + extra, pos) == judge_spec(data, pos),
        pos <= judge_spec(data, pos)->Ok_0.1 <= data.len(),
{
    lemma_fixed_extends(data, extra, pos, 4, ValueKind::F32);
    lemma_fixed_extends(data, extra, pos + 4, 4, ValueKind::I32);
    lemma_fixed_extends(data, extra, pos + 8, 4, ValueKind::I32);
    lemma_fixed_extends(data, extra, pos + 12, 1, ValueKind::U8);
}

proof fn lemma_judges_extends(data: Seq<u8>, extra: Seq<u8>, pos: int, n: nat)
    requires
        0 <= pos <= data.len(),
        judges_spec(data, pos, n) is Ok,
    ensures
        judges_spec(data + extra, pos, n) == judges_spec(data, pos, n),
        pos <= judges_spec(data, pos, n)->Ok_0.1 <= data.len(),
    decreases n,
{
    if n > 0 {
        lemma_judges_extends(data, extra, pos, (n - 1) as nat);
        let p = judges_spec(data, pos, (n - 1) as nat)->Ok_0.1;
        lemma_judge_extends(data, extra, p);
    }
}

/// Reading a payload stops after the judge section: bytes appended after a payload that
/// reads do not change what it reads to.
pub proof fn lemma_trailing_bytes_ignored(data: Seq<u8>, extra: Seq<u8>)
    requires
        content_spec(data) is Ok,
    ensures
        content_spec(data + extra) == content_spec(data),
{
    lemma_fixed_extends(data, extra, 0, 4, ValueKind::I32);
    lemma_fixed_extends(data, extra, 4, 8, ValueKind::I64);
    lemma_fixed_extends(data, extra, 12, 4, ValueKind::I32);
    lemma_string_extends(data, extra, 16);
    let p4 = string_spec(data, 16)->Ok_0.1;
    lemma_fixed_extends(data, extra, p4, 4, ValueKind::I32);
    lemma_string_extends(data, extra, p4 + 4);
    let p6 = string_spec(data, p4 + 4)->Ok_0.1;
    lemma_uleb_extends(data, extra, p6);
    let (frame_count, q6) = uleb_spec(data, p6)->Ok_0;
    lemma_frames_extends(data, extra, q6, frame_count as nat);
    let p7 = touch_frames_spec(data, p6)->Ok_0.1;
    lemma_uleb_extends(data, extra, p7);
    let (judge_count, q7) = uleb_spec(data, p7)->Ok_0;
    lemma_judges_extends(data, extra, q7, judge_count as nat);
}


// ---------------------------------------------------------------------------
// Counts
// ---------------------------------------------------------------------------

proof fn lemma_points_count(data: Seq<u8>, pos: int, n: nat)
    ensures
        points_spec(data, pos, n) matches Ok((points, _)) ==> points.len() == n,
    decreases n,
{
    if n > 0 {
        lemma_points_count(data, pos, (n - 1) as nat);
    }
}

proof fn lemma_frames_count(data: Seq<u8>, pos: int, n: nat)
    ensures
        frames_spec(data, pos, n) matches Ok((frames, _)) ==> frames.len() == n,
    decreases n,
{
    if n > 0 {
        lemma_frames_count(data, pos, (n - 1) as nat);
    }
}

proof fn lemma_judges_count(data: Seq<u8>, pos: int, n: nat)
    ensures
        judges_spec(data, pos, n) matches Ok((events, _)) ==> events.len() == n,
    decreases n,
{
    if n > 0 {
        lemma_judges_count(data, pos, (n - 1) as nat);
    }
}

/// Each list holds exactly as many items as the LEB128 count before it says: the touch
/// section, the judge section, and the points of a frame.
pub proof fn lemma_lists_hold_their_counts(data: Seq<u8>, pos: int)
    ensures
        touch_frames_spec(data, pos) matches Ok((frames, _)) ==> frames.len() == uleb_spec(
            data,
            pos,
        )->Ok_0.0,
        judge_events_spec(data, pos) matches Ok((events, _)) ==> events.len() == uleb_spec(
            data,
            pos,
        )->Ok_0.0,
        frame_spec(data, pos) matches Ok((frame, _)) ==> frame.points.len() == uleb_spec(
            data,
            pos + 4,
        )->Ok_0.0,
{
    if let Ok((count, p)) = uleb_spec(data, pos) {
        lemma_frames_count(data, p, count as nat);
        lemma_judges_count(data, p, count as nat);
    }
    if let Ok((count, p)) = uleb_spec(data, pos + 4) {
        lemma_points_count(data, p, count as nat);
    }
}

} // verus!
