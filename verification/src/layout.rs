use vstd::prelude::*;
use crate::bytes::utf8_lossy;
use crate::content::{
    point_spec, points_spec, frame_spec, frames_spec, judge_spec, judges_spec, touch_frames_spec,
    judge_events_spec, content_read,
};
use crate::error::RecordError;
use crate::model::{TouchPoint, JudgeEvent, FrameModel, RecordModel};
use crate::readback::{
    le_bytes, twos_complement, lemma_u8_reads_back, lemma_i8_reads_back, lemma_u16_reads_back,
    lemma_f32_bits_read_back, lemma_i32_reads_back, lemma_i64_reads_back, lemma_string_reads_back,
    lemma_le_bytes_len,
};
use crate::format::record_spec;
use crate::format_laws::lemma_decodable_payload_is_tphira;
use crate::roundtrip::{uleb_encoding, lemma_uleb_encoding_reads_back};

verus! {

// The payload layout written out: the bytes that a writer of a tphira-mp payload puts down
// for each value, built from little-endian numbers and shortest LEB128 counts.

/// Whether a count fits in the `u64` that LEB128 counts are read into.
pub open spec fn fits_u64(n: nat) -> bool {
    n < 0x1_0000_0000_0000_0000
}

/// A touch point: id (`i8`), x bits, y bits (`u16` each).
pub open spec fn point_bytes(p: TouchPoint) -> Seq<u8> {
    le_bytes(twos_complement(p.id as int, 1), 1) + le_bytes(p.x_bits as nat, 2) + le_bytes(
        p.y_bits as nat,
        2,
    )
}

/// Touch points one after another.
pub open spec fn points_bytes(points: Seq<TouchPoint>) -> Seq<u8>
    decreases points.len(),
{
    if points.len() == 0 {
        Seq::empty()
    } else {
        points_bytes(points.drop_last()) + point_bytes(points.last())
    }
}

/// A touch frame: time bits (`u32`), the number of points, the points.
pub open spec fn frame_bytes(f: FrameModel) -> Seq<u8> {
    le_bytes(f.time_bits as nat, 4) + uleb_encoding(f.points.len()) + points_bytes(f.points)
}

/// Touch frames one after another.
pub open spec fn frames_bytes(frames: Seq<FrameModel>) -> Seq<u8>
    decreases frames.len(),
{
    if frames.len() == 0 {
        Seq::empty()
    } else {
        frames_bytes(frames.drop_last()) + frame_bytes(frames.last())
    }
}

/// A judge event: time bits (`u32`), line id and note id (`i32` each), judgement (`u8`).
pub open spec fn judge_bytes(e: JudgeEvent) -> Seq<u8> {
    le_bytes(e.time_bits as nat, 4) + le_bytes(twos_complement(e.line_id as int, 4), 4)
        + le_bytes(twos_complement(e.note_id as int, 4), 4) + le_bytes(e.judgement as nat, 1)
}

/// Judge events one after another.
pub open spec fn judges_bytes(events: Seq<JudgeEvent>) -> Seq<u8>
    decreases events.len(),
{
    if events.len() == 0 {
        Seq::empty()
    } else {
        judges_bytes(events.drop_last()) + judge_bytes(events.last())
    }
}

/// A string field: its byte count, then its bytes.
pub open spec fn string_field(bytes: Seq<u8>) -> Seq<u8> {
    uleb_encoding(bytes.len()) + bytes
}

/// A whole payload: record id, timestamp, chart id, chart name, user id, user name, the
/// touch section (count, frames) and the judge section (count, events).
pub open spec fn payload_bytes(
    record_id: i32,
    timestamp_ms: i64,
    chart_id: i32,
    chart_name: Seq<u8>,
    user_id: i32,
    user_name: Seq<u8>,
    touches: Seq<FrameModel>,
    judges: Seq<JudgeEvent>,
) -> Seq<u8> {
    le_bytes(twos_complement(record_id as int, 4), 4) + le_bytes(
        twos_complement(timestamp_ms as int, 8),
        8,
    ) + le_bytes(twos_complement(chart_id as int, 4), 4) + string_field(chart_name) + le_bytes(
        twos_complement(user_id as int, 4),
        4,
    ) + string_field(user_name) + uleb_encoding(touches.len()) + frames_bytes(touches)
        + uleb_encoding(judges.len()) + judges_bytes(judges)
}

proof fn lemma_point_layout(p: TouchPoint, before: Seq<u8>, rest: Seq<u8>)
    ensures
        point_spec(before + point_bytes(p) + rest, before.len() as int) == Ok::<
            (TouchPoint, int),
            RecordError,
        >((p, before.len() + point_bytes(p).len() as int)),
        point_bytes(p).len() == 5,
{
    let a = le_bytes(twos_complement(p.id as int, 1), 1);
    let b = le_bytes(p.x_bits as nat, 2);
    let c = le_bytes(p.y_bits as nat, 2);
    let data = before + point_bytes(p) + rest;
    lemma_le_bytes_len(twos_complement(p.id as int, 1), 1);
    lemma_le_bytes_len(p.x_bits as nat, 2);
    lemma_le_bytes_len(p.y_bits as nat, 2);
    lemma_i8_reads_back(p.id, before, b + c + rest);
    assert(before + a + (b + c + rest) =~= data);
    lemma_u16_reads_back(p.x_bits, before + a, c + rest);
    assert(before + a + b + (c + rest) =~= data);
    lemma_u16_reads_back(p.y_bits, before + a + b, rest);
    assert(before + a + b + c + rest =~= data);
}

proof fn lemma_points_layout(points: Seq<TouchPoint>, before: Seq<u8>, rest: Seq<u8>)
    ensures
        points_spec(before + points_bytes(points) + rest, before.len() as int, points.len())
            == Ok::<(Seq<TouchPoint>, int), RecordError>(
            (points, before.len() + points_bytes(points).len() as int),
        ),
    decreases points.len(),
{
    if points.len() > 0 {
        let init = points.drop_last();
        let last = points.last();
        let data = before + points_bytes(points) + rest;
        lemma_points_layout(init, before, point_bytes(last) + rest);
        assert(before + points_bytes(init) + (point_bytes(last) + rest) =~= data);
        lemma_point_layout(last, before + points_bytes(init), rest);
        assert(before + points_bytes(init) + point_bytes(last) + rest =~= data);
        assert(init.push(last) =~= points);
    } else {
        assert(points =~= Seq::<TouchPoint>::empty());
    }
}

proof fn lemma_frame_layout(f: FrameModel, before: Seq<u8>, rest: Seq<u8>)
    requires
        fits_u64(f.points.len()),
    ensures
        frame_spec(before + frame_bytes(f) + rest, before.len() as int) == Ok::<
            (FrameModel, int),
            RecordError,
        >((f, before.len() + frame_bytes(f).len() as int)),
{
    let a = le_bytes(f.time_bits as nat, 4);
    let n = f.points.len() as u64;
    let b = uleb_encoding(f.points.len());
    let c = points_bytes(f.points);
    let data = before + frame_bytes(f) + rest;
    lemma_le_bytes_len(f.time_bits as nat, 4);
    lemma_f32_bits_read_back(f.time_bits, before, b + c + rest);
    assert(before + a + (b + c + rest) =~= data);
    lemma_uleb_encoding_reads_back(n, before + a, c + rest);
    assert(before + a + b + (c + rest) =~= data);
    lemma_points_layout(f.points, before + a + b, rest);
    assert(before + a + b + c + rest =~= data);
}

proof fn lemma_frames_layout(frames: Seq<FrameModel>, before: Seq<u8>, rest: Seq<u8>)
    requires
        forall|i: int| 0 <= i < frames.len() ==> fits_u64(#[trigger] frames[i].points.len()),
    ensures
        frames_spec(before + frames_bytes(frames) + rest, before.len() as int, frames.len())
            == Ok::<(Seq<FrameModel>, int), RecordError>(
            (frames, before.len() + frames_bytes(frames).len() as int),
        ),
    decreases frames.len(),
{
    if frames.len() > 0 {
        let init = frames.drop_last();
        let last = frames.last();
        let data = before + frames_bytes(frames) + rest;
        assert forall|i: int| 0 <= i < init.len() implies fits_u64(
            #[trigger] init[i].points.len(),
        ) by {
            assert(init[i] == frames[i]);
        }
        assert(fits_u64(frames[frames.len() - 1].points.len()));
        lemma_frames_layout(init, before, frame_bytes(last) + rest);
        assert(before + frames_bytes(init) + (frame_bytes(last) + rest) =~= data);
        lemma_frame_layout(last, before + frames_bytes(init), rest);
        assert(before + frames_bytes(init) + frame_bytes(last) + rest =~= data);
        assert(init.push(last) =~= frames);
    } else {
        assert(frames =~= Seq::<FrameModel>::empty());
    }
}

proof fn lemma_judge_layout(e: JudgeEvent, before: Seq<u8>, rest: Seq<u8>)
    ensures
        judge_spec(before + judge_bytes(e) + rest, before.len() as int) == Ok::<
            (JudgeEvent, int),
            RecordError,
        >((e, before.len() + judge_bytes(e).len() as int)),
{
    let a = le_bytes(e.time_bits as nat, 4);
    let b = le_bytes(twos_complement(e.line_id as int, 4), 4);
    let c = le_bytes(twos_complement(e.note_id as int, 4), 4);
    let d = le_bytes(e.judgement as nat, 1);
    let data = before + judge_bytes(e) + rest;
    lemma_le_bytes_len(e.time_bits as nat, 4);
    lemma_le_bytes_len(twos_complement(e.line_id as int, 4), 4);
    lemma_le_bytes_len(twos_complement(e.note_id as int, 4), 4);
    lemma_le_bytes_len(e.judgement as nat, 1);
    lemma_f32_bits_read_back(e.time_bits, before, b + c + d + rest);
    assert(before + a + (b + c + d + rest) =~= data);
    lemma_i32_reads_back(e.line_id, before + a, c + d + rest);
    assert(before + a + b + (c + d + rest) =~= data);
    lemma_i32_reads_back(e.note_id, before + a + b, d + rest);
    assert(before + a + b + c + (d + rest) =~= data);
    lemma_u8_reads_back(e.judgement, before + a + b + c, rest);
    assert(before + a + b + c + d + rest =~= data);
}

proof fn lemma_judges_layout(events: Seq<JudgeEvent>, before: Seq<u8>, rest: Seq<u8>)
    ensures
        judges_spec(before + judges_bytes(events) + rest, before.len() as int, events.len())
            == Ok::<(Seq<JudgeEvent>, int), RecordError>(
            (events, before.len() + judges_bytes(events).len() as int),
        ),
    decreases events.len(),
{
    if events.len() > 0 {
        let init = events.drop_last();
        let last = events.last();
        let data = before + judges_bytes(events) + rest;
        lemma_judges_layout(init, before, judge_bytes(last) + rest);
        assert(before + judges_bytes(init) + (judge_bytes(last) + rest) =~= data);
        lemma_judge_layout(last, before + judges_bytes(init), rest);
        assert(before + judges_bytes(init) + judge_bytes(last) + rest =~= data);
        assert(init.push(last) =~= events);
    } else {
        assert(events =~= Seq::<JudgeEvent>::empty());
    }
}

proof fn lemma_step_ints(record_id: i32, timestamp_ms: i64, chart_id: i32, f1: Seq<u8>, f2: Seq<u8>, f3: Seq<u8>, f4: Seq<u8>, f5: Seq<u8>, f6: Seq<u8>, f7: Seq<u8>, f8: Seq<u8>, rest: Seq<u8>)
    requires
        f1 == le_bytes(twos_complement(record_id as int, 4), 4),
        f2 == le_bytes(twos_complement(timestamp_ms as int, 8), 8),
        f3 == le_bytes(twos_complement(chart_id as int, 4), 4),
    ensures
        crate::bytes::i32_spec(f1 + f2 + f3 + f4 + f5 + f6 + f7 + f8 + rest, 0) == Ok::<(i32, int), RecordError>((record_id, 4)),
        crate::bytes::i64_spec(f1 + f2 + f3 + f4 + f5 + f6 + f7 + f8 + rest, 4) == Ok::<(i64, int), RecordError>((timestamp_ms, 12)),
        crate::bytes::i32_spec(f1 + f2 + f3 + f4 + f5 + f6 + f7 + f8 + rest, 12) == Ok::<(i32, int), RecordError>((chart_id, 16)),
{
    let data = f1 + f2 + f3 + f4 + f5 + f6 + f7 + f8 + rest;
    let empty = Seq::<u8>::empty();
    lemma_le_bytes_len(twos_complement(record_id as int, 4), 4);
    lemma_le_bytes_len(twos_complement(timestamp_ms as int, 8), 8);
    lemma_i32_reads_back(record_id, empty, f2 + f3 + f4 + f5 + f6 + f7 + f8 + rest);
    assert(empty + f1 + (f2 + f3 + f4 + f5 + f6 + f7 + f8 + rest) =~= data);
    lemma_i64_reads_back(timestamp_ms, f1, f3 + f4 + f5 + f6 + f7 + f8 + rest);
    assert(f1 + f2 + (f3 + f4 + f5 + f6 + f7 + f8 + rest) =~= data);
    lemma_i32_reads_back(chart_id, f1 + f2, f4 + f5 + f6 + f7 + f8 + rest);
    assert(f1 + f2 + f3 + (f4 + f5 + f6 + f7 + f8 + rest) =~= data);
}

proof fn lemma_step_chart_name(chart_name: Seq<u8>, f1: Seq<u8>, f2: Seq<u8>, f3: Seq<u8>, f4: Seq<u8>, f5: Seq<u8>, f6: Seq<u8>, f7: Seq<u8>, f8: Seq<u8>, rest: Seq<u8>)
    requires
        fits_u64(chart_name.len()),
        f4 == string_field(chart_name),
        f1.len() + f2.len() + f3.len() == 16,
    ensures
        crate::bytes::string_spec(f1 + f2 + f3 + f4 + f5 + f6 + f7 + f8 + rest, 16) == Ok::<(Seq<char>, int), RecordError>(
            (utf8_lossy(chart_name), (f1 + f2 + f3 + f4).len() as int),
        ),
{
    let data = f1 + f2 + f3 + f4 + f5 + f6 + f7 + f8 + rest;
    lemma_string_reads_back(chart_name, f1 + f2 + f3, f5 + f6 + f7 + f8 + rest);
    assert(f1 + f2 + f3 + uleb_encoding(chart_name.len()) + chart_name + (f5 + f6 + f7 + f8
        + rest) =~= data);
}

proof fn lemma_step_user(user_id: i32, user_name: Seq<u8>, f1: Seq<u8>, f2: Seq<u8>, f3: Seq<u8>, f4: Seq<u8>, f5: Seq<u8>, f6: Seq<u8>, f7: Seq<u8>, f8: Seq<u8>, rest: Seq<u8>)
    requires
        fits_u64(user_name.len()),
        f5 == le_bytes(twos_complement(user_id as int, 4), 4),
        f6 == string_field(user_name),
    ensures
        ({
            let p4 = (f1 + f2 + f3 + f4).len() as int;
            &&& crate::bytes::i32_spec(f1 + f2 + f3 + f4 + f5 + f6 + f7 + f8 + rest, p4) == Ok::<(i32, int), RecordError>(
                (user_id, p4 + 4),
            )
            &&& crate::bytes::string_spec(f1 + f2 + f3 + f4 + f5 + f6 + f7 + f8 + rest, p4 + 4) == Ok::<(Seq<char>, int), RecordError>(
                (utf8_lossy(user_name), (f1 + f2 + f3 + f4 + f5 + f6).len() as int),
            )
        }),
{
    let data = f1 + f2 + f3 + f4 + f5 + f6 + f7 + f8 + rest;
    lemma_le_bytes_len(twos_complement(user_id as int, 4), 4);
    lemma_i32_reads_back(user_id, f1 + f2 + f3 + f4, f6 + f7 + f8 + rest);
    assert(f1 + f2 + f3 + f4 + f5 + (f6 + f7 + f8 + rest) =~= data);
    lemma_string_reads_back(user_name, f1 + f2 + f3 + f4 + f5, f7 + f8 + rest);
    assert(f1 + f2 + f3 + f4 + f5 + uleb_encoding(user_name.len()) + user_name + (f7 + f8
        + rest) =~= data);
}

proof fn lemma_step_touches(touches: Seq<FrameModel>, f1: Seq<u8>, f2: Seq<u8>, f3: Seq<u8>, f4: Seq<u8>, f5: Seq<u8>, f6: Seq<u8>, f7: Seq<u8>, f8: Seq<u8>, rest: Seq<u8>)
    requires
        fits_u64(touches.len()),
        forall|i: int| 0 <= i < touches.len() ==> fits_u64(#[trigger] touches[i].points.len()),
        f7 == uleb_encoding(touches.len()) + frames_bytes(touches),
    ensures
        touch_frames_spec(f1 + f2 + f3 + f4 + f5 + f6 + f7 + f8 + rest, (f1 + f2 + f3 + f4 + f5 + f6).len() as int) == Ok::<
            (Seq<FrameModel>, int),
            RecordError,
        >((touches, (f1 + f2 + f3 + f4 + f5 + f6 + f7).len() as int)),
{
    let data = f1 + f2 + f3 + f4 + f5 + f6 + f7 + f8 + rest;
    let h = f1 + f2 + f3 + f4 + f5 + f6;
    let c = uleb_encoding(touches.len());
    lemma_uleb_encoding_reads_back(touches.len() as u64, h, frames_bytes(touches) + f8 + rest);
    assert(h + c + (frames_bytes(touches) + f8 + rest) =~= data);
    lemma_frames_layout(touches, h + c, f8 + rest);
    assert(h + c + frames_bytes(touches) + (f8 + rest) =~= data);
}

proof fn lemma_step_judges(judges: Seq<JudgeEvent>, f1: Seq<u8>, f2: Seq<u8>, f3: Seq<u8>, f4: Seq<u8>, f5: Seq<u8>, f6: Seq<u8>, f7: Seq<u8>, f8: Seq<u8>, rest: Seq<u8>)
    requires
        fits_u64(judges.len()),
        f8 == uleb_encoding(judges.len()) + judges_bytes(judges),
    ensures
        judge_events_spec(f1 + f2 + f3 + f4 + f5 + f6 + f7 + f8 + rest, (f1 + f2 + f3 + f4 + f5 + f6 + f7).len() as int) == Ok::<
            (Seq<JudgeEvent>, int),
            RecordError,
        >((judges, (f1 + f2 + f3 + f4 + f5 + f6 + f7 + f8).len() as int)),
{
    let data = f1 + f2 + f3 + f4 + f5 + f6 + f7 + f8 + rest;
    let h = f1 + f2 + f3 + f4 + f5 + f6 + f7;
    let c = uleb_encoding(judges.len());
    lemma_uleb_encoding_reads_back(judges.len() as u64, h, judges_bytes(judges) + rest);
    assert(h + c + (judges_bytes(judges) + rest) =~= data);
    lemma_judges_layout(judges, h + c, rest);
    assert(h + c + judges_bytes(judges) + rest =~= data);
}

proof fn lemma_content_from_fields(
    data: Seq<u8>,
    p4: int,
    p6: int,
    p7: int,
    end: int,
    m: RecordModel,
)
    requires
        m.version == 1,
        m.compression == 1,
        crate::bytes::i32_spec(data, 0) == Ok::<(i32, int), RecordError>((m.record_id, 4)),
        crate::bytes::i64_spec(data, 4) == Ok::<(i64, int), RecordError>((m.timestamp_ms, 12)),
        crate::bytes::i32_spec(data, 12) == Ok::<(i32, int), RecordError>((m.chart_id, 16)),
        crate::bytes::string_spec(data, 16) == Ok::<(Seq<char>, int), RecordError>(
            (m.chart_name, p4),
        ),
        crate::bytes::i32_spec(data, p4) == Ok::<(i32, int), RecordError>((m.user_id, p4 + 4)),
        crate::bytes::string_spec(data, p4 + 4) == Ok::<(Seq<char>, int), RecordError>(
            (m.user_name, p6),
        ),
        touch_frames_spec(data, p6) == Ok::<(Seq<FrameModel>, int), RecordError>(
            (m.touches, p7),
        ),
        judge_events_spec(data, p7) == Ok::<(Seq<JudgeEvent>, int), RecordError>(
            (m.judges, end),
        ),
    ensures
        content_read(data) == Ok::<(RecordModel, int), RecordError>((m, end)),
{
}

/// What a writer puts down is what a reader gets back: a payload laid out field by field
/// (little-endian numbers, shortest LEB128 counts, string bytes), followed by anything at
/// all, reads to the record with exactly those values, its names decoded from their bytes,
/// and the read ends where the layout ends.
pub proof fn lemma_payload_reads_back(
    record_id: i32,
    timestamp_ms: i64,
    chart_id: i32,
    chart_name: Seq<u8>,
    user_id: i32,
    user_name: Seq<u8>,
    touches: Seq<FrameModel>,
    judges: Seq<JudgeEvent>,
    rest: Seq<u8>,
)
    requires
        fits_u64(chart_name.len()),
        fits_u64(user_name.len()),
        fits_u64(touches.len()),
        forall|i: int| 0 <= i < touches.len() ==> fits_u64(#[trigger] touches[i].points.len()),
        fits_u64(judges.len()),
    ensures
        ({
            let payload = payload_bytes(
                record_id,
                timestamp_ms,
                chart_id,
                chart_name,
                user_id,
                user_name,
                touches,
                judges,
            );
            content_read(payload + rest) == Ok::<(RecordModel, int), RecordError>(
                (
                    RecordModel {
                        version: 1,
                        compression: 1,
                        record_id,
                        timestamp_ms,
                        chart_id,
                        chart_name: utf8_lossy(chart_name),
                        user_id,
                        user_name: utf8_lossy(user_name),
                        touches,
                        judges,
                    },
                    payload.len() as int,
                ),
            )
        }),
{
    let f1 = le_bytes(twos_complement(record_id as int, 4), 4);
    let f2 = le_bytes(twos_complement(timestamp_ms as int, 8), 8);
    let f3 = le_bytes(twos_complement(chart_id as int, 4), 4);
    let f4 = string_field(chart_name);
    let f5 = le_bytes(twos_complement(user_id as int, 4), 4);
    let f6 = string_field(user_name);
    let f7 = uleb_encoding(touches.len()) + frames_bytes(touches);
    let f8 = uleb_encoding(judges.len()) + judges_bytes(judges);
    let payload = payload_bytes(
        record_id,
        timestamp_ms,
        chart_id,
        chart_name,
        user_id,
        user_name,
        touches,
        judges,
    );
    let data = payload + rest;
    assert(payload =~= f1 + f2 + f3 + f4 + f5 + f6 + f7 + f8);
    assert(data =~= f1 + f2 + f3 + f4 + f5 + f6 + f7 + f8 + rest);
    lemma_le_bytes_len(twos_complement(record_id as int, 4), 4);
    lemma_le_bytes_len(twos_complement(timestamp_ms as int, 8), 8);
    lemma_le_bytes_len(twos_complement(chart_id as int, 4), 4);
    let p4 = (f1 + f2 + f3 + f4).len() as int;
    let p6 = (f1 + f2 + f3 + f4 + f5 + f6).len() as int;
    let p7 = (f1 + f2 + f3 + f4 + f5 + f6 + f7).len() as int;
    lemma_step_ints(record_id, timestamp_ms, chart_id, f1, f2, f3, f4, f5, f6, f7, f8, rest);
    lemma_step_chart_name(chart_name, f1, f2, f3, f4, f5, f6, f7, f8, rest);
    lemma_step_user(user_id, user_name, f1, f2, f3, f4, f5, f6, f7, f8, rest);
    lemma_step_touches(touches, f1, f2, f3, f4, f5, f6, f7, f8, rest);
    lemma_step_judges(judges, f1, f2, f3, f4, f5, f6, f7, f8, rest);
    let m = RecordModel {
        version: 1,
        compression: 1,
        record_id,
        timestamp_ms,
        chart_id,
        chart_name: utf8_lossy(chart_name),
        user_id,
        user_name: utf8_lossy(user_name),
        touches,
        judges,
    };
    lemma_content_from_fields(data, p4, p6, p7, payload.len() as int, m);
}

/// A whole stored file, written out: the `PHIRAREC` magic, any four version bytes, the
/// compression byte 0, and a payload laid out field by field, reads to the record with those
/// values and compression 0.
pub proof fn lemma_stored_file_reads_back(
    version: Seq<u8>,
    record_id: i32,
    timestamp_ms: i64,
    chart_id: i32,
    chart_name: Seq<u8>,
    user_id: i32,
    user_name: Seq<u8>,
    touches: Seq<FrameModel>,
    judges: Seq<JudgeEvent>,
)
    requires
        version.len() == 4,
        fits_u64(chart_name.len()),
        fits_u64(user_name.len()),
        fits_u64(touches.len()),
        forall|i: int| 0 <= i < touches.len() ==> fits_u64(#[trigger] touches[i].points.len()),
        fits_u64(judges.len()),
    ensures
        record_spec(
            seq![0x50u8, 0x48u8, 0x49u8, 0x52u8, 0x41u8, 0x52u8, 0x45u8, 0x43u8] + version + seq![
                0u8,
            ] + payload_bytes(
                record_id,
                timestamp_ms,
                chart_id,
                chart_name,
                user_id,
                user_name,
                touches,
                judges,
            ),
        ) == Ok::<RecordModel, RecordError>(
            RecordModel {
                version: 1,
                compression: 0,
                record_id,
                timestamp_ms,
                chart_id,
                chart_name: utf8_lossy(chart_name),
                user_id,
                user_name: utf8_lossy(user_name),
                touches,
                judges,
            },
        ),
{
    let payload = payload_bytes(
        record_id,
        timestamp_ms,
        chart_id,
        chart_name,
        user_id,
        user_name,
        touches,
        judges,
    );
    let head = seq![0x50u8, 0x48u8, 0x49u8, 0x52u8, 0x41u8, 0x52u8, 0x45u8, 0x43u8] + version
        + seq![0u8];
    let data = head + payload;
    assert(data.subrange(13, data.len() as int) =~= payload);
    assert(data[0] == 0x50 && data[1] == 0x48 && data[2] == 0x49 && data[3] == 0x52);
    assert(data[4] == 0x41 && data[5] == 0x52 && data[6] == 0x45 && data[7] == 0x43);
    assert(data[12] == 0);
    lemma_payload_reads_back(
        record_id,
        timestamp_ms,
        chart_id,
        chart_name,
        user_id,
        user_name,
        touches,
        judges,
        Seq::empty(),
    );
    assert(payload + Seq::<u8>::empty() =~= payload);
    lemma_decodable_payload_is_tphira(data);
}

} // verus!
