use vstd::prelude::*;
use crate::bytes::{
    i32_spec, i64_spec, i8_spec, u16_spec, u8_spec, f32_bits_spec, uleb_spec, string_spec,
    read_i8, read_u8, read_u16, read_f32_bits, read_i32, read_i64, read_uleb, read_string,
};
use crate::error::RecordError;
use crate::model::{
    TouchPoint, TouchFrame, JudgeEvent, PhiraRecord, FrameModel, RecordModel, frames_view,
};

verus! {

// ---------------------------------------------------------------------------
// What reading the decompressed payload yields
// ---------------------------------------------------------------------------

/// A touch point: an `i8` id, then the `u16` half-precision bits of x and of y.
pub open spec fn point_spec(data: Seq<u8>, pos: int) -> Result<(TouchPoint, int), RecordError> {
    match i8_spec(data, pos) {
        Err(e) => Err(e),
        Ok((id, p1)) => match u16_spec(data, p1) {
            Err(e) => Err(e),
            Ok((x_bits, p2)) => match u16_spec(data, p2) {
                Err(e) => Err(e),
                Ok((y_bits, p3)) => Ok((TouchPoint { id, x_bits, y_bits }, p3)),
            },
        },
    }
}

/// `n` touch points one after another.
pub open spec fn points_spec(data: Seq<u8>, pos: int, n: nat) -> Result<
    (Seq<TouchPoint>, int),
    RecordError,
>
    decreases n,
{
    if n == 0 {
        Ok((Seq::empty(), pos))
    } else {
        match points_spec(data, pos, (n - 1) as nat) {
            Err(e) => Err(e),
            Ok((points, p)) => match point_spec(data, p) {
                Err(e) => Err(e),
                Ok((point, q)) => Ok((points.push(point), q)),
            },
        }
    }
}

/// A touch frame: the `f32` bits of its time, an unsigned LEB128 count, and that many points.
pub open spec fn frame_spec(data: Seq<u8>, pos: int) -> Result<(FrameModel, int), RecordError> {
    match f32_bits_spec(data, pos) {
        Err(e) => Err(e),
        Ok((time_bits, p1)) => match uleb_spec(data, p1) {
            Err(e) => Err(e),
            Ok((count, p2)) => match points_spec(data, p2, count as nat) {
                Err(e) => Err(e),
                Ok((points, p3)) => Ok((FrameModel { time_bits, points }, p3)),
            },
        },
    }
}

/// `n` touch frames one after another.
pub open spec fn frames_spec(data: Seq<u8>, pos: int, n: nat) -> Result<
    (Seq<FrameModel>, int),
    RecordError,
>
    decreases n,
{
    if n == 0 {
        Ok((Seq::empty(), pos))
    } else {
        match frames_spec(data, pos, (n - 1) as nat) {
            Err(e) => Err(e),
            Ok((frames, p)) => match frame_spec(data, p) {
                Err(e) => Err(e),
                Ok((frame, q)) => Ok((frames.push(frame), q)),
            },
        }
    }
}

/// The touch section: an unsigned LEB128 count, then that many frames.
pub open spec fn touch_frames_spec(data: Seq<u8>, pos: int) -> Result<
    (Seq<FrameModel>, int),
    RecordError,
> {
    match uleb_spec(data, pos) {
        Err(e) => Err(e),
        Ok((count, p)) => frames_spec(data, p, count as nat),
    }
}

/// A judge event: the `f32` bits of its time, `i32` line id, `i32` note id, `u8` judgement.
pub open spec fn judge_spec(data: Seq<u8>, pos: int) -> Result<(JudgeEvent, int), RecordError> {
    match f32_bits_spec(data, pos) {
        Err(e) => Err(e),
        Ok((time_bits, p1)) => match i32_spec(data, p1) {
            Err(e) => Err(e),
            Ok((line_id, p2)) => match i32_spec(data, p2) {
                Err(e) => Err(e),
                Ok((note_id, p3)) => match u8_spec(data, p3) {
                    Err(e) => Err(e),
                    Ok((judgement, p4)) => Ok(
                        (JudgeEvent { time_bits, line_id, note_id, judgement }, p4),
                    ),
                },
            },
        },
    }
}

/// `n` judge events one after another.
pub open spec fn judges_spec(data: Seq<u8>, pos: int, n: nat) -> Result<
    (Seq<JudgeEvent>, int),
    RecordError,
>
    decreases n,
{
    if n == 0 {
        Ok((Seq::empty(), pos))
    } else {
        match judges_spec(data, pos, (n - 1) as nat) {
            Err(e) => Err(e),
            Ok((events, p)) => match judge_spec(data, p) {
                Err(e) => Err(e),
                Ok((event, q)) => Ok((events.push(event), q)),
            },
        }
    }
}

/// The judge section: an unsigned LEB128 count, then that many events.
pub open spec fn judge_events_spec(data: Seq<u8>, pos: int) -> Result<
    (Seq<JudgeEvent>, int),
    RecordError,
> {
    match uleb_spec(data, pos) {
        Err(e) => Err(e),
        Ok((count, p)) => judges_spec(data, p, count as nat),
    }
}

/// Reading the decompressed payload: record id (`i32`), timestamp in ms (`i64`), chart id
/// (`i32`), chart name, user id (`i32`), user name, touch section, judge section; the record
/// and the position right after the judge section. Version and compression are not in the
/// payload: the record says version 1 and Zstandard, for the caller to correct.
pub open spec fn content_read(data: Seq<u8>) -> Result<(RecordModel, int), RecordError> {
    match i32_spec(data, 0) {
        Err(e) => Err(e),
        Ok((record_id, p1)) => match i64_spec(data, p1) {
            Err(e) => Err(e),
            Ok((timestamp_ms, p2)) => match i32_spec(data, p2) {
                Err(e) => Err(e),
                Ok((chart_id, p3)) => match string_spec(data, p3) {
                    Err(e) => Err(e),
                    Ok((chart_name, p4)) => match i32_spec(data, p4) {
                        Err(e) => Err(e),
                        Ok((user_id, p5)) => match string_spec(data, p5) {
                            Err(e) => Err(e),
                            Ok((user_name, p6)) => match touch_frames_spec(data, p6) {
                                Err(e) => Err(e),
                                Ok((touches, p7)) => match judge_events_spec(data, p7) {
                                    Err(e) => Err(e),
                                    Ok((judges, p8)) => Ok(
                                        (RecordModel {
                                            version: 1,
                                            compression: 1,
                                            record_id,
                                            timestamp_ms,
                                            chart_id,
                                            chart_name,
                                            user_id,
                                            user_name,
                                            touches,
                                            judges,
                                        }, p8),
                                    ),
                                },
                            },
                        },
                    },
                },
            },
        },
    }
}

/// The record that the decompressed payload reads to. Anything after the judge section is
/// not read.
pub open spec fn content_spec(data: Seq<u8>) -> Result<RecordModel, RecordError> {
    match content_read(data) {
        Ok((model, _)) => Ok(model),
        Err(e) => Err(e),
    }
}

// ---------------------------------------------------------------------------
// Failures carry through the rest of a list
// ---------------------------------------------------------------------------

proof fn lemma_points_error_stays(data: Seq<u8>, pos: int, n: nat, m: nat)
    requires
        n <= m,
        points_spec(data, pos, n) is Err,
    ensures
        points_spec(data, pos, m) == points_spec(data, pos, n),
    decreases m,
{
    if m > n {
        lemma_points_error_stays(data, pos, n, (m - 1) as nat);
    }
}

proof fn lemma_frames_error_stays(data: Seq<u8>, pos: int, n: nat, m: nat)
    requires
        n <= m,
        frames_spec(data, pos, n) is Err,
    ensures
        frames_spec(data, pos, m) == frames_spec(data, pos, n),
    decreases m,
{
    if m > n {
        lemma_frames_error_stays(data, pos, n, (m - 1) as nat);
    }
}

proof fn lemma_judges_error_stays(data: Seq<u8>, pos: int, n: nat, m: nat)
    requires
        n <= m,
        judges_spec(data, pos, n) is Err,
    ensures
        judges_spec(data, pos, m) == judges_spec(data, pos, n),
    decreases m,
{
    if m > n {
        lemma_judges_error_stays(data, pos, n, (m - 1) as nat);
    }
}


// ---------------------------------------------------------------------------
// Reading the decompressed payload
// ---------------------------------------------------------------------------

/// Reads one touch point.
fn read_point(data: &[u8], pos: &mut usize) -> (r: Result<TouchPoint, RecordError>)
    requires
        *old(pos) <= data.len(),
    ensures
        match point_spec(data@, *old(pos) as int) {
            Ok((point, end)) => r == Ok::<TouchPoint, RecordError>(point) && *final(pos) == end,
            Err(e) => r == Err::<TouchPoint, RecordError>(e),
        },
        r is Ok ==> *final(pos) <= data.len(),
{
    let id = read_i8(data, pos)?;
    let x_bits = read_u16(data, pos)?;
    let y_bits = read_u16(data, pos)?;
    Ok(TouchPoint { id, x_bits, y_bits })
}

/// Reads `count` touch points.
fn read_points(data: &[u8], pos: &mut usize, count: u64) -> (r: Result<
    Vec<TouchPoint>,
    RecordError,
>)
    requires
        *old(pos) <= data.len(),
    ensures
        match points_spec(data@, *old(pos) as int, count as nat) {
            Ok((points, end)) => r matches Ok(v) && v@ == points && *final(pos) == end,
            Err(e) => r == Err::<Vec<TouchPoint>, RecordError>(e),
        },
        r is Ok ==> *final(pos) <= data.len(),
{
    let ghost start = *pos as int;
    let mut points: Vec<TouchPoint> = Vec::new();
    let mut i: u64 = 0;
    while i < count
        invariant
            start == *old(pos),
            i <= count,
            *pos <= data.len(),
            points_spec(data@, start, i as nat) == Ok::<(Seq<TouchPoint>, int), RecordError>(
                (points@, *pos as int),
            ),
        decreases count - i,
    {
        match read_point(data, pos) {
            Ok(point) => {
                points.push(point);
            },
            Err(e) => {
                proof {
                    lemma_points_error_stays(data@, start, (i + 1) as nat, count as nat);
                }
                return Err(e);
            },
        }
        i = i + 1;
    }
    Ok(points)
}

/// Reads one touch frame.
fn read_frame(data: &[u8], pos: &mut usize) -> (r: Result<TouchFrame, RecordError>)
    requires
        *old(pos) <= data.len(),
    ensures
        match frame_spec(data@, *old(pos) as int) {
            Ok((frame, end)) => r matches Ok(f) && f@ == frame && *final(pos) == end,
            Err(e) => r == Err::<TouchFrame, RecordError>(e),
        },
        r is Ok ==> *final(pos) <= data.len(),
{
    let time_bits = read_f32_bits(data, pos)?;
    let n_points = read_uleb(data, pos)?;
    let points = read_points(data, pos, n_points)?;
    Ok(TouchFrame { time_bits, points })
}

/// Reads the touch section: a count, then that many frames.
fn parse_touch_frames(data: &[u8], pos: &mut usize) -> (r: Result<Vec<TouchFrame>, RecordError>)
    ensures
        match touch_frames_spec(data@, *old(pos) as int) {
            Ok((frames, end)) => r matches Ok(v) && frames_view(v@) == frames && *final(pos)
                == end,
            Err(e) => r == Err::<Vec<TouchFrame>, RecordError>(e),
        },
        r is Ok ==> *final(pos) <= data.len(),
{
    let count = read_uleb(data, pos)?;
    let ghost start = *pos as int;
    let mut frames: Vec<TouchFrame> = Vec::new();
    let mut i: u64 = 0;
    assert(frames_view(frames@) =~= Seq::<FrameModel>::empty());
    while i < count
        invariant
            uleb_spec(data@, *old(pos) as int) == Ok::<(u64, int), RecordError>((count, start)),
            i <= count,
            *pos <= data.len(),
            frames_spec(data@, start, i as nat) == Ok::<(Seq<FrameModel>, int), RecordError>(
                (frames_view(frames@), *pos as int),
            ),
        decreases count - i,
    {
        match read_frame(data, pos) {
            Ok(frame) => {
                let ghost before = frames@;
                frames.push(frame);
                proof {
                    assert(frames_view(frames@) =~= frames_view(before).push(frame@));
                }
            },
            Err(e) => {
                proof {
                    lemma_frames_error_stays(data@, start, (i + 1) as nat, count as nat);
                }
                return Err(e);
            },
        }
        i = i + 1;
    }
    Ok(frames)
}

/// Reads one judge event.
fn read_judge(data: &[u8], pos: &mut usize) -> (r: Result<JudgeEvent, RecordError>)
    requires
        *old(pos) <= data.len(),
    ensures
        match judge_spec(data@, *old(pos) as int) {
            Ok((event, end)) => r == Ok::<JudgeEvent, RecordError>(event) && *final(pos) == end,
            Err(e) => r == Err::<JudgeEvent, RecordError>(e),
        },
        r is Ok ==> *final(pos) <= data.len(),
{
    let time_bits = read_f32_bits(data, pos)?;
    let line_id = read_i32(data, pos)?;
    let note_id = read_i32(data, pos)?;
    let judgement = read_u8(data, pos)?;
    Ok(JudgeEvent { time_bits, line_id, note_id, judgement })
}

/// Reads the judge section: a count, then that many events.
fn parse_judge_events(data: &[u8], pos: &mut usize) -> (r: Result<Vec<JudgeEvent>, RecordError>)
    ensures
        match judge_events_spec(data@, *old(pos) as int) {
            Ok((events, end)) => r matches Ok(v) && v@ == events && *final(pos) == end,
            Err(e) => r == Err::<Vec<JudgeEvent>, RecordError>(e),
        },
        r is Ok ==> *final(pos) <= data.len(),
{
    let count = read_uleb(data, pos)?;
    let ghost start = *pos as int;
    let mut events: Vec<JudgeEvent> = Vec::new();
    let mut i: u64 = 0;
    while i < count
        invariant
            uleb_spec(data@, *old(pos) as int) == Ok::<(u64, int), RecordError>((count, start)),
            i <= count,
            *pos <= data.len(),
            judges_spec(data@, start, i as nat) == Ok::<(Seq<JudgeEvent>, int), RecordError>(
                (events@, *pos as int),
            ),
        decreases count - i,
    {
        match read_judge(data, pos) {
            Ok(event) => {
                events.push(event);
            },
            Err(e) => {
                proof {
                    lemma_judges_error_stays(data@, start, (i + 1) as nat, count as nat);
                }
                return Err(e);
            },
        }
        i = i + 1;
    }
    Ok(events)
}

/// Parses a decompressed tphira-mp payload. The record it returns says version 1 and
/// compression 1 (Zstandard); the caller that knows the header sets the compression.
pub fn parse_tphira_content(data: &[u8]) -> (r: Result<PhiraRecord, RecordError>)
    ensures
        match content_spec(data@) {
            Ok(model) => r matches Ok(record) && record@ == model,
            Err(e) => r == Err::<PhiraRecord, RecordError>(e),
        },
{
    let mut pos: usize = 0;
    let record_id = read_i32(data, &mut pos)?;
    let timestamp_ms = read_i64(data, &mut pos)?;
    let chart_id = read_i32(data, &mut pos)?;
    let chart_name = read_string(data, &mut pos)?;
    let user_id = read_i32(data, &mut pos)?;
    let user_name = read_string(data, &mut pos)?;
    let touches = parse_touch_frames(data, &mut pos)?;
    let judges = parse_judge_events(data, &mut pos)?;
    Ok(
        PhiraRecord {
            version: 1,
            compression: 1,
            record_id,
            timestamp_ms,
            chart_id,
            chart_name,
            user_id,
            user_name,
            touches,
            judges,
        },
    )
}

} // verus!
