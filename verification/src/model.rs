use vstd::prelude::*;

verus! {

/// A single touch point within a frame. The coordinates are kept as the bit patterns of
/// IEEE-754 half-precision numbers, as the file stores them.
#[derive(Clone, Copy, Debug, PartialEq, Eq, Structural)]
pub struct TouchPoint {
    /// Finger / pointer id.
    pub id: i8,
    /// Normalised x position, as half-precision bits.
    pub x_bits: u16,
    /// Normalised y position, as half-precision bits.
    pub y_bits: u16,
}

/// One frame of recorded touch input.
#[derive(Clone, Debug)]
pub struct TouchFrame {
    /// Time in seconds since chart start, as single-precision bits.
    pub time_bits: u32,
    /// Active touch points in this frame.
    pub points: Vec<TouchPoint>,
}

/// A single judge (hit) event.
#[derive(Clone, Copy, Debug, PartialEq, Eq, Structural)]
pub struct JudgeEvent {
    /// Time in seconds since chart start, as single-precision bits.
    pub time_bits: u32,
    /// Line index (lane); signed for compatibility with old replay files.
    pub line_id: i32,
    /// Note identifier within the line; signed for compatibility.
    pub note_id: i32,
    /// Judgement code: 0=Perfect, 1=Good, 2=Bad, 3=Miss, 4=HoldPerfect, 5=HoldGood.
    pub judgement: u8,
}

/// A parsed tphira-mp record: header fields and replay data.
#[derive(Clone, Debug)]
pub struct PhiraRecord {
    /// Binary format version (always 1).
    pub version: u32,
    /// Compression algorithm used (0=none, 1=zstd, 2=deflate).
    pub compression: u8,
    /// Record id (from the Phira record system).
    pub record_id: i32,
    /// Unix timestamp in milliseconds when the recording started.
    pub timestamp_ms: i64,
    /// Chart identifier.
    pub chart_id: i32,
    /// Human-readable chart name.
    pub chart_name: String,
    /// User / account id.
    pub user_id: i32,
    /// User display name.
    pub user_name: String,
    /// Recorded touch frames (input replay).
    pub touches: Vec<TouchFrame>,
    /// Judge / hit events.
    pub judges: Vec<JudgeEvent>,
}

/// What a touch frame holds.
#[verifier::ext_equal]
pub struct FrameModel {
    pub time_bits: u32,
    pub points: Seq<TouchPoint>,
}

/// What a record holds.
#[verifier::ext_equal]
pub struct RecordModel {
    pub version: u32,
    pub compression: u8,
    pub record_id: i32,
    pub timestamp_ms: i64,
    pub chart_id: i32,
    pub chart_name: Seq<char>,
    pub user_id: i32,
    pub user_name: Seq<char>,
    pub touches: Seq<FrameModel>,
    pub judges: Seq<JudgeEvent>,
}

impl View for TouchFrame {
    type V = FrameModel;

    open spec fn view(&self) -> FrameModel {
        FrameModel { time_bits: self.time_bits, points: self.points@ }
    }
}

/// The models of a sequence of frames.
pub open spec fn frames_view(frames: Seq<TouchFrame>) -> Seq<FrameModel> {
    frames.map_values(|f: TouchFrame| f@)
}

impl View for PhiraRecord {
    type V = RecordModel;

    open spec fn view(&self) -> RecordModel {
        RecordModel {
            version: self.version,
            compression: self.compression,
            record_id: self.record_id,
            timestamp_ms: self.timestamp_ms,
            chart_id: self.chart_id,
            chart_name: self.chart_name@,
            user_id: self.user_id,
            user_name: self.user_name@,
            touches: frames_view(self.touches@),
            judges: self.judges@,
        }
    }
}

/// The model of a record holds each of its fields as it is: the same numbers, the texts of
/// its names, and its touch frames and judge events in the same order, frame by frame.
pub proof fn lemma_record_view_is_fieldwise(r: PhiraRecord)
    ensures
        r@.version == r.version,
        r@.compression == r.compression,
        r@.record_id == r.record_id,
        r@.timestamp_ms == r.timestamp_ms,
        r@.chart_id == r.chart_id,
        r@.chart_name == r.chart_name@,
        r@.user_id == r.user_id,
        r@.user_name == r.user_name@,
        r@.touches.len() == r.touches@.len(),
        forall|i: int| 0 <= i < r.touches@.len() ==> {
            &&& (#[trigger] r@.touches[i]).time_bits == r.touches@[i].time_bits
            &&& r@.touches[i].points == r.touches@[i].points@
        },
        r@.judges == r.judges@,
{
}

} // verus!
