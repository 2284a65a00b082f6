use vstd::prelude::*;
use crate::bytes::{fixed_spec, uleb_extent, uleb_spec, string_spec};
use crate::content::{
    point_spec, points_spec, frame_spec, frames_spec, judge_spec, judges_spec, touch_frames_spec,
    judge_events_spec, content_read, content_spec,
};
use crate::error::ValueKind;
use crate::laws::lemma_uleb_shape;

verus! {

// What a read of `data` at `pos` gives when the data is cut to its first `k` bytes: the same
// where the value ends by `k`, an error where it runs past `k`.

proof fn lemma_fixed_cut(data: Seq<u8>, pos: int, k: int, width: nat, kind: ValueKind)
    requires
        0 <= pos <= k <= data.len(),
        fixed_spec(data, pos, width, kind) is Ok,
    ensures
        ({
            let end = fixed_spec(data, pos, width, kind)->Ok_0.1;
            &&& pos <= end <= data.len()
            &&& end <= k ==> fixed_spec(data.take(k), pos, width, kind) == fixed_spec(
                data,
                pos,
                width,
                kind,
            )
            &&& end > k ==> fixed_spec(data.take(k), pos, width, kind) is Err
        }),
{
    if pos + width <= k {
        assert(data.take(k).subrange(pos, pos + width) =~= data.subrange(pos, pos + width));
    }
}

proof fn lemma_uleb_extent_cut(data: Seq<u8>, start: int, k: int, i: nat)
    requires
        0 <= start <= k <= data.len(),
        uleb_extent(data, start, i) is Ok,
    ensures
        ({
            let n = uleb_extent(data, start, i)->Ok_0;
            &&& i < n
            &&& start + n <= k ==> uleb_extent(data.take(k), start, i) == uleb_extent(
                data,
                start,
                i,
            )
            &&& start + n > k ==> uleb_extent(data.take(k), start, i) is Err
        }),
    decreases 10 - i,
{
    if start + i < k {
        assert(data.take(k)[start + i] == data[start + i]);
    }
    if i < 10 && start + i < data.len() && data[start + i] >= 0x80 {
        lemma_uleb_extent_cut(data, start, k, i + 1);
    }
}

proof fn lemma_uleb_cut(data: Seq<u8>, start: int, k: int)
    requires
        0 <= start <= k <= data.len(),
        uleb_spec(data, start) is Ok,
    ensures
        ({
            let end = uleb_spec(data, start)->Ok_0.1;
            &&& start <= end <= data.len()
            &&& end <= k ==> uleb_spec(data.take(k), start) == uleb_spec(data, start)
            &&& end > k ==> uleb_spec(data.take(k), start) is Err
        }),
{
    lemma_uleb_extent_cut(data, start, k, 0);
    lemma_uleb_shape(data, start);
    let end = uleb_spec(data, start)->Ok_0.1;
    if end <= k {
        assert(data.take(k).subrange(start, end) =~= data.subrange(start, end));
    }
}

proof fn lemma_string_cut(data: Seq<u8>, pos: int, k: int)
    requires
        0 <= pos <= k <= data.len(),
        string_spec(data, pos) is Ok,
    ensures
        ({
            let end = string_spec(data, pos)->Ok_0.1;
            &&& pos <= end <= data.len()
            &&& end <= k ==> string_spec(data.take(k), pos) == string_spec(data, pos)
            &&& end > k ==> string_spec(data.take(k), pos) is Err
        }),
{
    lemma_uleb_cut(data, pos, k);
    let (len, start) = uleb_spec(data, pos)->Ok_0;
    if start + len <= k {
        assert(data.take(k).subrange(start, start + len) =~= data.subrange(start, start + len));
    }
}

proof fn lemma_point_cut(data: Seq<u8>, pos: int, k: int)
    requires
        0 <= pos <= k <= data.len(),
        point_spec(data, pos) is Ok,
    ensures
        ({
            let end = point_spec(data, pos)->Ok_0.1;
            &&& pos <= end <= data.len()
            &&& end <= k ==> point_spec(data.take(k), pos) == point_spec(data, pos)
            &&& end > k ==> point_spec(data.take(k), pos) is Err
        }),
{
    lemma_fixed_cut(data, pos, k, 1, ValueKind::I8);
    if pos + 1 <= k {
        lemma_fixed_cut(data, pos + 1, k, 2, ValueKind::U16);
        if pos + 3 <= k {
            lemma_fixed_cut(data, pos + 3, k, 2, ValueKind::U16);
        }
    }
}

proof fn lemma_points_cut(data: Seq<u8>, pos: int, k: int, n: nat)
    requires
        0 <= pos <= k <= data.len(),
        points_spec(data, pos, n) is Ok,
    ensures
        ({
            let end = points_spec(data, pos, n)->Ok_0.1;
            &&& pos <= end <= data.len()
            &&& end <= k ==> points_spec(data.take(k), pos, n) == points_spec(data, pos, n)
            &&& end > k ==> points_spec(data.take(k), pos, n) is Err
        }),
    decreases n,
{
    if n > 0 {
        lemma_points_cut(data, pos, k, (n - 1) as nat);
        let p = points_spec(data, pos, (n - 1) as nat)->Ok_0.1;
        if p <= k {
            lemma_point_cut(data, p, k);
        } else {
            lemma_point_cut(data, p, data.len() as int);
        }
    }
}

proof fn lemma_frame_cut(data: Seq<u8>, pos: int, k: int)
    requires
        0 <= pos <= k <= data.len(),
        frame_spec(data, pos) is Ok,
    ensures
        ({
            let end = frame_spec(data, pos)->Ok_0.1;
            &&& pos <= end <= data.len()
            &&& end <= k ==> frame_spec(data.take(k), pos) == frame_spec(data, pos)
            &&& end > k ==> frame_spec(data.take(k), pos) is Err
        }),
{
    lemma_fixed_cut(data, pos, k, 4, ValueKind::F32);
    let p1 = pos + 4;
    let cut_at = if p1 <= k { k } else { data.len() as int };
    lemma_uleb_cut(data, p1, cut_at);
    let (count, p2) = uleb_spec(data, p1)->Ok_0;
    let cut_at2 = if p2 <= k { k } else { data.len() as int };
    lemma_points_cut(data, p2, cut_at2, count as nat);
}

proof fn lemma_frames_cut(data: Seq<u8>, pos: int, k: int, n: nat)
    requires
        0 <= pos <= k <= data.len(),
        frames_spec(data, pos, n) is Ok,
    ensures
        ({
            let end = frames_spec(data, pos, n)->Ok_0.1;
            &&& pos <= end <= data.len()
            &&& end <= k ==> frames_spec(data.take(k), pos, n) == frames_spec(data, pos, n)
            &&& end > k ==> frames_spec(data.take(k), pos, n) is Err
        }),
    decreases n,
{
    if n > 0 {
        lemma_frames_cut(data, pos, k, (n - 1) as nat);
        let p = frames_spec(data, pos, (n - 1) as nat)->Ok_0.1;
        if p <= k {
            lemma_frame_cut(data, p, k);
        } else {
            lemma_frame_cut(data, p, data.len() as int);
        }
    }
}

proof fn lemma_judge_cut(data: Seq<u8>, pos: int, k: int)
    requires
        0 <= pos <= k <= data.len(),
        judge_spec(data, pos) is Ok,
    ensures
        ({
            let end = judge_spec(data, pos)->Ok_0.1;
            &&& pos <= end <= data.len()
            &&& end <= k ==> judge_spec(data.take(k), pos) == judge_spec(data, pos)
            &&& end > k ==> judge_spec(data.take(k), pos) is Err
        }),
{
    lemma_fixed_cut(data, pos, k, 4, ValueKind::F32);
    if pos + 4 <= k {
        lemma_fixed_cut(data, pos + 4, k, 4, ValueKind::I32);
        if pos + 8 <= k {
            lemma_fixed_cut(data, pos + 8, k, 4, ValueKind::I32);
            if pos + 12 <= k {
                lemma_fixed_cut(data, pos + 12, k, 1, ValueKind::U8);
            }
        }
    }
}

proof fn lemma_judges_cut(data: Seq<u8>, pos: int, k: int, n: nat)
    requires
        0 <= pos <= k <= data.len(),
        judges_spec(data, pos, n) is Ok,
    ensures
        ({
            let end = judges_spec(data, pos, n)->Ok_0.1;
            &&& pos <= end <= data.len()
            &&& end <= k ==> judges_spec(data.take(k), pos, n) == judges_spec(data, pos, n)
            &&& end > k ==> judges_spec(data.take(k), pos, n) is Err
        }),
    decreases n,
{
    if n > 0 {
        lemma_judges_cut(data, pos, k, (n - 1) as nat);
        let p = judges_spec(data, pos, (n - 1) as nat)->Ok_0.1;
        if p <= k {
            lemma_judge_cut(data, p, k);
        } else {
            lemma_judge_cut(data, p, data.len() as int);
        }
    }
}

proof fn lemma_touch_frames_cut(data: Seq<u8>, pos: int, k: int)
    requires
        0 <= pos <= k <= data.len(),
        touch_frames_spec(data, pos) is Ok,
    ensures
        ({
            let end = touch_frames_spec(data, pos)->Ok_0.1;
            &&& pos <= end <= data.len()
            &&& end <= k ==> touch_frames_spec(data.take(k), pos) == touch_frames_spec(data, pos)
            &&& end > k ==> touch_frames_spec(data.take(k), pos) is Err
        }),
{
    lemma_uleb_cut(data, pos, k);
    let (count, p) = uleb_spec(data, pos)->Ok_0;
    let cut_at = if p <= k { k } else { data.len() as int };
    lemma_frames_cut(data, p, cut_at, count as nat);
}

proof fn lemma_judge_events_cut(data: Seq<u8>, pos: int, k: int)
    requires
        0 <= pos <= k <= data.len(),
        judge_events_spec(data, pos) is Ok,
    ensures
        ({
            let end = judge_events_spec(data, pos)->Ok_0.1;
            &&& pos <= end <= data.len()
            &&& end <= k ==> judge_events_spec(data.take(k), pos) == judge_events_spec(data, pos)
            &&& end > k ==> judge_events_spec(data.take(k), pos) is Err
        }),
{
    lemma_uleb_cut(data, pos, k);
    let (count, p) = uleb_spec(data, pos)->Ok_0;
    let cut_at = if p <= k { k } else { data.len() as int };
    lemma_judges_cut(data, p, cut_at, count as nat);
}

proof fn lemma_content_cut(data: Seq<u8>, k: int)
    requires
        0 <= k <= data.len(),
        content_read(data) is Ok,
    ensures
        ({
            let end = content_read(data)->Ok_0.1;
            &&& end <= data.len()
            &&& end <= k ==> content_read(data.take(k)) == content_read(data)
            &&& end > k ==> content_read(data.take(k)) is Err
        }),
{
    let len = data.len() as int;
    lemma_fixed_cut(data, 0, k, 4, ValueKind::I32);
    lemma_fixed_cut(data, 4, if 4 <= k { k } else { len }, 8, ValueKind::I64);
    lemma_fixed_cut(data, 12, if 12 <= k { k } else { len }, 4, ValueKind::I32);
    lemma_string_cut(data, 16, if 16 <= k { k } else { len });
    let p4 = string_spec(data, 16)->Ok_0.1;
    lemma_fixed_cut(data, p4, if p4 <= k { k } else { len }, 4, ValueKind::I32);
    lemma_string_cut(data, p4 + 4, if p4 + 4 <= k { k } else { len });
    let p6 = string_spec(data, p4 + 4)->Ok_0.1;
    lemma_touch_frames_cut(data, p6, if p6 <= k { k } else { len });
    let p7 = touch_frames_spec(data, p6)->Ok_0.1;
    lemma_judge_events_cut(data, p7, if p7 <= k { k } else { len });
}

/// A payload that reads and ends with its judge section cannot be cut short unnoticed: every
/// proper prefix of it fails to read.
pub proof fn lemma_truncated_payload_fails(content: Seq<u8>, k: int)
    requires
        content_read(content) matches Ok((_, end)) && end == content.len(),
        0 <= k < content.len(),
    ensures
        content_spec(content.take(k)) is Err,
{
    lemma_content_cut(content, k);
}

} // verus!
