//! Filtering the canonical silence ranges by the minimum-length policies and
//! slicing the remaining audio into exportable segments.

use crate::interleave::channel_views;
use crate::silence::SilenceRange;
use crate::silence::range_len;
use vstd::prelude::*;

verus! {

/// The ranges that cover at least `min_silence` samples, in order.
pub open spec fn filter_short(ranges: Seq<SilenceRange>, min_silence: nat) -> Seq<SilenceRange>
    decreases ranges.len(),
{
    if ranges.len() == 0 {
        Seq::empty()
    } else {
        let rest = filter_short(ranges.drop_last(), min_silence);
        if range_len(ranges.last()) >= min_silence {
            rest.push(ranges.last())
        } else {
            rest
        }
    }
}

/// Whether range `i` of the list survives the segment-length policy: a
/// first range whose leading segment would be too short is dropped, a last
/// range whose trailing segment would be too short is dropped, and of an
/// adjacent pair whose gap would make too short a segment the later range is
/// dropped. Every test reads the list as it stood before any removal.
pub open spec fn keeps_segments(
    ranges: Seq<SilenceRange>,
    total: int,
    min_segment: nat,
    i: int,
) -> bool {
    &&& !(i == 0 && ranges[0].start < min_segment)
    &&& !(i == ranges.len() - 1 && total - ranges[i].end < min_segment)
    &&& !(i >= 1 && ranges[i].start - ranges[i - 1].end < min_segment)
}

/// The ranges from index `i` on that survive the segment-length policy.
pub open spec fn segment_filter_from(
    ranges: Seq<SilenceRange>,
    total: int,
    min_segment: nat,
    i: int,
) -> Seq<SilenceRange>
    decreases ranges.len() - i,
{
    if i < 0 || i >= ranges.len() {
        Seq::empty()
    } else {
        let rest = segment_filter_from(ranges, total, min_segment, i + 1);
        if keeps_segments(ranges, total, min_segment, i) {
            seq![ranges[i]] + rest
        } else {
            rest
        }
    }
}

/// The canonical ranges after both policies, over a buffer of `total`
/// samples.
pub open spec fn filtered_ranges_spec(
    ranges: Seq<SilenceRange>,
    min_silence: nat,
    min_segment: nat,
    total: int,
) -> Seq<SilenceRange> {
    segment_filter_from(filter_short(ranges, min_silence), total, min_segment, 0)
}

/// Applies the silence-length policy and then the segment-length policy.
pub fn filter_ranges(
    ranges: &Vec<SilenceRange>,
    min_silence: usize,
    min_segment: usize,
    total: usize,
) -> (r: Vec<SilenceRange>)
    ensures
        r@ == filtered_ranges_spec(ranges@, min_silence as nat, min_segment as nat, total as int),
{
    // Silence-length policy: drop every range shorter than `min_silence`.
    let mut long: Vec<SilenceRange> = Vec::new();
    let mut i: usize = 0;
    while i < ranges.len()
        invariant
            i <= ranges@.len(),
            long@ == filter_short(ranges@.take(i as int), min_silence as nat),
        decreases ranges@.len() - i,
    {
        let r = ranges[i];
        proof {
            let pre = ranges@.take(i as int);
            let cur = ranges@.take(i + 1);
            assert(cur.drop_last() =~= pre);
            assert(cur.last() == ranges@[i as int]);
        }
        if (r.end as u128) + 1 >= (r.start as u128) + (min_silence as u128) {
            long.push(r);
        }
        i = i + 1;
    }
    proof {
        assert(ranges@.take(ranges@.len() as int) =~= ranges@);
    }
    // Segment-length policy, over the list as it stands after the first
    // policy; every test reads that list, not the partially filtered one.
    let mut out: Vec<SilenceRange> = Vec::new();
    let n = long.len();
    let mut k: usize = 0;
    while k < n
        invariant
            k <= n,
            n == long@.len(),
            out@ + segment_filter_from(long@, total as int, min_segment as nat, k as int)
                == segment_filter_from(long@, total as int, min_segment as nat, 0),
        decreases n - k,
    {
        let r = long[k];
        let drop_first_range = k == 0 && r.start < min_segment;
        let drop_last_range = k == n - 1 && (total as u128) < (r.end as u128) + (min_segment
            as u128);
        let drop_gap = k >= 1 && (r.start as u128) < (long[k - 1].end as u128) + (min_segment
            as u128);
        if !(drop_first_range || drop_last_range || drop_gap) {
            proof {
                assert(out@.push(long@[k as int]) + segment_filter_from(
                    long@,
                    total as int,
                    min_segment as nat,
                    k + 1,
                ) =~= out@ + (seq![long@[k as int]] + segment_filter_from(
                    long@,
                    total as int,
                    min_segment as nat,
                    k + 1,
                )));
            }
            out.push(r);
        }
        k = k + 1;
    }
    proof {
        assert(out@ + Seq::<SilenceRange>::empty() =~= out@);
    }
    out
}

/// Whether a range list can drive the slicer over a buffer of `total`
/// samples: every range is genuine and in bounds, and the ranges run left to
/// right.
pub open spec fn ranges_well_formed(ranges: Seq<SilenceRange>, total: int) -> bool {
    &&& forall|k: int|
        0 <= k < ranges.len() ==> (#[trigger] ranges[k]).start <= ranges[k].end && ranges[k].end
            < total
    &&& forall|k: int|
        0 <= k < ranges.len() - 1 ==> (#[trigger] ranges[k]).end <= ranges[k + 1].start
}

/// Checks the slicer's precondition at run time; reconciliation across
/// channels can in rare inputs widen neighbouring ranges into overlap, and
/// such a plan is rejected rather than sliced.
pub fn check_ranges_well_formed(ranges: &Vec<SilenceRange>, total: usize) -> (r: bool)
    ensures
        r == ranges_well_formed(ranges@, total as int),
{
    let mut k: usize = 0;
    while k < ranges.len()
        invariant
            k <= ranges@.len(),
            forall|e: int|
                0 <= e < k ==> (#[trigger] ranges@[e]).start <= ranges@[e].end && ranges@[e].end
                    < total,
            forall|e: int| 0 <= e < k - 1 ==> (#[trigger] ranges@[e]).end <= ranges@[e + 1].start,
        decreases ranges@.len() - k,
    {
        let r = ranges[k];
        if r.start > r.end || r.end >= total {
            return false;
        }
        if k >= 1 && ranges[k - 1].end > r.start {
            return false;
        }
        k = k + 1;
    }
    true
}

/// The cut point a segment starts from: sample 0 for the first segment, the
/// end of the previous silence range for every later one.
pub open spec fn cut_start(ranges: Seq<SilenceRange>, k: int) -> int {
    if k == 0 {
        0
    } else {
        ranges[k - 1].end as int
    }
}

/// The last sample a segment covers: the start of its silence range, or the
/// final sample for the segment after the last range.
pub open spec fn cut_end(ranges: Seq<SilenceRange>, total: int, k: int) -> int {
    if k < ranges.len() {
        ranges[k].start as int
    } else {
        total - 1
    }
}

/// Segment `k` of a channel set: every channel sliced to the same inclusive
/// index window.
pub open spec fn segment_of(
    channels: Seq<Seq<i32>>,
    ranges: Seq<SilenceRange>,
    total: int,
    k: int,
) -> Seq<Seq<i32>> {
    channels.map_values(
        |ch: Seq<i32>| ch.subrange(cut_start(ranges, k), cut_end(ranges, total, k) + 1),
    )
}

/// Copies the inclusive window `[start, end]` out of every channel.
fn slice_window(channels: &Vec<Vec<i32>>, start: usize, end: usize) -> (r: Vec<Vec<i32>>)
    requires
        start <= end,
        forall|c: int| 0 <= c < channels@.len() ==> end < (#[trigger] channels@[c])@.len(),
    ensures
        r@.len() == channels@.len(),
        forall|c: int|
            0 <= c < r@.len() ==> (#[trigger] r@[c])@ == channels@[c]@.subrange(
                start as int,
                end + 1,
            ),
{
    let mut seg: Vec<Vec<i32>> = Vec::new();
    let mut c: usize = 0;
    while c < channels.len()
        invariant
            c <= channels@.len(),
            start <= end,
            forall|d: int| 0 <= d < channels@.len() ==> end < (#[trigger] channels@[d])@.len(),
            seg@.len() == c,
            forall|d: int|
                0 <= d < c ==> (#[trigger] seg@[d])@ == channels@[d]@.subrange(
                    start as int,
                    end + 1,
                ),
        decreases channels@.len() - c,
    {
        let ch = &channels[c];
        let chlen = ch.len();
        let mut piece: Vec<i32> = Vec::new();
        proof {
            assert(piece@ =~= ch@.subrange(start as int, start as int));
        }
        let mut j: usize = start;
        while j <= end
            invariant
                start <= j <= end + 1,
                end < chlen,
                chlen == ch@.len(),
                ch@ == channels@[c as int]@,
                piece@ == ch@.subrange(start as int, j as int),
            decreases end + 1 - j,
        {
            piece.push(ch[j]);
            proof {
                assert(ch@.subrange(start as int, j + 1) =~= ch@.subrange(
                    start as int,
                    j as int,
                ).push(ch@[j as int]));
            }
            j = j + 1;
        }
        seg.push(piece);
        c = c + 1;
    }
    seg
}

/// Slices the channels at the surviving silence ranges: one segment per
/// range, reaching from the previous cut point to the range's start, and one
/// final segment up to the last sample.
#[verifier::rlimit(50)]
pub fn slice_segments(channels: &Vec<Vec<i32>>, ranges: &Vec<SilenceRange>) -> (r: Vec<
    Vec<Vec<i32>>,
>)
    requires
        channels@.len() >= 1,
        channels@[0]@.len() >= 1,
        forall|c: int|
            0 <= c < channels@.len() ==> (#[trigger] channels@[c])@.len() == channels@[0]@.len(),
        ranges_well_formed(ranges@, channels@[0]@.len() as int),
    ensures
        r@.len() == ranges@.len() + 1,
        forall|k: int|
            0 <= k < r@.len() ==> channel_views((#[trigger] r@[k])@) == segment_of(
                channel_views(channels@),
                ranges@,
                channels@[0]@.len() as int,
                k,
            ),
{
    let ghost views = channel_views(channels@);
    let total = channels[0].len();
    let mut segments: Vec<Vec<Vec<i32>>> = Vec::new();
    let mut k: usize = 0;
    while k < ranges.len()
        invariant
            k <= ranges@.len(),
            total == channels@[0]@.len(),
            total >= 1,
            views == channel_views(channels@),
            channels@.len() >= 1,
            forall|c: int|
                0 <= c < channels@.len() ==> (#[trigger] channels@[c])@.len() == total,
            ranges_well_formed(ranges@, total as int),
            segments@.len() == k,
            forall|e: int|
                0 <= e < k ==> channel_views((#[trigger] segments@[e])@)
                    == segment_of(views, ranges@, total as int, e),
        decreases ranges@.len() - k,
    {
        let start: usize = if k == 0 {
            0
        } else {
            ranges[k - 1].end
        };
        let end: usize = ranges[k].start;
        proof {
            assert(ranges@[k as int].start <= ranges@[k as int].end && ranges@[k as int].end
                < total);
            if k >= 1 {
                assert(ranges@[k - 1].start <= ranges@[k - 1].end && ranges@[k - 1].end < total);
                assert(ranges@[k - 1].end <= ranges@[k as int].start);
            }
            assert(start <= end && end < total);
        }
        let seg = slice_window(channels, start, end);
        proof {
            assert(channel_views(seg@) =~= segment_of(
                views,
                ranges@,
                total as int,
                k as int,
            ));
        }
        segments.push(seg);
        k = k + 1;
    }
    // The final segment: from the last cut point to the final sample.
    let start: usize = if ranges.len() == 0 {
        0
    } else {
        ranges[ranges.len() - 1].end
    };
    let end: usize = total - 1;
    proof {
        if ranges@.len() >= 1 {
            let l = ranges@.len() - 1;
            assert(ranges@[l].start <= ranges@[l].end && ranges@[l].end < total);
        }
        assert(start <= end && end < total);
    }
    let seg = slice_window(channels, start, end);
    proof {
        assert(channel_views(seg@) =~= segment_of(
            views,
            ranges@,
            total as int,
            ranges@.len() as int,
        ));
    }
    segments.push(seg);
    segments
}

} // verus!
