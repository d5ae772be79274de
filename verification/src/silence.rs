//! Detection of contiguous below-threshold runs (silence ranges) per
//! channel.

use crate::interleave::channel_views;
use crate::sample::is_silent;
use crate::sample::sample_silent;
use vstd::prelude::*;

verus! {

/// One contiguous silent run over a channel's sample indices, inclusive on
/// both ends.
#[derive(Clone, Copy, Debug, PartialEq, Eq, Structural)]
pub struct SilenceRange {
    pub start: usize,
    pub end: usize,
}

/// The number of samples a range covers.
pub open spec fn range_len(r: SilenceRange) -> int {
    r.end - r.start + 1
}

/// The ranges found from index `i` on, given the start of the still-open
/// silent run, if one is open. A run is closed by a non-silent sample and
/// kept when it covers at least `min_len` samples; a run still open at the
/// channel's end is dropped.
pub open spec fn ranges_from(
    ch: Seq<i32>,
    threshold: i32,
    min_len: nat,
    i: int,
    open_start: Option<int>,
) -> Seq<SilenceRange>
    decreases ch.len() - i,
{
    if i < 0 || i >= ch.len() {
        Seq::empty()
    } else if sample_silent(ch[i], threshold) {
        let s = match open_start {
            Some(s) => s,
            None => i,
        };
        ranges_from(ch, threshold, min_len, i + 1, Some(s))
    } else {
        let rest = ranges_from(ch, threshold, min_len, i + 1, None);
        match open_start {
            None => rest,
            Some(s) => if i - s >= min_len {
                seq![SilenceRange { start: s as usize, end: (i - 1) as usize }] + rest
            } else {
                rest
            },
        }
    }
}

/// All qualifying silence ranges of one channel, ordered by start index.
pub open spec fn silence_ranges_spec(ch: Seq<i32>, threshold: i32, min_len: nat) -> Seq<
    SilenceRange,
> {
    ranges_from(ch, threshold, min_len, 0, None)
}

/// Scans one channel left to right and collects every silent run of at
/// least `min_len` samples that is closed by a non-silent sample.
pub fn silence_ranges(ch: &Vec<i32>, threshold: i32, min_len: usize) -> (r: Vec<SilenceRange>)
    requires
        threshold >= 0,
    ensures
        r@ == silence_ranges_spec(ch@, threshold, min_len as nat),
{
    let mut out: Vec<SilenceRange> = Vec::new();
    let mut in_silence = false;
    let mut start: usize = 0;
    let mut i: usize = 0;
    while i < ch.len()
        invariant
            threshold >= 0,
            i <= ch@.len(),
            in_silence ==> start < i,
            silence_ranges_spec(ch@, threshold, min_len as nat) == out@ + ranges_from(
                ch@,
                threshold,
                min_len as nat,
                i as int,
                if in_silence {
                    Some(start as int)
                } else {
                    None
                },
            ),
        decreases ch@.len() - i,
    {
        if is_silent(ch[i], threshold) {
            if !in_silence {
                start = i;
                in_silence = true;
            }
        } else {
            if in_silence {
                in_silence = false;
                if i - start >= min_len {
                    let range = SilenceRange { start, end: i - 1 };
                    proof {
                        assert(out@.push(range) + ranges_from(
                            ch@,
                            threshold,
                            min_len as nat,
                            i + 1,
                            None,
                        ) =~= out@ + (seq![range] + ranges_from(
                            ch@,
                            threshold,
                            min_len as nat,
                            i + 1,
                            None,
                        )));
                    }
                    out.push(range);
                }
            }
        }
        i = i + 1;
    }
    proof {
        assert(out@ + Seq::<SilenceRange>::empty() =~= out@);
    }
    out
}

/// Every range in the list covers at least `min_len` samples, lies within a
/// channel of length `len`, and is a genuine range (`start <= end`).
pub open spec fn ranges_bounded(rs: Seq<SilenceRange>, len: int, min_len: nat) -> bool {
    forall|k: int|
        0 <= k < rs.len() ==> {
            let r = #[trigger] rs[k];
            range_len(r) >= min_len && r.start <= r.end && r.end < len
        }
}

/// A range shorter than `min_len` samples is never present in the detector's
/// output, and every reported range lies within the channel.
pub proof fn lemma_ranges_meet_min_length(ch: Seq<i32>, threshold: i32, min_len: nat)
    requires
        ch.len() <= usize::MAX,
    ensures
        ranges_bounded(silence_ranges_spec(ch, threshold, min_len), ch.len() as int, min_len),
{
    lemma_ranges_from_bounds(ch, threshold, min_len, 0, None);
}

/// The bounds above, for any scan state.
proof fn lemma_ranges_from_bounds(
    ch: Seq<i32>,
    threshold: i32,
    min_len: nat,
    i: int,
    open_start: Option<int>,
)
    requires
        ch.len() <= usize::MAX,
        open_start matches Some(s) ==> 0 <= s < i,
    ensures
        ranges_bounded(ranges_from(ch, threshold, min_len, i, open_start), ch.len() as int, min_len),
    decreases ch.len() - i,
{
    if i < 0 || i >= ch.len() {
        assert(ranges_from(ch, threshold, min_len, i, open_start).len() == 0);
    } else if sample_silent(ch[i], threshold) {
        let s = match open_start {
            Some(s) => s,
            None => i,
        };
        lemma_ranges_from_bounds(ch, threshold, min_len, i + 1, Some(s));
    } else {
        lemma_ranges_from_bounds(ch, threshold, min_len, i + 1, None);
        let rest = ranges_from(ch, threshold, min_len, i + 1, None);
        if let Some(s) = open_start {
            if i - s >= min_len {
                let r0 = SilenceRange { start: s as usize, end: (i - 1) as usize };
                let whole = seq![r0] + rest;
                assert(ranges_from(ch, threshold, min_len, i, open_start) == whole);
                assert forall|k: int| 0 <= k < whole.len() implies {
                    let r = #[trigger] whole[k];
                    range_len(r) >= min_len && r.start <= r.end && r.end < ch.len()
                } by {
                    if k == 0 {
                        assert(whole[0] == r0);
                    } else {
                        assert(whole[k] == rest[k - 1]);
                    }
                }
            }
        }
    }
}

/// Every range the scan reports from index `i` on starts at or after the
/// open run's start, or at or after `i` when no run is open.
proof fn lemma_ranges_from_start_bound(
    ch: Seq<i32>,
    threshold: i32,
    min_len: nat,
    i: int,
    open_start: Option<int>,
)
    requires
        ch.len() <= usize::MAX,
        open_start matches Some(s) ==> 0 <= s < i,
    ensures
        forall|k: int|
            0 <= k < ranges_from(ch, threshold, min_len, i, open_start).len()
                ==> (#[trigger] ranges_from(ch, threshold, min_len, i, open_start)[k]).start
                >= (match open_start {
                Some(s) => s,
                None => i,
            }),
    decreases ch.len() - i,
{
    if i < 0 || i >= ch.len() {
        assert(ranges_from(ch, threshold, min_len, i, open_start).len() == 0);
    } else if sample_silent(ch[i], threshold) {
        let s = match open_start {
            Some(s) => s,
            None => i,
        };
        lemma_ranges_from_start_bound(ch, threshold, min_len, i + 1, Some(s));
        let rest = ranges_from(ch, threshold, min_len, i + 1, Some(s));
        assert(ranges_from(ch, threshold, min_len, i, open_start) == rest);
        assert forall|k: int|
            0 <= k < ranges_from(ch, threshold, min_len, i, open_start).len() implies (
        #[trigger] ranges_from(ch, threshold, min_len, i, open_start)[k]).start >= (match open_start {
            Some(s2) => s2,
            None => i,
        }) by {
            assert(rest[k].start >= s);
        }
    } else {
        lemma_ranges_from_start_bound(ch, threshold, min_len, i + 1, None);
        let rest = ranges_from(ch, threshold, min_len, i + 1, None);
        if let Some(s) = open_start {
            if i - s >= min_len {
                let r0 = SilenceRange { start: s as usize, end: (i - 1) as usize };
                let whole = seq![r0] + rest;
                assert(ranges_from(ch, threshold, min_len, i, open_start) == whole);
                assert forall|k: int| 0 <= k < whole.len() implies (#[trigger] whole[k]).start
                    >= s by {
                    if k == 0 {
                        assert(whole[0] == r0);
                    } else {
                        assert(whole[k] == rest[k - 1]);
                    }
                }
            }
        }
    }
}

/// The detector's ranges run left to right: each range ends before the next
/// one starts.
pub proof fn lemma_ranges_ordered(ch: Seq<i32>, threshold: i32, min_len: nat)
    requires
        ch.len() <= usize::MAX,
    ensures
        forall|k: int|
            0 <= k < silence_ranges_spec(ch, threshold, min_len).len() - 1
                ==> (#[trigger] silence_ranges_spec(ch, threshold, min_len)[k]).end
                < silence_ranges_spec(ch, threshold, min_len)[k + 1].start,
{
    lemma_ranges_from_ordered(ch, threshold, min_len, 0, None);
}

/// The ordering above, for any scan state.
proof fn lemma_ranges_from_ordered(
    ch: Seq<i32>,
    threshold: i32,
    min_len: nat,
    i: int,
    open_start: Option<int>,
)
    requires
        ch.len() <= usize::MAX,
        open_start matches Some(s) ==> 0 <= s < i,
    ensures
        forall|k: int|
            0 <= k < ranges_from(ch, threshold, min_len, i, open_start).len() - 1
                ==> (#[trigger] ranges_from(ch, threshold, min_len, i, open_start)[k]).end
                < ranges_from(ch, threshold, min_len, i, open_start)[k + 1].start,
    decreases ch.len() - i,
{
    let result = ranges_from(ch, threshold, min_len, i, open_start);
    if i < 0 || i >= ch.len() {
        assert(result.len() == 0);
    } else if sample_silent(ch[i], threshold) {
        let s = match open_start {
            Some(s) => s,
            None => i,
        };
        lemma_ranges_from_ordered(ch, threshold, min_len, i + 1, Some(s));
        let rest = ranges_from(ch, threshold, min_len, i + 1, Some(s));
        assert(result == rest);
        assert forall|k: int| 0 <= k < result.len() - 1 implies (#[trigger] result[k]).end
            < result[k + 1].start by {
            assert(rest[k].end < rest[k + 1].start);
        }
    } else {
        lemma_ranges_from_ordered(ch, threshold, min_len, i + 1, None);
        let rest = ranges_from(ch, threshold, min_len, i + 1, None);
        let prepended = open_start matches Some(s) && i - s >= min_len;
        if let Some(s) = open_start {
            if i - s >= min_len {
                lemma_ranges_from_start_bound(ch, threshold, min_len, i + 1, None);
                let r0 = SilenceRange { start: s as usize, end: (i - 1) as usize };
                let whole = seq![r0] + rest;
                assert(result == whole);
                assert forall|k: int| 0 <= k < whole.len() - 1 implies (#[trigger] whole[k]).end
                    < whole[k + 1].start by {
                    if k == 0 {
                        assert(whole[0] == r0);
                        assert(whole[1] == rest[0]);
                        assert(rest[0].start >= i + 1);
                    } else {
                        assert(whole[k] == rest[k - 1]);
                        assert(whole[k + 1] == rest[k]);
                    }
                }
            }
        }
        if !prepended {
            assert(result == rest);
            assert forall|k: int| 0 <= k < result.len() - 1 implies (#[trigger] result[k]).end
                < result[k + 1].start by {
                assert(rest[k].end < rest[k + 1].start);
            }
        }
    }
}

/// The views of a vector of range lists.
pub open spec fn range_list_views(lists: Seq<Vec<SilenceRange>>) -> Seq<Seq<SilenceRange>> {
    lists.map_values(|l: Vec<SilenceRange>| l@)
}

/// The non-empty range lists of a channel set: channels that report no
/// qualifying range contribute nothing.
pub open spec fn per_channel_ranges(
    channels: Seq<Seq<i32>>,
    threshold: i32,
    min_len: nat,
) -> Seq<Seq<SilenceRange>>
    decreases channels.len(),
{
    if channels.len() == 0 {
        Seq::empty()
    } else {
        let rest = per_channel_ranges(channels.drop_last(), threshold, min_len);
        let rs = silence_ranges_spec(channels.last(), threshold, min_len);
        if rs.len() > 0 {
            rest.push(rs)
        } else {
            rest
        }
    }
}

/// Runs the detector over every channel and keeps the non-empty range
/// lists.
pub fn detect_all(channels: &Vec<Vec<i32>>, threshold: i32, min_len: usize) -> (r: Vec<
    Vec<SilenceRange>,
>)
    requires
        threshold >= 0,
    ensures
        range_list_views(r@) == per_channel_ranges(
            channel_views(channels@),
            threshold,
            min_len as nat,
        ),
{
    let ghost views = channel_views(channels@);
    let mut out: Vec<Vec<SilenceRange>> = Vec::new();
    let mut c: usize = 0;
    while c < channels.len()
        invariant
            threshold >= 0,
            c <= channels@.len(),
            views == channel_views(channels@),
            range_list_views(out@) == per_channel_ranges(
                views.take(c as int),
                threshold,
                min_len as nat,
            ),
        decreases channels@.len() - c,
    {
        let rs = silence_ranges(&channels[c], threshold, min_len);
        proof {
            let pre = views.take(c as int);
            let cur = views.take(c + 1);
            assert(cur.drop_last() =~= pre);
            assert(cur.last() == channels@[c as int]@);
        }
        if rs.len() > 0 {
            proof {
                assert(range_list_views(out@.push(rs)) =~= out@.map_values(
                    |l: Vec<SilenceRange>| l@,
                ).push(rs@));
            }
            out.push(rs);
        }
        c = c + 1;
    }
    proof {
        assert(views.take(channels@.len() as int) =~= views);
    }
    out
}

} // verus!
