//! The whole per-buffer run: de-interleave, trim trailing silence, and — when
//! auto-cutting is configured — detect, reconcile, filter and slice.

use crate::interleave::channel_views;
use crate::interleave::channels_of;
use crate::interleave::de_interleave;
use crate::merge::merge_ranges;
use crate::merge::merged_spec;
use crate::segment::check_ranges_well_formed;
use crate::segment::filter_ranges;
use crate::segment::filtered_ranges_spec;
use crate::segment::ranges_well_formed;
use crate::segment::segment_of;
use crate::segment::slice_segments;
use crate::silence::SilenceRange;
use crate::silence::detect_all;
use crate::silence::per_channel_ranges;
use crate::trim::lemma_trim_uniform;
use crate::trim::trim_channels;
use crate::trim::trim_spec;
use vstd::prelude::*;

verus! {

/// The auto-cut policy, with the minimum lengths already converted from
/// milliseconds to sample counts for the stream at hand. The numbering
/// postfix is carried as UTF-8 bytes.
pub struct AutoCutConfig {
    pub min_silence_len_samples: usize,
    pub min_segment_len_samples: usize,
    pub numbering_postfix: Vec<u8>,
    pub create_subdirectory: bool,
    pub delete_original: bool,
}

/// What one buffer run produces: a single trimmed channel set (possibly
/// empty, the trigger for the empty-file policy), or the cut segments, each
/// a channel set of its own.
pub enum ProcessedAudio {
    Single(Vec<Vec<i32>>),
    Cuts(Vec<Vec<Vec<i32>>>),
}

/// The channels of a flat stream after trailing-silence trimming.
pub open spec fn trimmed_channels_spec(samples: Seq<i32>, n: int, threshold: i32) -> Seq<Seq<i32>> {
    trim_spec(channels_of(samples, n), threshold)
}

/// The silence ranges a trimmed channel set is cut at, when any survive the
/// detection, reconciliation and filtering policies; `None` means the run
/// falls back to the single trimmed output.
pub open spec fn cut_plan(
    trimmed: Seq<Seq<i32>>,
    threshold: i32,
    min_silence: nat,
    min_segment: nat,
) -> Option<Seq<SilenceRange>> {
    if trimmed.len() == 0 {
        None
    } else {
        let total = trimmed[0].len() as int;
        match merged_spec(per_channel_ranges(trimmed, threshold, min_silence)) {
            None => None,
            Some(m) => {
                let f = filtered_ranges_spec(m, min_silence, min_segment, total);
                if f.len() > 0 && ranges_well_formed(f, total) {
                    Some(f)
                } else {
                    None
                }
            },
        }
    }
}

/// Runs one decoded buffer through the pipeline. A channel count of zero is
/// rejected with `None`. Without an auto-cut policy the result is the
/// trimmed channel set; with one, the buffer is cut at the planned ranges,
/// falling back to the trimmed set when no range survives the policies.
pub fn process_buffer(
    samples: &Vec<i32>,
    num_channels: usize,
    threshold: i32,
    auto_cut: Option<&AutoCutConfig>,
) -> (r: Option<ProcessedAudio>)
    requires
        threshold >= 0,
        num_channels > 0 ==> samples@.len() as int % (num_channels as int) == 0,
    ensures
        r is None <==> num_channels == 0,
        r matches Some(out) ==> {
            let trimmed = trimmed_channels_spec(samples@, num_channels as int, threshold);
            let plan = match auto_cut {
                Some(ac) => cut_plan(
                    trimmed,
                    threshold,
                    ac.min_silence_len_samples as nat,
                    ac.min_segment_len_samples as nat,
                ),
                None => None,
            };
            match plan {
                None => out matches ProcessedAudio::Single(chs) && channel_views(chs@)
                    == trimmed,
                Some(f) => out matches ProcessedAudio::Cuts(segs) && segs@.len() == f.len() + 1
                    && (forall|k: int|
                    0 <= k < segs@.len() ==> channel_views((#[trigger] segs@[k])@)
                        == segment_of(trimmed, f, trimmed[0].len() as int, k)),
            }
        },
{
    let channels = match de_interleave(samples, num_channels) {
        None => {
            return None;
        },
        Some(chs) => chs,
    };
    proof {
        crate::interleave::lemma_interleave_round_trip(samples@, num_channels as int);
    }
    let trimmed = trim_channels(&channels, threshold);
    proof {
        lemma_trim_uniform(channel_views(channels@), threshold);
    }
    let ac = match auto_cut {
        None => {
            return Some(ProcessedAudio::Single(trimmed));
        },
        Some(ac) => ac,
    };
    if trimmed.len() == 0 {
        return Some(ProcessedAudio::Single(trimmed));
    }
    let total = trimmed[0].len();
    let lists = detect_all(&trimmed, threshold, ac.min_silence_len_samples);
    let merged = match merge_ranges(&lists) {
        None => {
            return Some(ProcessedAudio::Single(trimmed));
        },
        Some(m) => m,
    };
    let filtered = filter_ranges(
        &merged,
        ac.min_silence_len_samples,
        ac.min_segment_len_samples,
        total,
    );
    if filtered.len() == 0 || !check_ranges_well_formed(&filtered, total) {
        return Some(ProcessedAudio::Single(trimmed));
    }
    proof {
        let tv = channel_views(trimmed@);
        assert forall|c: int| 0 <= c < trimmed@.len() implies (#[trigger] trimmed@[c])@.len()
            == trimmed@[0]@.len() by {
            assert(tv[c] == trimmed@[c]@);
            assert(tv[0] == trimmed@[0]@);
        }
        assert(tv[0] == trimmed@[0]@);
    }
    let segments = slice_segments(&trimmed, &filtered);
    Some(ProcessedAudio::Cuts(segments))
}

} // verus!
