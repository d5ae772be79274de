use wav_optimizer::interleave::de_interleave;
use wav_optimizer::interleave::re_interleave;
use wav_optimizer::merge::merge_ranges;
use wav_optimizer::pipeline::AutoCutConfig;
use wav_optimizer::pipeline::ProcessedAudio;
use wav_optimizer::pipeline::process_buffer;
use wav_optimizer::segment::check_ranges_well_formed;
use wav_optimizer::segment::filter_ranges;
use wav_optimizer::segment::slice_segments;
use wav_optimizer::silence::SilenceRange;
use wav_optimizer::silence::silence_ranges;
use wav_optimizer::trim::last_sound;
use wav_optimizer::trim::trim_channels;

fn range(start: usize, end: usize) -> SilenceRange {
    SilenceRange { start, end }
}

#[test]
fn de_interleave_splits_by_index_modulo() {
    let samples = vec![1, 2, 3, 4, 5, 6];
    let channels = de_interleave(&samples, 2).unwrap();
    assert_eq!(channels, vec![vec![1, 3, 5], vec![2, 4, 6]]);
}

#[test]
fn de_interleave_rejects_zero_channels() {
    let samples = vec![1, 2, 3];
    assert!(de_interleave(&samples, 0).is_none());
}

#[test]
fn interleave_round_trip_is_identity() {
    let samples = vec![9, -4, 0, 7, 32767, -32768, 5, 12, -1];
    for n in [1usize, 3, 9] {
        let channels = de_interleave(&samples, n).unwrap();
        let flat = re_interleave(&channels).unwrap();
        assert_eq!(flat, samples);
    }
    let empty: Vec<i32> = Vec::new();
    let channels = de_interleave(&empty, 4).unwrap();
    assert_eq!(channels.len(), 4);
    assert_eq!(re_interleave(&channels).unwrap(), empty);
}

#[test]
fn re_interleave_rejects_unequal_channels() {
    let channels = vec![vec![1, 2, 3], vec![4, 5]];
    assert!(re_interleave(&channels).is_none());
}

#[test]
fn fully_silent_channel_is_dropped() {
    // Every sample of the first channel lies within [-100, 100].
    let channels = vec![vec![10, -20, 30], vec![5, 500, 7]];
    let trimmed = trim_channels(&channels, 100);
    assert_eq!(trimmed, vec![vec![5, 500]]);
}

#[test]
fn last_sound_index_and_truncation() {
    let ch = vec![5, 200, 3, 2, 1];
    assert_eq!(last_sound(&ch, 100), 1);
    let trimmed = trim_channels(&vec![ch], 100);
    assert_eq!(trimmed, vec![vec![5, 200]]);
}

#[test]
fn channel_with_sound_only_at_index_zero_is_kept() {
    let trimmed = trim_channels(&vec![vec![500, 1, 2]], 100);
    assert_eq!(trimmed, vec![vec![500]]);
}

#[test]
fn threshold_at_max_amplitude_trims_everything() {
    // At a deviation floor of 0 dB the threshold is the full amplitude of
    // the bit depth; any input without clipped samples comes out empty.
    let threshold = wav_optimizer::sample::int_bit_to_max(16, true) as i32;
    let samples = vec![0, 5, -32767, 100, 12000, -30000];
    let out = process_buffer(&samples, 2, threshold, None).unwrap();
    match out {
        ProcessedAudio::Single(channels) => assert!(channels.is_empty()),
        ProcessedAudio::Cuts(_) => panic!("expected a single output"),
    }
}

#[test]
fn detector_finds_closed_runs_only() {
    // The run at the end is never closed by a non-silent sample: dropped.
    let ch = vec![200, 0, 0, 0, 200, 0, 0];
    assert_eq!(silence_ranges(&ch, 100, 3), vec![range(1, 3)]);
}

#[test]
fn detector_never_reports_short_ranges() {
    let ch = vec![200, 0, 0, 0, 200];
    assert_eq!(silence_ranges(&ch, 100, 3), vec![range(1, 3)]);
    assert_eq!(silence_ranges(&ch, 100, 4), Vec::<SilenceRange>::new());
    let busy = vec![200, 0, 200, 0, 0, 200];
    assert_eq!(silence_ranges(&busy, 100, 2), vec![range(3, 4)]);
}

#[test]
fn detector_bounds_are_inclusive() {
    let ch = vec![0, 0, 200, -150, 0, 0, 0, 150];
    assert_eq!(silence_ranges(&ch, 100, 1), vec![range(0, 1), range(4, 6)]);
}

#[test]
fn merger_widens_base_ranges_across_channels() {
    // Equal-length lists: the first channel is the base, and its range is
    // widened to cover the overlapping silence of the second channel.
    let lists = vec![vec![range(10, 50)], vec![range(15, 60)]];
    assert_eq!(merge_ranges(&lists).unwrap(), vec![range(10, 60)]);
}

#[test]
fn merger_single_list_is_canonical() {
    let lists = vec![vec![range(3, 9), range(20, 30)]];
    assert_eq!(merge_ranges(&lists).unwrap(), vec![range(3, 9), range(20, 30)]);
}

#[test]
fn merger_without_ranges_reports_none() {
    let lists: Vec<Vec<SilenceRange>> = Vec::new();
    assert!(merge_ranges(&lists).is_none());
}

#[test]
fn merger_picks_the_longest_list() {
    let lists = vec![vec![range(10, 50)], vec![range(2, 5), range(40, 60)]];
    // The second list is longer and becomes the base; its first range does
    // not overlap the first channel's range, the second one does.
    assert_eq!(merge_ranges(&lists).unwrap(), vec![range(2, 5), range(10, 60)]);
}

#[test]
fn filter_drops_short_silences() {
    let ranges = vec![range(100, 104), range(300, 400)];
    let kept = filter_ranges(&ranges, 50, 0, 1000);
    assert_eq!(kept, vec![range(300, 400)]);
}

#[test]
fn filter_drops_ranges_that_leave_short_segments() {
    // Leading segment before (10, 80) would be 10 samples; trailing segment
    // after (950, 990) would be 10 samples: both dropped.
    let ranges = vec![range(10, 80), range(400, 500), range(950, 990)];
    let kept = filter_ranges(&ranges, 10, 50, 1000);
    assert_eq!(kept, vec![range(400, 500)]);
}

#[test]
fn filter_drops_later_range_of_a_close_pair() {
    let ranges = vec![range(100, 200), range(210, 300)];
    let kept = filter_ranges(&ranges, 10, 50, 1000);
    assert_eq!(kept, vec![range(100, 200)]);
}

#[test]
fn segmentation_of_single_silence_range() {
    // A 1,000-sample channel with one valid silence range and a minimum
    // segment length of 50 yields exactly two segments.
    let mut ch = vec![1000i32; 1000];
    for i in 400..=450 {
        ch[i] = 0;
    }
    let channels = vec![ch];
    let ranges = filter_ranges(&vec![range(400, 450)], 51, 50, 1000);
    assert_eq!(ranges, vec![range(400, 450)]);
    assert!(check_ranges_well_formed(&ranges, 1000));
    let segments = slice_segments(&channels, &ranges);
    assert_eq!(segments.len(), 2);
    assert_eq!(segments[0][0].len(), 401);
    assert_eq!(segments[0][0][0], 1000);
    assert_eq!(segments[0][0][400], 0);
    assert_eq!(segments[1][0].len(), 550);
    assert_eq!(segments[1][0][0], 0);
    assert_eq!(segments[1][0][549], 1000);
}

#[test]
fn malformed_plan_is_rejected() {
    assert!(!check_ranges_well_formed(&vec![range(50, 20)], 100));
    assert!(!check_ranges_well_formed(&vec![range(10, 120)], 100));
    assert!(!check_ranges_well_formed(&vec![range(10, 45), range(15, 50)], 100));
    assert!(check_ranges_well_formed(&vec![range(10, 20), range(20, 30)], 100));
    assert!(check_ranges_well_formed(&Vec::new(), 0));
}

fn cut_config(min_silence: usize, min_segment: usize) -> AutoCutConfig {
    AutoCutConfig {
        min_silence_len_samples: min_silence,
        min_segment_len_samples: min_segment,
        numbering_postfix: b"-".to_vec(),
        create_subdirectory: false,
        delete_original: false,
    }
}

#[test]
fn process_rejects_zero_channels() {
    assert!(process_buffer(&vec![1, 2, 3], 0, 100, None).is_none());
}

#[test]
fn process_empty_input_yields_empty_output() {
    let empty: Vec<i32> = Vec::new();
    let config = cut_config(10, 10);
    for auto in [None, Some(&config)] {
        match process_buffer(&empty, 2, 100, auto).unwrap() {
            ProcessedAudio::Single(channels) => assert!(channels.is_empty()),
            ProcessedAudio::Cuts(_) => panic!("expected a single output"),
        }
    }
}

#[test]
fn process_without_auto_cut_trims_only() {
    // Two channels, interleaved; the tail of both is silent.
    let samples = vec![500, 600, 1, 2, 3, 4];
    let out = process_buffer(&samples, 2, 100, None).unwrap();
    match out {
        ProcessedAudio::Single(channels) => {
            assert_eq!(channels, vec![vec![500], vec![600]]);
        },
        ProcessedAudio::Cuts(_) => panic!("expected a single output"),
    }
}

#[test]
fn process_with_auto_cut_slices_at_silence() {
    let mut samples = vec![1000i32; 1000];
    for i in 400..=450 {
        samples[i] = 0;
    }
    let config = cut_config(40, 50);
    let out = process_buffer(&samples, 1, 100, Some(&config)).unwrap();
    match out {
        ProcessedAudio::Cuts(segments) => {
            assert_eq!(segments.len(), 2);
            assert_eq!(segments[0][0].len(), 401);
            assert_eq!(segments[1][0].len(), 550);
        },
        ProcessedAudio::Single(_) => panic!("expected cut segments"),
    }
}

#[test]
fn process_falls_back_when_no_silence_qualifies() {
    let samples = vec![1000i32; 100];
    let config = cut_config(10, 10);
    let out = process_buffer(&samples, 1, 100, Some(&config)).unwrap();
    match out {
        ProcessedAudio::Single(channels) => {
            assert_eq!(channels, vec![vec![1000i32; 100]]);
        },
        ProcessedAudio::Cuts(_) => panic!("expected the single trimmed output"),
    }
}
