use audio_core::hops::argmin_range;
use audio_core::slicer::{HopFeed, SliceConfigError};
use audio_core::{AudioSlicer, SliceConfig};

const LOUD: u64 = 100;
const QUIET: u64 = 0;

/// One-sample hops at 1 kHz: hop 1, window 3, minimum length 5 hops,
/// minimum interval 3 hops, at most 2 hops of silence kept.
fn small_slicer() -> AudioSlicer {
    let config = SliceConfig {
        threshold_level: 10,
        min_length: 5,
        min_interval: 3,
        hop_size: 1,
        max_sil_kept: 2,
    };
    AudioSlicer::new(1000, config).unwrap()
}

fn levels(quiet: &[usize], len: usize) -> Vec<u64> {
    (0..len).map(|i| if quiet.contains(&i) { QUIET } else { LOUD }).collect()
}

#[test]
fn derived_sizes_at_44100() {
    let config = SliceConfig {
        threshold_level: 1,
        min_length: 5000,
        min_interval: 300,
        hop_size: 20,
        max_sil_kept: 5000,
    };
    let slicer = AudioSlicer::new(44100, config).unwrap();
    // (20 * 44100 + 500) / 1000 = 882
    assert_eq!(slicer.hop_size_samples(), 882);
    // min((300 * 44100 + 500) / 1000, 4 * 882) = min(13230, 3528)
    assert_eq!(slicer.win_size_samples(), 3528);
    assert_eq!(slicer.threshold_level(), 1);
}

#[test]
fn small_slicer_sizes() {
    let slicer = small_slicer();
    assert_eq!(slicer.hop_size_samples(), 1);
    assert_eq!(slicer.win_size_samples(), 3);
}

#[test]
fn refuses_unordered_intervals() {
    let config = SliceConfig {
        threshold_level: 1,
        min_length: 100,
        min_interval: 300,
        hop_size: 20,
        max_sil_kept: 5000,
    };
    let err = AudioSlicer::new(44100, config).err().unwrap();
    assert_eq!(err, SliceConfigError::IntervalOrder);
    assert_eq!(
        err.message(),
        "Invalid config: min_length >= min_interval >= hop_size must be satisfied"
    );
}

#[test]
fn refuses_short_kept_silence() {
    let config = SliceConfig {
        threshold_level: 1,
        min_length: 5000,
        min_interval: 300,
        hop_size: 20,
        max_sil_kept: 10,
    };
    let err = AudioSlicer::new(44100, config).err().unwrap();
    assert_eq!(err, SliceConfigError::SilenceKeptTooShort);
    assert_eq!(err.message(), "Invalid config: max_sil_kept >= hop_size must be satisfied");
}

#[test]
fn negative_hop_is_accepted() {
    let config = SliceConfig {
        threshold_level: 1,
        min_length: -1,
        min_interval: -1,
        hop_size: -1,
        max_sil_kept: -1,
    };
    let slicer = AudioSlicer::new(44100, config).unwrap();
    // (-44100 + 500) / 1000 rounds toward zero
    assert_eq!(slicer.hop_size_samples(), -43);
}

#[test]
fn argmin_first_minimum() {
    let v = [5u64, 3, 3, 7];
    assert_eq!(argmin_range(&v, 0, 4), 1);
    assert_eq!(argmin_range(&v, 2, 4), 0);
    assert_eq!(argmin_range(&v, 3, 10), 0);
    assert_eq!(argmin_range(&v, 3, 2), 0);
    assert_eq!(argmin_range(&v, 9, 12), 0);
}

#[test]
fn short_signal_is_one_slice() {
    let slicer = small_slicer();
    let lv = levels(&[1, 2, 3], 5);
    assert_eq!(slicer.slice(4, &lv), vec![(0, 4)]);
}

#[test]
fn no_silence_is_one_slice() {
    let slicer = small_slicer();
    let lv = levels(&[], 21);
    assert_eq!(slicer.find_silence_tags(&lv), vec![]);
    assert_eq!(slicer.slice(20, &lv), vec![(0, 20)]);
}

#[test]
fn long_middle_silence() {
    let slicer = small_slicer();
    let lv = levels(&[6, 7, 8, 9, 10], 21);
    assert_eq!(slicer.find_silence_tags(&lv), vec![(6, 9)]);
    assert_eq!(slicer.slice(20, &lv), vec![(0, 6), (9, 20)]);
}

#[test]
fn short_middle_silence_cut_at_its_minimum() {
    let slicer = small_slicer();
    let mut lv = levels(&[8, 9], 21);
    lv[8] = 5;
    lv[9] = 2;
    // the silence is shorter than the minimum interval: no cut
    assert_eq!(slicer.find_silence_tags(&lv), vec![]);
    let mut lv = levels(&[7, 8, 9], 21);
    lv[7] = 5;
    lv[8] = 2;
    lv[9] = 4;
    // three silent hops, one more than kept: cut at the quietest
    assert_eq!(slicer.find_silence_tags(&lv), vec![(8, 8)]);
    assert_eq!(slicer.slice(20, &lv), vec![(0, 8), (8, 20)]);
}

#[test]
fn medium_middle_silence() {
    let slicer = small_slicer();
    let mut lv = levels(&[6, 7, 8, 9], 21);
    lv[6] = 4;
    lv[7] = 1;
    lv[8] = 3;
    lv[9] = 2;
    // 4 silent hops: more than 2 kept, at most 4
    // pos = argmin over [8, 9) = 8; pos_l over [6, 9) = 7; pos_r over [8, 11) = 9
    assert_eq!(slicer.find_silence_tags(&lv), vec![(7, 9)]);
    assert_eq!(slicer.slice(20, &lv), vec![(0, 7), (9, 20)]);
}

#[test]
fn leading_silence() {
    let slicer = small_slicer();
    let lv = levels(&[0, 1, 2, 3], 21);
    assert_eq!(slicer.find_silence_tags(&lv), vec![(0, 2)]);
    assert_eq!(slicer.slice(20, &lv), vec![(2, 20)]);
}

#[test]
fn trailing_silence() {
    let slicer = small_slicer();
    let lv = levels(&[15, 16, 17, 18, 19, 20], 21);
    assert_eq!(slicer.find_silence_tags(&lv), vec![(15, 22)]);
    assert_eq!(slicer.slice(20, &lv), vec![(0, 15)]);
}

#[test]
fn all_silent_gives_no_slice() {
    let slicer = small_slicer();
    let lv = levels(&(0..21).collect::<Vec<_>>(), 21);
    assert_eq!(slicer.find_silence_tags(&lv), vec![(0, 22)]);
    assert_eq!(slicer.slice(20, &lv), vec![]);
}

#[test]
fn hop_of_several_frames() {
    let config = SliceConfig {
        threshold_level: 10,
        min_length: 10,
        min_interval: 6,
        hop_size: 2,
        max_sil_kept: 4,
    };
    let slicer = AudioSlicer::new(1000, config).unwrap();
    assert_eq!(slicer.hop_size_samples(), 2);
    // 41 frames, 41 / 2 + 1 = 21 levels
    let lv = levels(&[6, 7, 8, 9, 10], 21);
    assert_eq!(slicer.slice(41, &lv), vec![(0, 12), (18, 41)]);
}

#[test]
fn tags_to_chunks_clamps_to_the_frames() {
    let slicer = small_slicer();
    let lv = levels(&[], 11);
    assert_eq!(slicer.tags_to_chunks(&[], 10, &lv), vec![(0, 10)]);
    assert_eq!(slicer.tags_to_chunks(&[(2, 3), (5, 7)], 10, &lv), vec![(0, 2), (3, 5), (7, 10)]);
    assert_eq!(slicer.tags_to_chunks(&[(0, 3), (5, 12)], 10, &lv), vec![(3, 5)]);
}

#[test]
fn level_keys_of_floats_keep_their_order() {
    // non-negative doubles are ordered as their bit patterns
    let values = [0.0f64, 1e-300, 0.001, 0.01, 0.5, 1.0, 3.5, f64::INFINITY];
    for w in values.windows(2) {
        assert!(w[0].to_bits() < w[1].to_bits());
    }
}

fn feed(zeros_before: usize, start: usize, end: usize, zeros_after: usize) -> HopFeed {
    HopFeed { zeros_before, start, end, zeros_after }
}

#[test]
fn hop_feeds_of_one_sample_hops() {
    let slicer = small_slicer();
    // window 3: one zero of padding ahead
    assert_eq!(
        slicer.hop_feeds(3),
        vec![feed(1, 0, 1, 0), feed(0, 1, 2, 0), feed(0, 2, 3, 0), feed(0, 3, 3, 1)]
    );
}

#[test]
fn hop_feeds_of_two_sample_hops() {
    let config = SliceConfig {
        threshold_level: 10,
        min_length: 10,
        min_interval: 6,
        hop_size: 2,
        max_sil_kept: 4,
    };
    let slicer = AudioSlicer::new(1000, config).unwrap();
    assert_eq!(slicer.win_size_samples(), 6);
    assert_eq!(slicer.hop_feeds(5), vec![feed(3, 0, 3, 0), feed(0, 3, 5, 0), feed(0, 5, 5, 2)]);
    assert_eq!(slicer.hop_feeds(4), vec![feed(3, 0, 3, 0), feed(0, 3, 4, 1), feed(0, 4, 4, 2)]);
    // shorter than the padding
    assert_eq!(slicer.hop_feeds(1), vec![feed(3, 0, 1, 0)]);
}

/// Levels from a small linear congruential generator: runs of quiet and
/// loud hops of varying lengths, quiet levels below 10, loud ones above.
fn pseudo_levels(seed: u64, len: usize) -> Vec<u64> {
    let mut state = seed;
    let mut out = Vec::with_capacity(len);
    let mut quiet = false;
    while out.len() < len {
        state = state.wrapping_mul(6364136223846793005).wrapping_add(1442695040888963407);
        let run = 1 + ((state >> 33) % 9) as usize;
        for j in 0..run {
            if out.len() == len {
                break;
            }
            let v = (state >> (j % 20)) % 10;
            out.push(if quiet { v } else { 10 + v });
        }
        quiet = !quiet;
    }
    out
}

#[test]
fn slices_are_ordered_nonempty_and_drop_only_silence() {
    let slicer = small_slicer();
    for seed in 0..200u64 {
        let frames = 10 + (seed as usize * 7) % 60;
        let lv = pseudo_levels(seed, frames + 1);
        let chunks = slicer.slice(frames, &lv);
        for (k, &(a, b)) in chunks.iter().enumerate() {
            assert!(a < b && b <= frames, "seed {seed}: {chunks:?}");
            if k + 1 < chunks.len() {
                assert!(b <= chunks[k + 1].0, "seed {seed}: {chunks:?}");
            }
            // cuts at silent hops
            assert!(a == 0 || lv[a] < 10, "seed {seed}: {chunks:?}");
            assert!(b == frames || lv[b] < 10, "seed {seed}: {chunks:?}");
        }
        for x in 0..frames {
            if !chunks.iter().any(|&(a, b)| a <= x && x < b) {
                assert!(lv[x] < 10, "seed {seed}: frame {x} dropped from {chunks:?}");
            }
        }
    }
}

#[test]
fn hop_feeds_take_in_the_signal_in_order() {
    let config = SliceConfig {
        threshold_level: 10,
        min_length: 10,
        min_interval: 6,
        hop_size: 2,
        max_sil_kept: 4,
    };
    let slicer = AudioSlicer::new(1000, config).unwrap();
    for frames in 0..30 {
        let feeds = slicer.hop_feeds(frames);
        assert_eq!(feeds.len(), frames / 2 + 1);
        assert_eq!(feeds[0].start, 0);
        for k in 0..feeds.len() {
            assert!(feeds[k].start <= feeds[k].end && feeds[k].end <= frames);
            if k + 1 < feeds.len() {
                assert_eq!(feeds[k].end, feeds[k + 1].start);
            }
            if k > 0 {
                assert_eq!(feeds[k].zeros_before, 0);
                assert_eq!(feeds[k].end - feeds[k].start + feeds[k].zeros_after, 2);
            }
        }
    }
}
