use audio_core::resampler::{deinterleave, interleave, padded_chunk};
use audio_core::Resampler;

#[test]
fn keeps_its_rates() {
    let r = Resampler::new(44100, 16000);
    assert_eq!(r.input_rate(), 44100);
    assert_eq!(r.output_rate(), 16000);
}

#[test]
fn deinterleave_splits_by_channel() {
    let x = [1.0f32, 2.0, 3.0, 4.0, 5.0, 6.0, 7.0];
    let d = deinterleave(&x, 2);
    assert_eq!(d, vec![vec![1.0, 3.0, 5.0, 7.0], vec![2.0, 4.0, 6.0]]);
    let d3 = deinterleave(&[1u8, 2, 3, 4, 5, 6], 3);
    assert_eq!(d3, vec![vec![1, 4], vec![2, 5], vec![3, 6]]);
    let d4 = deinterleave(&[1u8, 2], 4);
    assert_eq!(d4, vec![vec![1], vec![2], vec![], vec![]]);
}

#[test]
fn interleave_joins_frames() {
    let chs = vec![vec![1u8, 3, 5], vec![2, 4, 6]];
    assert_eq!(interleave(&chs), vec![1, 2, 3, 4, 5, 6]);
    let ragged = vec![vec![1u8, 3, 5], vec![2]];
    assert_eq!(interleave(&ragged), vec![1, 2, 3, 5]);
    let first_shorter = vec![vec![1u8], vec![2, 4]];
    assert_eq!(interleave(&first_shorter), vec![1, 2]);
}

#[test]
fn interleave_undoes_deinterleave() {
    let x: Vec<f32> = (0..11).map(|i| i as f32 * 0.5).collect();
    for c in 1..5 {
        assert_eq!(interleave(&deinterleave(&x, c)), x);
    }
}

#[test]
fn padded_chunk_pads_short_blocks() {
    let chs = vec![vec![1.0f32, 2.0, 3.0, 4.0, 5.0], vec![6.0, 7.0, 8.0, 9.0, 10.0]];
    let full = padded_chunk(&chs, 1, 4, 3, 0.0);
    assert_eq!(full, vec![vec![2.0, 3.0, 4.0], vec![7.0, 8.0, 9.0]]);
    let short = padded_chunk(&chs, 3, 5, 4, 0.0);
    assert_eq!(short, vec![vec![4.0, 5.0, 0.0, 0.0], vec![9.0, 10.0, 0.0, 0.0]]);
    let long = padded_chunk(&chs, 0, 5, 2, 0.0);
    assert_eq!(long, chs);
}
