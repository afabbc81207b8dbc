//! The sample buffer model: stereo normalisation, tracks and volumes.

use audio_combiner::binary32::ONE;
use audio_combiner::sample::{to_stereo, volume_factors, Track, FULL_VOLUME};

fn bits(samples: &[f32]) -> Vec<u32> {
    samples.iter().map(|s| s.to_bits()).collect()
}

fn floats(words: &[u32]) -> Vec<f32> {
    words.iter().map(|w| f32::from_bits(*w)).collect()
}

fn contents(track: &Track) -> Vec<u32> {
    (0..track.len()).map(|i| track.sample(i)).collect()
}

#[test]
fn mono_is_duplicated_into_both_channels() {
    let out = to_stereo(&bits(&[0.1, 0.2, 0.3]), 1);
    assert_eq!(floats(&out), vec![0.1, 0.1, 0.2, 0.2, 0.3, 0.3]);
}

#[test]
fn stereo_passes_through() {
    let input = bits(&[0.1, -0.1, 0.2, -0.2]);
    assert_eq!(to_stereo(&input, 2), input);
}

#[test]
fn channels_beyond_the_second_are_dropped() {
    let input = bits(&[1.0, 2.0, 3.0, 4.0, 5.0, 6.0, 7.0, 8.0, 9.0, 10.0, 11.0, 12.0]);
    assert_eq!(floats(&to_stereo(&input, 3)), vec![1.0, 2.0, 4.0, 5.0, 7.0, 8.0, 10.0, 11.0]);
    assert_eq!(floats(&to_stereo(&input, 6)), vec![1.0, 2.0, 7.0, 8.0]);
}

#[test]
fn empty_stream_gives_empty_stereo() {
    assert!(to_stereo(&Vec::new(), 1).is_empty());
    assert!(to_stereo(&Vec::new(), 5).is_empty());
}

#[test]
fn new_track_is_empty() {
    let track = Track::new();
    assert_eq!(track.len(), 0);
    assert_eq!(track.sample(0), 0);
}

#[test]
fn track_is_silent_past_its_end() {
    let track = Track::from_interleaved(&bits(&[0.5, 0.25]), 1);
    assert_eq!(track.len(), 4);
    assert_eq!(contents(&track), bits(&[0.5, 0.5, 0.25, 0.25]));
    assert_eq!(track.sample(4), 0);
    assert_eq!(track.sample(usize::MAX), 0);
}

#[test]
fn track_grows_block_by_block() {
    let track = Track::new()
        .append_interleaved(&bits(&[0.1, 0.2]), 2)
        .append_interleaved(&bits(&[0.3]), 1)
        .append_interleaved(&bits(&[0.4, 0.5, 0.6]), 3);
    assert_eq!(contents(&track), bits(&[0.1, 0.2, 0.3, 0.3, 0.4, 0.5]));
    assert_eq!(track.len() % 2, 0);
}

#[test]
fn volumes_become_linear_factors() {
    let factors = volume_factors(&vec![100, 50, 0, 200, 25], 5);
    assert_eq!(floats(&factors), vec![1.0, 0.5, 0.0, 2.0, 0.25]);
    let factors = volume_factors(&vec![33, 1, 255], 3);
    assert_eq!(floats(&factors), vec![33.0f32 / 100.0, 1.0f32 / 100.0, 255.0f32 / 100.0]);
}

#[test]
fn missing_volume_defaults_to_full() {
    assert_eq!(FULL_VOLUME, 100);
    assert_eq!(volume_factors(&vec![50], 3), vec![0x3f00_0000, ONE, ONE]);
    assert_eq!(volume_factors(&Vec::new(), 2), vec![ONE, ONE]);
    assert_eq!(volume_factors(&vec![50], 3), volume_factors(&vec![50, 100, 100], 3));
}

#[test]
fn surplus_volumes_are_ignored() {
    assert_eq!(volume_factors(&vec![10, 20, 30], 1), vec![(10.0f32 / 100.0).to_bits()]);
    assert!(volume_factors(&vec![10, 20, 30], 0).is_empty());
}
