//! The host reduction and the combiner built on it.

use audio_combiner::combiner::{AudioCombiner, MixError, SingleAudioFile, SingleAudioFileType};
use audio_combiner::container::create_wav_container;
use audio_combiner::mixer::{max_len, mix_sample, reduce, reduce_range};
use audio_combiner::sample::{volume_factors, Track};

fn bits(samples: &[f32]) -> Vec<u32> {
    samples.iter().map(|s| s.to_bits()).collect()
}

fn floats(words: &[u32]) -> Vec<f32> {
    words.iter().map(|w| f32::from_bits(*w)).collect()
}

fn mono(samples: &[f32]) -> Track {
    Track::from_interleaved(&bits(samples), 1)
}

fn stereo(samples: &[f32]) -> Track {
    Track::from_interleaved(&bits(samples), 2)
}

fn combiner(tracks: Vec<Track>) -> AudioCombiner {
    AudioCombiner::new(tracks.into_iter().map(Ok).collect()).unwrap()
}

/// The reduction written with the machine's own arithmetic.
fn by_machine(tracks: &[Vec<f32>], volumes: &[u8]) -> Vec<f32> {
    let len = tracks.iter().map(|t| t.len()).max().unwrap_or(0);
    (0..len)
        .map(|i| {
            let mut mixed = 0.0f32;
            for (t, track) in tracks.iter().enumerate() {
                let sample = if i < track.len() { track[i] } else { 0.0 };
                let factor = if t < volumes.len() { volumes[t] as f32 / 100.0 } else { 1.0 };
                mixed += sample * factor;
            }
            mixed
        })
        .collect()
}

#[test]
fn two_tracks_of_three_and_five_frames() {
    let t0 = [0.125f32, -0.5, 0.75];
    let t1 = [0.25f32, 0.5, -0.125, 0.625, -1.0];
    let tracks = vec![mono(&t0), mono(&t1)];
    let factors = volume_factors(&vec![100, 50], 2);
    let master = floats(&reduce(&tracks, &factors));
    assert_eq!(master.len(), 10);
    for frame in 0..5 {
        let want = if frame < 3 { t0[frame] + 0.5 * t1[frame] } else { 0.5 * t1[frame] };
        assert_eq!(master[2 * frame], want);
        assert_eq!(master[2 * frame + 1], want);
    }
    assert_eq!(master, vec![0.25, 0.25, -0.25, -0.25, 0.6875, 0.6875, 0.3125, 0.3125, -0.5, -0.5]);
}

#[test]
fn master_is_as_long_as_the_longest_track() {
    let tracks = vec![mono(&[0.1; 4]), mono(&[0.1; 9]), mono(&[0.1; 2]), Track::new()];
    assert_eq!(max_len(&tracks), 18);
    assert_eq!(reduce(&tracks, &Vec::new()).len(), 18);
    assert_eq!(max_len(&Vec::new()), 0);
    assert!(reduce(&Vec::new(), &Vec::new()).is_empty());
    assert_eq!(max_len(&vec![Track::new(), Track::new()]), 0);
}

#[test]
fn single_track_at_full_volume_is_unchanged() {
    let samples = [0.1f32, -0.2, 0.3, -0.4, 1.5, -2.5];
    let master = reduce(&vec![stereo(&samples)], &volume_factors(&vec![100], 1));
    assert_eq!(floats(&master), samples.to_vec());
}

#[test]
fn doubling_a_volume_doubles_the_contribution() {
    let samples = [0.1f32, -0.2, 0.3, -0.4, 0.77, -0.001];
    for percent in [1u8, 7, 33, 50, 100, 127] {
        let once = floats(&reduce(&vec![stereo(&samples)], &volume_factors(&vec![percent], 1)));
        let twice =
            floats(&reduce(&vec![stereo(&samples)], &volume_factors(&vec![2 * percent], 1)));
        for i in 0..samples.len() {
            assert_eq!(twice[i], 2.0 * once[i]);
        }
    }
}

#[test]
fn missing_factor_plays_at_full_volume() {
    let tracks = vec![stereo(&[0.25, 0.5]), stereo(&[0.125, 0.0625])];
    let short = reduce(&tracks, &volume_factors(&vec![50], 1));
    let full = reduce(&tracks, &volume_factors(&vec![50, 100], 2));
    assert_eq!(short, full);
    assert_eq!(floats(&short), vec![0.25, 0.3125]);
}

#[test]
fn mix_sample_adds_in_track_order() {
    // in this order the small terms are absorbed one by one
    let tracks = vec![stereo(&[16777216.0, 0.0]), stereo(&[1.0, 0.0]), stereo(&[1.0, 0.0])];
    let factors = volume_factors(&Vec::new(), 3);
    assert_eq!(f32::from_bits(mix_sample(&tracks, &factors, 0)), 16777216.0);
    let tracks = vec![stereo(&[1.0, 0.0]), stereo(&[1.0, 0.0]), stereo(&[16777216.0, 0.0])];
    assert_eq!(f32::from_bits(mix_sample(&tracks, &factors, 0)), 16777218.0);
}

#[test]
fn reduce_matches_machine_arithmetic() {
    let mut state: u64 = 7;
    let mut next = move || {
        state = state.wrapping_mul(6364136223846793005).wrapping_add(1442695040888963407);
        ((state >> 40) as i32 - (1 << 23)) as f32 / (1 << 22) as f32
    };
    let lens = [40usize, 64, 10, 0, 33];
    let sources: Vec<Vec<f32>> =
        lens.iter().map(|&n| (0..2 * n).map(|_| next()).collect()).collect();
    let tracks: Vec<Track> = sources.iter().map(|s| stereo(s)).collect();
    for volumes in [vec![], vec![100u8, 50], vec![37, 0, 255, 1, 99], vec![3, 3, 3, 3, 3, 3, 3]] {
        let master = reduce(&tracks, &volume_factors(&volumes, tracks.len()));
        assert_eq!(master, bits(&by_machine(&sources, &volumes)));
    }
}

#[test]
fn combine_encodes_the_master_buffer() {
    let c = combiner(vec![mono(&[0.125, -0.5, 0.75]), mono(&[0.25, 0.5, -0.125, 0.625, -1.0])]);
    let file = c.combine(vec![100, 50]).unwrap();
    assert!(matches!(file.file_type, SingleAudioFileType::Wav));
    let master =
        bits(&[0.25, 0.25, -0.25, -0.25, 0.6875, 0.6875, 0.3125, 0.3125, -0.5, -0.5]);
    assert_eq!(file.bytes, create_wav_container(&master, 44100));
    assert_eq!(file.bytes.len(), 44 + 20);
    assert_eq!(c.len(), 2);
    assert_eq!(c.master_len(), 10);
}

#[test]
fn combine_is_repeatable() {
    let c = combiner(vec![mono(&[0.3, 0.1, -0.9]), stereo(&[0.5, -0.5, 0.25, 0.75])]);
    let first = c.combine(vec![80, 120]).unwrap();
    let second = c.combine(vec![80, 120]).unwrap();
    assert_eq!(first.bytes, second.bytes);
}

#[test]
fn combine_without_volumes_uses_full_volume() {
    let c = combiner(vec![mono(&[0.3, 0.1]), mono(&[0.2])]);
    assert_eq!(c.combine(Vec::new()).unwrap().bytes, c.combine(vec![100, 100]).unwrap().bytes);
    assert_eq!(c.combine(vec![40]).unwrap().bytes, c.combine(vec![40, 100]).unwrap().bytes);
}

#[test]
fn combine_rejects_empty_input() {
    let none = combiner(Vec::new());
    assert!(matches!(none.combine(vec![100]), Err(MixError::EmptyInput)));
    let empty = combiner(vec![Track::new(), Track::new()]);
    let error = empty.combine(Vec::new()).unwrap_err();
    assert!(matches!(error, MixError::EmptyInput));
    assert_eq!(error.message(), "No data");
}

#[test]
fn one_decode_failure_fails_the_batch() {
    let decoded = vec![
        Ok(mono(&[0.1])),
        Err("unsupported format".to_string()),
        Ok(mono(&[0.2])),
        Err("No supported audio track".to_string()),
    ];
    match AudioCombiner::new(decoded) {
        Err(MixError::Decode(text)) => assert_eq!(text, "unsupported format"),
        _ => panic!("the batch must fail with the first decode error"),
    }
}

#[test]
fn tracks_keep_their_input_order() {
    let c = combiner(vec![mono(&[0.5]), mono(&[0.25])]);
    let ab = c.combine(vec![100, 0]).unwrap().bytes;
    let only_first = combiner(vec![mono(&[0.5])]).combine(vec![100]).unwrap().bytes;
    assert_eq!(ab, only_first);
}

#[test]
fn error_messages_carry_their_text() {
    assert_eq!(MixError::Decode("bad header".to_string()).message(), "bad header");
    assert_eq!(MixError::Device("no adapter".to_string()).message(), "no adapter");
    assert_eq!(MixError::Sync("lost".to_string()).message(), "lost");
}

#[test]
fn file_extension_hints() {
    assert_eq!(SingleAudioFileType::Wav.extension(), "wav");
    assert_eq!(SingleAudioFileType::Mpeg.extension(), "mp3");
    assert_eq!(SingleAudioFileType::Ogg.extension(), "ogg");
}

#[test]
fn single_audio_file_holds_what_it_was_given() {
    let file = SingleAudioFile::new(vec![1, 2, 3], SingleAudioFileType::Ogg);
    assert_eq!(file.bytes, vec![1, 2, 3]);
    assert!(matches!(file.file_type, SingleAudioFileType::Ogg));
}

#[test]
fn ranges_of_the_master_join_to_the_whole() {
    let tracks = vec![mono(&[0.1, 0.2, 0.3, 0.4]), stereo(&[0.5, -0.5, 0.25, -0.25, 0.7, 0.9])];
    let factors = volume_factors(&vec![30, 70], 2);
    let whole = reduce(&tracks, &factors);
    for mid in 0..=whole.len() {
        let mut joined = reduce_range(&tracks, &factors, 0, mid);
        joined.extend(reduce_range(&tracks, &factors, mid, whole.len()));
        assert_eq!(joined, whole);
    }
    assert_eq!(reduce_range(&tracks, &factors, 3, 5), whole[3..5].to_vec());
    assert!(reduce_range(&tracks, &factors, 4, 4).is_empty());
}
