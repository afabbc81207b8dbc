//! The container encoder: header fields, quantisation, and the whole
//! byte stream against a direct computation in machine arithmetic.

use audio_combiner::container::{create_wav_container, quantize, HEADER_LEN};

fn bits(samples: &[f32]) -> Vec<u32> {
    samples.iter().map(|s| s.to_bits()).collect()
}

/// The container computed with the machine's own arithmetic.
fn by_machine(samples: &[f32], sample_rate: u32) -> Vec<u8> {
    let mut wav = Vec::new();
    let data_size = (samples.len() * 2) as u32;
    wav.extend_from_slice(b"RIFF");
    wav.extend_from_slice(&(36 + data_size).to_le_bytes());
    wav.extend_from_slice(b"WAVE");
    wav.extend_from_slice(b"fmt ");
    wav.extend_from_slice(&16u32.to_le_bytes());
    wav.extend_from_slice(&1u16.to_le_bytes());
    wav.extend_from_slice(&2u16.to_le_bytes());
    wav.extend_from_slice(&sample_rate.to_le_bytes());
    wav.extend_from_slice(&(sample_rate * 4).to_le_bytes());
    wav.extend_from_slice(&4u16.to_le_bytes());
    wav.extend_from_slice(&16u16.to_le_bytes());
    wav.extend_from_slice(b"data");
    wav.extend_from_slice(&data_size.to_le_bytes());
    for &sample in samples {
        let clamped = sample.clamp(-1.0, 1.0);
        let s = (clamped * i16::MAX as f32) as i16;
        wav.extend_from_slice(&s.to_le_bytes());
    }
    wav
}

#[test]
fn header_is_44_bytes_for_no_samples() {
    let wav = create_wav_container(&Vec::new(), 44100);
    assert_eq!(HEADER_LEN, 44);
    assert_eq!(wav.len(), 44);
    assert_eq!(
        wav,
        vec![
            0x52, 0x49, 0x46, 0x46, 36, 0, 0, 0, 0x57, 0x41, 0x56, 0x45, 0x66, 0x6d, 0x74, 0x20,
            16, 0, 0, 0, 1, 0, 2, 0, 0x44, 0xac, 0, 0, 0x10, 0xb1, 0x02, 0, 4, 0, 16, 0, 0x64,
            0x61, 0x74, 0x61, 0, 0, 0, 0,
        ]
    );
}

#[test]
fn header_fields_follow_length_and_rate() {
    let samples = bits(&[0.0; 1000]);
    let wav = create_wav_container(&samples, 48000);
    assert_eq!(wav.len(), 44 + 2000);
    assert_eq!(&wav[0..4], b"RIFF");
    assert_eq!(u32::from_le_bytes([wav[4], wav[5], wav[6], wav[7]]), 36 + 2000);
    assert_eq!(&wav[8..12], b"WAVE");
    assert_eq!(&wav[12..16], b"fmt ");
    assert_eq!(u32::from_le_bytes([wav[16], wav[17], wav[18], wav[19]]), 16);
    assert_eq!(u16::from_le_bytes([wav[20], wav[21]]), 1);
    assert_eq!(u16::from_le_bytes([wav[22], wav[23]]), 2);
    assert_eq!(u32::from_le_bytes([wav[24], wav[25], wav[26], wav[27]]), 48000);
    assert_eq!(u32::from_le_bytes([wav[28], wav[29], wav[30], wav[31]]), 192000);
    assert_eq!(u16::from_le_bytes([wav[32], wav[33]]), 4);
    assert_eq!(u16::from_le_bytes([wav[34], wav[35]]), 16);
    assert_eq!(&wav[36..40], b"data");
    assert_eq!(u32::from_le_bytes([wav[40], wav[41], wav[42], wav[43]]), 2000);
}

#[test]
fn silence_encodes_to_zero_bytes() {
    for len in [0usize, 1, 2, 7, 256] {
        let wav = create_wav_container(&vec![0u32; len], 44100);
        assert_eq!(wav.len(), 44 + 2 * len);
        assert!(wav[44..].iter().all(|&b| b == 0));
    }
}

#[test]
fn full_scale_quantises_to_the_extremes() {
    assert_eq!(quantize(1.0f32.to_bits()), 32767);
    assert_eq!(quantize((-1.0f32).to_bits()), -32767);
    assert_eq!(quantize(0.0f32.to_bits()), 0);
    assert_eq!(quantize((-0.0f32).to_bits()), 0);
}

#[test]
fn out_of_range_samples_are_clamped() {
    assert_eq!(quantize(1.5f32.to_bits()), 32767);
    assert_eq!(quantize((-7.0f32).to_bits()), -32767);
    assert_eq!(quantize(f32::INFINITY.to_bits()), 32767);
    assert_eq!(quantize(f32::NEG_INFINITY.to_bits()), -32767);
    assert_eq!(quantize(f32::NAN.to_bits()), 0);
}

#[test]
fn quantisation_cuts_off_toward_zero() {
    assert_eq!(quantize(0.5f32.to_bits()), 16383);
    assert_eq!(quantize((-0.5f32).to_bits()), -16383);
    assert_eq!(quantize(0.25f32.to_bits()), 8191);
    assert_eq!(quantize(0.00001f32.to_bits()), 0);
    assert_eq!(quantize((1.0f32 / 32767.0).to_bits()), 1);
}

#[test]
fn quantize_matches_hardware() {
    let mut state: u64 = 99;
    for _ in 0..200_000 {
        state = state.wrapping_mul(6364136223846793005).wrapping_add(1442695040888963407);
        let w = (state >> 32) as u32;
        let x = f32::from_bits(w);
        let want = if x.is_nan() { 0 } else { (x.clamp(-1.0, 1.0) * 32767.0) as i16 };
        assert_eq!(quantize(w), want, "{:08x}", w);
    }
    let mut x = -1.25f32;
    while x < 1.25 {
        assert_eq!(quantize(x.to_bits()), (x.clamp(-1.0, 1.0) * 32767.0) as i16, "{}", x);
        x += 0.000_037;
    }
}

#[test]
fn samples_are_written_little_endian() {
    let wav = create_wav_container(&bits(&[1.0, -1.0, 0.5, -0.5]), 8000);
    assert_eq!(&wav[44..], &[0xff, 0x7f, 0x01, 0x80, 0xff, 0x3f, 0x01, 0xc0]);
}

#[test]
fn container_matches_direct_computation() {
    let mut samples = Vec::new();
    let mut x = -1.3f32;
    while x < 1.3 {
        samples.push(x);
        x += 0.0137;
    }
    samples.push(f32::MIN_POSITIVE);
    samples.push(-3.0e-39);
    assert_eq!(create_wav_container(&bits(&samples), 44100), by_machine(&samples, 44100));
    assert_eq!(create_wav_container(&bits(&samples), 22050), by_machine(&samples, 22050));
}
