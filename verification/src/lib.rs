//! Mixing of decoded audio tracks into one stereo master buffer and its
//! serialisation as a 16-bit PCM RIFF/WAVE container.
//!
//! Samples are binary32 numbers held as their 32-bit words; `binary32`
//! does the arithmetic on them. `sample` normalises decoded streams to
//! stereo tracks, `mixer` reduces the tracks to the master buffer on the
//! host, `gpu` lays the same reduction out for a compute device,
//! `handshake` orders the steps of a device pass, `container` encodes the
//! master buffer, and `combiner` ties them together.

pub mod binary32;
pub mod combiner;
pub mod container;
pub mod gpu;
pub mod handshake;
pub mod mixer;
pub mod sample;

pub use crate::combiner::{AudioCombiner, MixError, SingleAudioFile, SingleAudioFileType};
