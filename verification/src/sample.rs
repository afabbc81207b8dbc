//! The sample buffer model: tracks of interleaved stereo samples, each
//! sample the word of a binary32 number, and volume percentages with
//! their linear factors.

use vstd::prelude::*;
use crate::binary32::{from_percent, lemma_percent_word_ends, percent_word, ONE};

verus! {

/// The volume, in percent, of a track that the volume list has no entry
/// for.
pub const FULL_VOLUME: u8 = 100;

/// The sample at `i`, and silence past the end.
pub open spec fn sample_at(samples: Seq<u32>, i: int) -> u32 {
    if 0 <= i < samples.len() {
        samples[i]
    } else {
        0
    }
}

/// Interleaved stereo from interleaved frames of `channels` samples: the
/// left sample is channel 0, the right one channel 1, or channel 0 again
/// where there is no other; further channels are dropped.
pub open spec fn stereo(samples: Seq<u32>, channels: nat) -> Seq<u32> {
    Seq::new(
        2 * (samples.len() / channels),
        |j: int|
            samples[(j / 2) * channels + if channels > 1 && j % 2 == 1 {
                1int
            } else {
                0int
            }],
    )
}

/// The volume of track `t` in percent: its entry in the list, or full
/// volume where the list is too short.
pub open spec fn volume_percent(volumes: Seq<u8>, t: int) -> u8 {
    if 0 <= t < volumes.len() {
        volumes[t]
    } else {
        100
    }
}

/// Frame `f` of `frames` starts inside the samples.
proof fn lemma_frame_start(f: nat, frames: nat, channels: nat, len: nat)
    by (nonlinear_arith)
    requires
        f < frames,
        channels >= 1,
        frames == len / channels,
    ensures
        f * channels + channels <= len,
{
}

/// Normalises interleaved frames of `channels` samples to interleaved
/// stereo.
pub fn to_stereo(samples: &Vec<u32>, channels: usize) -> (out: Vec<u32>)
    requires
        channels >= 1,
        samples.len() % channels == 0,
    ensures
        out@ == stereo(samples@, channels as nat),
{
    let frames: usize = samples.len() / channels;
    let mut out: Vec<u32> = Vec::new();
    let mut f: usize = 0;
    while f < frames
        invariant
            channels >= 1,
            frames == samples.len() / channels,
            f <= frames,
            out.len() == 2 * f,
            forall|j: int| 0 <= j < 2 * f ==> out@[j] == stereo(samples@, channels as nat)[j],
        decreases frames - f,
    {
        proof {
            lemma_frame_start(f as nat, frames as nat, channels as nat, samples.len() as nat);
        }
        let base: usize = f * channels;
        let left: u32 = samples[base];
        let right: u32 = if channels > 1 {
            samples[base + 1]
        } else {
            left
        };
        out.push(left);
        out.push(right);
        proof {
            assert forall|j: int| 0 <= j < 2 * (f + 1) implies out@[j] == stereo(
                samples@,
                channels as nat,
            )[j] by {
                if j >= 2 * f {
                    assert(j / 2 == f as int);
                }
            }
        }
        f = f + 1;
    }
    assert(out@ =~= stereo(samples@, channels as nat));
    out
}

/// One decoded input stream, normalised to interleaved stereo.
pub struct Track {
    samples: Vec<u32>,
}

impl View for Track {
    type V = Seq<u32>;

    closed spec fn view(&self) -> Seq<u32> {
        self.samples@
    }
}

impl Track {
    #[verifier::type_invariant]
    spec fn whole_frames(&self) -> bool {
        self.samples@.len() % 2 == 0
    }

    /// A track without samples.
    pub fn new() -> (track: Track)
        ensures
            track@ == Seq::<u32>::empty(),
    {
        Track { samples: Vec::new() }
    }

    /// The track of one decoded stream of `channels`-channel frames.
    pub fn from_interleaved(samples: &Vec<u32>, channels: usize) -> (track: Track)
        requires
            channels >= 1,
            samples.len() % channels == 0,
        ensures
            track@ == stereo(samples@, channels as nat),
    {
        Track { samples: to_stereo(samples, channels) }
    }

    /// The track with one more decoded block of `channels`-channel frames
    /// at its end.
    pub fn append_interleaved(self, samples: &Vec<u32>, channels: usize) -> (track: Track)
        requires
            channels >= 1,
            samples.len() % channels == 0,
        ensures
            track@ == self@ + stereo(samples@, channels as nat),
    {
        proof {
            use_type_invariant(&self);
        }
        let mut all = self.samples;
        let mut more = to_stereo(samples, channels);
        all.append(&mut more);
        Track { samples: all }
    }

    /// Number of samples, which is twice the number of frames.
    pub fn len(&self) -> (n: usize)
        ensures
            n == self@.len(),
            n % 2 == 0,
    {
        proof {
            use_type_invariant(self);
        }
        self.samples.len()
    }

    /// The sample at `i`, and silence past the end.
    pub fn sample(&self, i: usize) -> (s: u32)
        ensures
            s == sample_at(self@, i as int),
    {
        if i < self.samples.len() {
            self.samples[i]
        } else {
            0
        }
    }
}

/// The linear factors of the first `count` tracks: each track's
/// percentage divided by one hundred, full volume for a track without an
/// entry.
pub open spec fn volume_words(volumes: Seq<u8>, count: nat) -> Seq<u32> {
    Seq::new(count, |t: int| percent_word(volume_percent(volumes, t)))
}

/// Converts the volume list to the linear factors of the first `count`
/// tracks.
pub fn volume_factors(volumes: &Vec<u8>, count: usize) -> (factors: Vec<u32>)
    ensures
        factors@ == volume_words(volumes@, count as nat),
{
    let mut factors: Vec<u32> = Vec::new();
    let mut t: usize = 0;
    while t < count
        invariant
            t <= count,
            factors.len() == t,
            forall|k: int| 0 <= k < t ==> factors@[k] == percent_word(volume_percent(volumes@, k)),
        decreases count - t,
    {
        let percent: u8 = if t < volumes.len() {
            volumes[t]
        } else {
            FULL_VOLUME
        };
        factors.push(from_percent(percent));
        t = t + 1;
    }
    assert(factors@ =~= volume_words(volumes@, count as nat));
    factors
}

/// A mono stream becomes stereo by playing each sample on both channels.
pub proof fn lemma_mono_is_duplicated(samples: Seq<u32>)
    ensures
        stereo(samples, 1).len() == 2 * samples.len(),
        forall|i: int|
            0 <= i < samples.len() ==> #[trigger] stereo(samples, 1)[2 * i] == samples[i]
                && stereo(samples, 1)[2 * i + 1] == samples[i],
{
}

/// A stream of two or more channels keeps the first two of each frame.
pub proof fn lemma_first_two_channels_are_kept(samples: Seq<u32>, channels: nat, f: int)
    requires
        channels >= 2,
        0 <= f < samples.len() / channels,
    ensures
        stereo(samples, channels).len() == 2 * (samples.len() / channels),
        stereo(samples, channels)[2 * f] == samples[f * channels],
        stereo(samples, channels)[2 * f + 1] == samples[f * channels + 1],
{
}

/// A track without an entry in the volume list plays as if its entry
/// were 100: adding that entry to the list changes no factor.
pub proof fn lemma_missing_volume_is_full(volumes: Seq<u8>, count: nat)
    ensures
        volume_words(volumes, count) == volume_words(volumes.push(FULL_VOLUME), count),
        forall|t: int|
            volumes.len() <= t < count ==> #[trigger] volume_words(volumes, count)[t] == ONE,
{
    lemma_percent_word_ends();
    assert(volume_words(volumes, count) =~= volume_words(volumes.push(FULL_VOLUME), count));
}

} // verus!
