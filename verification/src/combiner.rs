//! The combiner: the decoded tracks of one batch of input files, mixed on
//! request into one container.

use vstd::prelude::*;
use crate::container::{container, create_wav_container, MAX_SAMPLES};
use crate::gpu::{
    bytes_to_words, fits_device, lemma_device_matches_host, plan_upload, words_le, words_of,
    Upload,
};
use crate::mixer::{master, master_len, max_len, reduce};
use crate::sample::{
    lemma_missing_volume_is_full, volume_factors, volume_words, Track, FULL_VOLUME,
};

verus! {

/// Frames per second of every container that the combiner produces.
pub const SAMPLE_RATE: u32 = 44100;

/// The declared format of an input file, and the format of the output.
#[derive(Clone, Copy, Debug, PartialEq, Eq, Structural)]
pub enum SingleAudioFileType {
    Wav,
    Mpeg,
    Ogg,
}

impl SingleAudioFileType {
    /// The file extension that hints at this format to a decoder.
    pub fn extension(self) -> (ext: &'static str)
        ensures
            ext@ == (match self {
                SingleAudioFileType::Wav => "wav"@,
                SingleAudioFileType::Mpeg => "mp3"@,
                SingleAudioFileType::Ogg => "ogg"@,
            }),
    {
        match self {
            SingleAudioFileType::Wav => "wav",
            SingleAudioFileType::Mpeg => "mp3",
            SingleAudioFileType::Ogg => "ogg",
        }
    }
}

/// The bytes of one audio file with their format.
#[derive(Debug)]
pub struct SingleAudioFile {
    pub bytes: Vec<u8>,
    pub file_type: SingleAudioFileType,
}

impl SingleAudioFile {
    /// A file of the given bytes and format.
    pub fn new(bytes: Vec<u8>, file_type: SingleAudioFileType) -> (file: Self)
        ensures
            file.bytes == bytes,
            file.file_type == file_type,
    {
        Self { bytes, file_type }
    }
}

/// Why a batch could not be built or mixed.
#[derive(Debug)]
pub enum MixError {
    /// An input could not be decoded, or held no usable audio track.
    Decode(String),
    /// No compute device could be had, or its program could not be built.
    Device(String),
    /// The result could not be read back from the device.
    Sync(String),
    /// There are no tracks, or all of them are empty.
    EmptyInput,
}

impl MixError {
    /// The text of the error.
    pub open spec fn text(&self) -> Seq<char> {
        match self {
            MixError::Decode(text) => text@,
            MixError::Device(text) => text@,
            MixError::Sync(text) => text@,
            MixError::EmptyInput => "No data"@,
        }
    }

    /// A description for the caller.
    pub fn message(&self) -> (text: String)
        ensures
            text@ == self.text(),
    {
        match self {
            MixError::Decode(text) => text.clone(),
            MixError::Device(text) => text.clone(),
            MixError::Sync(text) => text.clone(),
            MixError::EmptyInput => "No data".to_owned(),
        }
    }
}

/// The outcome of a mixing pass as plain values: the bytes of the
/// container, or the error.
pub open spec fn outcome(result: Result<SingleAudioFile, MixError>) -> Result<Seq<u8>, MixError> {
    match result {
        Ok(file) => Ok(file.bytes@),
        Err(error) => Err(error),
    }
}

/// What mixing `tracks` at `volumes` gives: the container of the master
/// buffer, or an error where the master buffer would be empty.
pub open spec fn combined(tracks: Seq<Track>, volumes: Seq<u8>) -> Result<Seq<u8>, MixError> {
    if master_len(tracks) == 0 {
        Err(MixError::EmptyInput)
    } else {
        Ok(container(master(tracks, volume_words(volumes, tracks.len())), SAMPLE_RATE))
    }
}

/// The decoded tracks of one batch, in input order.
pub struct AudioCombiner {
    files: Vec<Track>,
}

impl AudioCombiner {
    /// The tracks, in input order.
    pub closed spec fn tracks(&self) -> Seq<Track> {
        self.files@
    }

    /// Builds the combiner from the outcome of decoding each input, in
    /// input order. One failure fails the whole batch, with the error of
    /// the first input that failed.
    pub fn new(decoded: Vec<Result<Track, String>>) -> (result: Result<AudioCombiner, MixError>)
        ensures
            match result {
                Ok(combiner) => {
                    &&& combiner.tracks().len() == decoded.len()
                    &&& forall|i: int|
                        0 <= i < decoded.len() ==> decoded@[i] == Ok::<Track, String>(
                            combiner.tracks()[i],
                        )
                },
                Err(error) => exists|i: int|
                    {
                        &&& 0 <= i < decoded.len()
                        &&& #[trigger] decoded@[i] is Err
                        &&& forall|j: int| 0 <= j < i ==> decoded@[j] is Ok
                        &&& error == MixError::Decode(decoded@[i]->Err_0)
                    },
            },
    {
        let mut files: Vec<Track> = Vec::new();
        for item in it: decoded
            invariant
                it.seq() == decoded@,
                files.len() == it.index(),
                forall|i: int|
                    0 <= i < it.index() ==> decoded@[i] == Ok::<Track, String>(files@[i]),
        {
            match item {
                Ok(track) => {
                    files.push(track);
                },
                Err(text) => {
                    return Err(MixError::Decode(text));
                },
            }
        }
        Ok(AudioCombiner { files })
    }

    /// Number of tracks.
    pub fn len(&self) -> (n: usize)
        ensures
            n == self.tracks().len(),
    {
        self.files.len()
    }

    /// Length of the master buffer that `combine` mixes.
    pub fn master_len(&self) -> (n: usize)
        ensures
            n == master_len(self.tracks()),
    {
        max_len(&self.files)
    }

    /// Tells whether the master buffer fits a container, which `combine`
    /// asks for.
    pub fn fits_container(&self) -> (ok: bool)
        ensures
            ok == (master_len(self.tracks()) <= MAX_SAMPLES),
    {
        max_len(&self.files) <= MAX_SAMPLES
    }

    /// Tells whether the tracks fit one upload, which `prepare` asks for.
    pub fn fits_device(&self) -> (ok: bool)
        ensures
            ok == fits_device(self.tracks()),
    {
        let count: usize = self.files.len();
        let len: usize = max_len(&self.files);
        if count > 0xffff_ffff || len > 0xffff_ffff {
            return false;
        }
        assert(count * len <= 0xffff_ffff * 0xffff_ffff) by (nonlinear_arith)
            requires
                count <= 0xffff_ffff,
                len <= 0xffff_ffff,
        ;
        4 * (count as u128 * len as u128) <= usize::MAX as u128
    }

    /// Mixes the tracks on the host at the given volumes, in percent and
    /// paired with the tracks by index, and encodes the master buffer.
    ///
    /// The precondition is the limit of the container's 32-bit size
    /// field.
    pub fn combine(&self, volumes: Vec<u8>) -> (result: Result<SingleAudioFile, MixError>)
        requires
            master_len(self.tracks()) <= MAX_SAMPLES,
        ensures
            outcome(result) == combined(self.tracks(), volumes@),
            result matches Ok(file) ==> file.file_type == SingleAudioFileType::Wav,
    {
        if max_len(&self.files) == 0 {
            return Err(MixError::EmptyInput);
        }
        let factors = volume_factors(&volumes, self.files.len());
        let mixed = reduce(&self.files, &factors);
        Ok(
            SingleAudioFile {
                bytes: create_wav_container(&mixed, SAMPLE_RATE),
                file_type: SingleAudioFileType::Wav,
            },
        )
    }

    /// Lays out what a compute device needs to mix the tracks at the
    /// given volumes.
    ///
    /// The precondition holds the limits of the device's 32-bit
    /// parameters and of the machine's address space.
    pub fn prepare(&self, volumes: &Vec<u8>) -> (result: Result<Upload, MixError>)
        requires
            fits_device(self.tracks()),
        ensures
            match result {
                Ok(plan) => master_len(self.tracks()) > 0 && plan.lays_out(
                    self.tracks(),
                    volume_words(volumes@, self.tracks().len()),
                ),
                Err(error) => master_len(self.tracks()) == 0 && error == MixError::EmptyInput,
            },
    {
        if max_len(&self.files) == 0 {
            return Err(MixError::EmptyInput);
        }
        let factors = volume_factors(volumes, self.files.len());
        Ok(plan_upload(&self.files, &factors))
    }
}

/// What reading back `staged` gives: the container of the words that the
/// staged bytes spell, or the synchronisation error.
pub open spec fn completed(readback: Result<Vec<u8>, String>) -> Result<Seq<u8>, MixError> {
    match readback {
        Ok(staged) => Ok(container(words_of(staged@), SAMPLE_RATE)),
        Err(text) => Err(MixError::Sync(text)),
    }
}

/// Finishes a device pass: encodes the bytes read back from the staging
/// buffer, or reports why they could not be read.
///
/// The precondition is the limit of the container's 32-bit size field.
pub fn complete(readback: Result<Vec<u8>, String>) -> (result: Result<SingleAudioFile, MixError>)
    requires
        readback matches Ok(staged) ==> staged.len() / 4 <= MAX_SAMPLES,
    ensures
        outcome(result) == completed(readback),
        result matches Ok(file) ==> file.file_type == SingleAudioFileType::Wav,
{
    match readback {
        Ok(staged) => {
            let master_buffer = bytes_to_words(&staged);
            Ok(
                SingleAudioFile {
                    bytes: create_wav_container(&master_buffer, SAMPLE_RATE),
                    file_type: SingleAudioFileType::Wav,
                },
            )
        },
        Err(text) => Err(MixError::Sync(text)),
    }
}

/// Mixing is a function of the tracks and the volumes: two passes over
/// the same inputs give the same bytes, or the same error.
pub proof fn lemma_combine_is_deterministic(
    tracks: Seq<Track>,
    volumes: Seq<u8>,
    first: Result<SingleAudioFile, MixError>,
    second: Result<SingleAudioFile, MixError>,
)
    requires
        outcome(first) == combined(tracks, volumes),
        outcome(second) == combined(tracks, volumes),
    ensures
        outcome(first) == outcome(second),
        first matches Ok(a) ==> second matches Ok(b) && a.bytes@ == b.bytes@,
        first is Err ==> second is Err,
{
}

/// The container is two bytes for each sample of the longest track,
/// after the header; without samples there is an error and no container.
pub proof fn lemma_combined_length(tracks: Seq<Track>, volumes: Seq<u8>)
    ensures
        master(tracks, volume_words(volumes, tracks.len())).len() == master_len(tracks),
        master_len(tracks) == 0 <==> combined(tracks, volumes) == Err::<Seq<u8>, MixError>(
            MixError::EmptyInput,
        ),
        combined(tracks, volumes) matches Ok(bytes) ==> bytes.len() == 44 + 2 * master_len(
            tracks,
        ),
{
}

/// A track without an entry in the volume list is mixed as if its entry
/// were 100.
pub proof fn lemma_missing_volume_mixes_at_full(tracks: Seq<Track>, volumes: Seq<u8>)
    ensures
        combined(tracks, volumes) == combined(tracks, volumes.push(FULL_VOLUME)),
{
    lemma_missing_volume_is_full(volumes, tracks.len());
}

/// The two strategies agree: what the device program leaves in the
/// staging buffer for the upload that `prepare` lays out encodes to the
/// container that `combine` gives.
pub proof fn lemma_strategies_agree(tracks: Seq<Track>, volumes: Seq<u8>, plan: Upload)
    requires
        fits_device(tracks),
        master_len(tracks) > 0,
        plan.lays_out(tracks, volume_words(volumes, tracks.len())),
    ensures
        plan.well_formed(),
        combined(tracks, volumes) == Ok::<Seq<u8>, MixError>(
            container(words_of(words_le(plan.output())), SAMPLE_RATE),
        ),
{
    lemma_device_matches_host(plan, tracks, volume_words(volumes, tracks.len()));
}

} // verus!
