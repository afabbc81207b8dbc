//! The device strategy: grid, layout, upload bytes, the device program
//! run on the host, and the order of the steps of a pass.

use audio_combiner::binary32::ONE;
use audio_combiner::combiner::{complete, AudioCombiner, MixError, SingleAudioFileType};
use audio_combiner::gpu::{
    bytes_to_words, dispatch_grid, execute, flatten, invocation_index, invoke, param_block,
    plan_upload, words_to_bytes, DispatchGrid, ROW, WORKGROUP_SIZE, X_GROUPS,
};
use audio_combiner::handshake::{failure_error, first_step, next_step, Failure, Report, Step};
use audio_combiner::mixer::reduce;
use audio_combiner::sample::{volume_factors, Track};

fn bits(samples: &[f32]) -> Vec<u32> {
    samples.iter().map(|s| s.to_bits()).collect()
}

fn mono(samples: &[f32]) -> Track {
    Track::from_interleaved(&bits(samples), 1)
}

fn sample_tracks() -> Vec<Track> {
    vec![mono(&[0.125, -0.5, 0.75]), mono(&[0.25, 0.5, -0.125, 0.625, -1.0]), Track::new()]
}

#[test]
fn grid_has_fixed_width_and_enough_rows() {
    assert_eq!(X_GROUPS * WORKGROUP_SIZE, ROW);
    assert_eq!(dispatch_grid(0), DispatchGrid { x_groups: 16384, y_groups: 0 });
    assert_eq!(dispatch_grid(1), DispatchGrid { x_groups: 16384, y_groups: 1 });
    assert_eq!(dispatch_grid(256), DispatchGrid { x_groups: 16384, y_groups: 1 });
    assert_eq!(dispatch_grid(4_194_304), DispatchGrid { x_groups: 16384, y_groups: 1 });
    assert_eq!(dispatch_grid(4_194_305), DispatchGrid { x_groups: 16384, y_groups: 2 });
    assert_eq!(dispatch_grid(10_000_000), DispatchGrid { x_groups: 16384, y_groups: 3 });
    assert_eq!(dispatch_grid(u32::MAX), DispatchGrid { x_groups: 16384, y_groups: 1024 });
}

#[test]
fn invocation_index_is_row_major() {
    assert_eq!(invocation_index(0, 0, 16384), 0);
    assert_eq!(invocation_index(5, 0, 16384), 5);
    assert_eq!(invocation_index(0, 1, 16384), 4_194_304);
    assert_eq!(invocation_index(7, 2, 16384), 8_388_615);
    assert_eq!(invocation_index(4_194_303, 1023, 16384), u32::MAX as u64);
    assert_eq!(invocation_index(3, 2, 4), 2051);
}

#[test]
fn flat_layout_gives_each_track_a_zeroed_slot() {
    let flat = flatten(&sample_tracks(), 10);
    let want = bits(&[
        0.125, 0.125, -0.5, -0.5, 0.75, 0.75, 0.0, 0.0, 0.0, 0.0, 0.25, 0.25, 0.5, 0.5, -0.125,
        -0.125, 0.625, 0.625, -1.0, -1.0, 0.0, 0.0, 0.0, 0.0, 0.0, 0.0, 0.0, 0.0, 0.0, 0.0,
    ]);
    assert_eq!(flat, want);
    assert!(flatten(&Vec::new(), 10).is_empty());
    assert!(flatten(&sample_tracks(), 0).is_empty());
}

#[test]
fn param_block_is_two_little_endian_words() {
    assert_eq!(param_block(3, 10), vec![3, 0, 0, 0, 10, 0, 0, 0]);
    assert_eq!(param_block(0x0102_0304, 0xa0b0_c0d0), vec![4, 3, 2, 1, 0xd0, 0xc0, 0xb0, 0xa0]);
}

#[test]
fn words_and_bytes_round_trip() {
    let words = vec![0u32, 1, 0x3f80_0000, 0xdead_beef, u32::MAX];
    let bytes = words_to_bytes(&words);
    assert_eq!(bytes.len(), 20);
    assert_eq!(&bytes[8..12], &1.0f32.to_le_bytes());
    assert_eq!(&bytes[12..16], &[0xef, 0xbe, 0xad, 0xde]);
    assert_eq!(bytes_to_words(&bytes), words);
}

#[test]
fn trailing_bytes_of_a_readback_are_ignored() {
    assert_eq!(bytes_to_words(&vec![1, 0, 0, 0, 2, 0, 0]), vec![1]);
    assert!(bytes_to_words(&vec![1, 2, 3]).is_empty());
}

#[test]
fn upload_plan_describes_the_pass() {
    let tracks = sample_tracks();
    let plan = plan_upload(&tracks, &volume_factors(&vec![100, 50], 2));
    assert_eq!(plan.params, vec![3, 0, 0, 0, 10, 0, 0, 0]);
    assert_eq!(bytes_to_words(&plan.volumes), vec![ONE, 0x3f00_0000, ONE]);
    assert_eq!(bytes_to_words(&plan.samples), flatten(&tracks, 10));
    assert_eq!(plan.samples.len(), 3 * 10 * 4);
    assert_eq!(plan.output_bytes, 40);
    assert_eq!(plan.grid, DispatchGrid { x_groups: 16384, y_groups: 1 });
}

#[test]
fn one_invocation_writes_one_output_sample() {
    let tracks = sample_tracks();
    let flat = flatten(&tracks, 10);
    let volumes = volume_factors(&vec![100, 50], 3);
    let mut output = vec![0u32; 10];
    invoke(3, 10, &volumes, &flat, &mut output, 4, 0, 16384);
    let mut want = vec![0u32; 10];
    want[4] = 0.6875f32.to_bits();
    assert_eq!(output, want);
    // an invocation past the end of the buffer does nothing
    invoke(3, 10, &volumes, &flat, &mut output, 10, 0, 16384);
    invoke(3, 10, &volumes, &flat, &mut output, 4, 1, 16384);
    assert_eq!(output, want);
}

#[test]
fn device_program_matches_host_reduction() {
    let tracks = sample_tracks();
    for volumes in [vec![], vec![100u8, 50], vec![10, 20, 30], vec![255, 255, 255, 255]] {
        let factors = volume_factors(&volumes, tracks.len());
        let staged = execute(&plan_upload(&tracks, &factors));
        assert_eq!(bytes_to_words(&staged), reduce(&tracks, &factors));
    }
}

#[test]
fn both_strategies_give_the_same_container() {
    let tracks = sample_tracks();
    let c = AudioCombiner::new(tracks.into_iter().map(Ok).collect()).unwrap();
    let plan = c.prepare(&vec![100, 50]).unwrap();
    let file = complete(Ok(execute(&plan))).unwrap();
    assert!(matches!(file.file_type, SingleAudioFileType::Wav));
    assert_eq!(file.bytes, c.combine(vec![100, 50]).unwrap().bytes);
}

#[test]
fn prepare_rejects_empty_input() {
    let c = AudioCombiner::new(vec![Ok(Track::new())]).unwrap();
    assert!(matches!(c.prepare(&vec![100]), Err(MixError::EmptyInput)));
    let c = AudioCombiner::new(Vec::new()).unwrap();
    assert!(matches!(c.prepare(&Vec::new()), Err(MixError::EmptyInput)));
}

#[test]
fn failed_readback_is_a_sync_error() {
    match complete(Err("Channel sender dropped".to_string())) {
        Err(MixError::Sync(text)) => assert_eq!(text, "Channel sender dropped"),
        _ => panic!("a failed readback must give a synchronisation error"),
    }
}

#[test]
fn readback_is_encoded_as_it_is() {
    let staged = words_to_bytes(&bits(&[1.0, -1.0]));
    let file = complete(Ok(staged)).unwrap();
    assert_eq!(&file.bytes[44..], &[0xff, 0x7f, 0x01, 0x80]);
}

#[test]
fn a_pass_runs_submit_map_poll_await_read_unmap() {
    let mut step = first_step();
    let mut seen = vec![step];
    while step != Step::Finished {
        step = next_step(step, Report::Done);
        seen.push(step);
    }
    assert_eq!(
        seen,
        vec![
            Step::Submit,
            Step::RequestMap,
            Step::Poll,
            Step::Await,
            Step::Read,
            Step::Unmap,
            Step::Finished
        ]
    );
}

#[test]
fn a_pending_signal_polls_again() {
    assert_eq!(next_step(Step::Await, Report::Pending), Step::Poll);
    assert_eq!(next_step(Step::Poll, Report::Done), Step::Await);
}

#[test]
fn failures_end_the_pass() {
    assert_eq!(next_step(Step::Poll, Report::Failed), Step::Failed(Failure::PollFailed));
    assert_eq!(next_step(Step::Await, Report::Failed), Step::Failed(Failure::MapRejected));
    assert_eq!(next_step(Step::Await, Report::Closed), Step::Failed(Failure::ChannelClosed));
    assert_eq!(next_step(Step::Submit, Report::Pending), Step::Failed(Failure::OutOfOrder));
    assert_eq!(next_step(Step::Read, Report::Closed), Step::Failed(Failure::OutOfOrder));
    for report in [Report::Done, Report::Pending, Report::Failed, Report::Closed] {
        assert_eq!(next_step(Step::Finished, report), Step::Finished);
        assert_eq!(
            next_step(Step::Failed(Failure::MapRejected), report),
            Step::Failed(Failure::MapRejected)
        );
    }
}

#[test]
fn failures_become_sync_errors() {
    let texts = [
        (Failure::PollFailed, "Device poll failed"),
        (Failure::MapRejected, "Buffer mapping failed"),
        (Failure::ChannelClosed, "Channel sender dropped"),
        (Failure::OutOfOrder, "Device pass out of order"),
    ];
    for (failure, want) in texts {
        match failure_error(failure) {
            MixError::Sync(text) => assert_eq!(text, want),
            _ => panic!("a failed pass must give a synchronisation error"),
        }
    }
}

#[test]
fn planned_upload_is_well_formed() {
    let tracks = sample_tracks();
    let mut plan = plan_upload(&tracks, &Vec::new());
    assert!(plan.check());
    plan.samples.truncate(plan.samples.len() - 4);
    assert!(!plan.check());
    let mut plan = plan_upload(&tracks, &Vec::new());
    plan.volumes.truncate(8);
    assert!(!plan.check());
    let mut plan = plan_upload(&tracks, &Vec::new());
    plan.params.push(0);
    assert!(!plan.check());
    let mut plan = plan_upload(&tracks, &Vec::new());
    plan.grid.x_groups = 65536;
    assert!(!plan.check());
}

#[test]
fn small_batches_fit_container_and_device() {
    let c = AudioCombiner::new(sample_tracks().into_iter().map(Ok).collect()).unwrap();
    assert!(c.fits_container());
    assert!(c.fits_device());
    let none = AudioCombiner::new(Vec::new()).unwrap();
    assert!(none.fits_container());
    assert!(none.fits_device());
}
