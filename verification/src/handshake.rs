//! The order of the steps of one device pass. The host carries each step
//! out and reports how it went; the next step follows from the two.
//!
//! The host suspends in one place only, while it awaits the signal that
//! the staging buffer is mapped, and it reads the buffer only after that
//! signal. A device that makes no progress on its own is driven by
//! polling it again each time the signal is still pending.

use vstd::prelude::*;
use crate::combiner::MixError;

verus! {

/// Why a device pass stopped early.
#[derive(Clone, Copy, Debug, PartialEq, Eq, Structural)]
pub enum Failure {
    /// Polling the device failed.
    PollFailed,
    /// The device refused to map the staging buffer.
    MapRejected,
    /// The sender of the map signal went away without sending.
    ChannelClosed,
    /// A report that the step in hand cannot give.
    OutOfOrder,
}

/// The step that the host is to carry out next, or where the pass ended.
#[derive(Clone, Copy, Debug, PartialEq, Eq, Structural)]
pub enum Step {
    /// Encode the dispatch and the copy to the staging buffer, and submit.
    Submit,
    /// Ask for the staging buffer to be mapped for reading.
    RequestMap,
    /// Poll the device so that it makes progress.
    Poll,
    /// Await the map signal.
    Await,
    /// Copy the mapped bytes out.
    Read,
    /// Release the mapping.
    Unmap,
    /// The pass is complete.
    Finished,
    /// The pass was given up.
    Failed(Failure),
}

/// How the step in hand went.
#[derive(Clone, Copy, Debug, PartialEq, Eq, Structural)]
pub enum Report {
    /// The step was carried out; for `Await`, the buffer is mapped.
    Done,
    /// `Await` only: no signal yet.
    Pending,
    /// `Poll` or `Await` only: the device reported an error.
    Failed,
    /// `Await` only: the signal's sender was dropped.
    Closed,
}

/// The step that follows `step` after `report`.
pub open spec fn following(step: Step, report: Report) -> Step {
    match (step, report) {
        (Step::Submit, Report::Done) => Step::RequestMap,
        (Step::RequestMap, Report::Done) => Step::Poll,
        (Step::Poll, Report::Done) => Step::Await,
        (Step::Poll, Report::Failed) => Step::Failed(Failure::PollFailed),
        (Step::Await, Report::Done) => Step::Read,
        (Step::Await, Report::Pending) => Step::Poll,
        (Step::Await, Report::Failed) => Step::Failed(Failure::MapRejected),
        (Step::Await, Report::Closed) => Step::Failed(Failure::ChannelClosed),
        (Step::Read, Report::Done) => Step::Unmap,
        (Step::Unmap, Report::Done) => Step::Finished,
        (Step::Finished, _) => Step::Finished,
        (Step::Failed(failure), _) => Step::Failed(failure),
        _ => Step::Failed(Failure::OutOfOrder),
    }
}

/// The first step of a pass.
pub fn first_step() -> (step: Step)
    ensures
        step == Step::Submit,
{
    Step::Submit
}

/// Decides the next step from the step in hand and the host's report.
pub fn next_step(step: Step, report: Report) -> (next: Step)
    ensures
        next == following(step, report),
{
    match (step, report) {
        (Step::Submit, Report::Done) => Step::RequestMap,
        (Step::RequestMap, Report::Done) => Step::Poll,
        (Step::Poll, Report::Done) => Step::Await,
        (Step::Poll, Report::Failed) => Step::Failed(Failure::PollFailed),
        (Step::Await, Report::Done) => Step::Read,
        (Step::Await, Report::Pending) => Step::Poll,
        (Step::Await, Report::Failed) => Step::Failed(Failure::MapRejected),
        (Step::Await, Report::Closed) => Step::Failed(Failure::ChannelClosed),
        (Step::Read, Report::Done) => Step::Unmap,
        (Step::Unmap, Report::Done) => Step::Finished,
        (Step::Finished, _) => Step::Finished,
        (Step::Failed(failure), _) => Step::Failed(failure),
        _ => Step::Failed(Failure::OutOfOrder),
    }
}

/// The text that goes with a failure.
pub open spec fn failure_text(failure: Failure) -> Seq<char> {
    match failure {
        Failure::PollFailed => "Device poll failed"@,
        Failure::MapRejected => "Buffer mapping failed"@,
        Failure::ChannelClosed => "Channel sender dropped"@,
        Failure::OutOfOrder => "Device pass out of order"@,
    }
}

/// The error to hand to the caller for a failed pass.
pub fn failure_error(failure: Failure) -> (error: MixError)
    ensures
        error matches MixError::Sync(text) && text@ == failure_text(failure),
{
    let text = match failure {
        Failure::PollFailed => "Device poll failed",
        Failure::MapRejected => "Buffer mapping failed",
        Failure::ChannelClosed => "Channel sender dropped",
        Failure::OutOfOrder => "Device pass out of order",
    };
    MixError::Sync(text.to_owned())
}

/// The step reached from `step` by a sequence of reports.
pub open spec fn after(step: Step, reports: Seq<Report>) -> Step
    decreases reports.len(),
{
    if reports.len() == 0 {
        step
    } else {
        following(after(step, reports.drop_last()), reports.last())
    }
}

/// The staging buffer is read only right after the map signal came: the
/// only way to `Read` is from `Await` with the report that the buffer is
/// mapped.
pub proof fn lemma_read_follows_signal(step: Step, report: Report)
    requires
        following(step, report) == Step::Read,
    ensures
        step == Step::Await,
        report == Report::Done,
{
}

/// A pass that has ended stays as it ended, whatever is reported.
pub proof fn lemma_end_is_final(step: Step, reports: Seq<Report>)
    requires
        step == Step::Finished || step is Failed,
    ensures
        after(step, reports) == step,
    decreases reports.len(),
{
    if reports.len() > 0 {
        lemma_end_is_final(step, reports.drop_last());
    }
}

/// A pass finishes only by way of reading the mapped buffer and
/// releasing it: whatever the reports, `Finished` is reached only from
/// `Unmap`, and `Unmap` only from `Read`.
pub proof fn lemma_finish_follows_read(step: Step, report: Report)
    ensures
        step != Step::Finished && following(step, report) == Step::Finished ==> step
            == Step::Unmap,
        following(step, report) == Step::Unmap ==> step == Step::Read,
{
}

/// While the signal is pending the device is polled again, and a poll
/// that went through leads back to awaiting it.
pub proof fn lemma_pending_signal_drives_device()
    ensures
        following(Step::Await, Report::Pending) == Step::Poll,
        following(Step::Poll, Report::Done) == Step::Await,
{
}

} // verus!
