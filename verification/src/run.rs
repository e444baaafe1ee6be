//! The course of a run: which step follows which, and how a run ends. The
//! steps themselves are taken by the caller, who reports how each went.

use crate::workspace::GenOptions;
use vstd::prelude::*;

verus! {

/// How a run ended.
#[derive(Clone, Copy, Debug, PartialEq, Eq, Structural)]
pub enum Verdict {
    /// The generated tree is the committed tree.
    Unchanged,
    /// The committed tree was replaced by the generated one.
    Committed,
    /// The trees differ by the given count, and the run was not asked to
    /// replace the committed one.
    DiffFound(usize),
    /// A step failed.
    Failed,
}

/// Where a run stands: the step that is to be taken next, or the end.
#[derive(Clone, Copy, Debug, PartialEq, Eq, Structural)]
pub enum Phase {
    /// The schema compiler writes the generated files.
    Generate,
    /// The generated files are cleaned and sorted into a tree of modules.
    Reshape,
    /// The tree is formatted.
    Format,
    /// The tree is compared with the committed tree.
    Diff,
    /// The committed tree is replaced.
    Commit,
    /// Nothing is left to do.
    Finished(Verdict),
}

/// How a step went.
#[derive(Clone, Copy, Debug, PartialEq, Eq, Structural)]
pub enum Event {
    /// The step was taken.
    Done,
    /// The trees were compared and differ by the given count.
    Diffed(usize),
    /// The step failed.
    Failed,
}

/// What follows the comparison of the trees.
pub open spec fn after_diff(diff: usize, commit: bool) -> Phase {
    if diff == 0 {
        Phase::Finished(Verdict::Unchanged)
    } else if commit {
        Phase::Commit
    } else {
        Phase::Finished(Verdict::DiffFound(diff))
    }
}

/// Where a run stands after a step went as `event` says. A failed step
/// ends the run, and so does a report that does not fit the step; a run
/// that has ended stays as it is.
pub open spec fn next_phase(phase: Phase, event: Event, commit: bool, format: bool) -> Phase {
    match phase {
        Phase::Finished(verdict) => Phase::Finished(verdict),
        Phase::Generate => match event {
            Event::Done => Phase::Reshape,
            _ => Phase::Finished(Verdict::Failed),
        },
        Phase::Reshape => match event {
            Event::Done => if format {
                Phase::Format
            } else {
                Phase::Diff
            },
            _ => Phase::Finished(Verdict::Failed),
        },
        Phase::Format => match event {
            Event::Done => Phase::Diff,
            _ => Phase::Finished(Verdict::Failed),
        },
        Phase::Diff => match event {
            Event::Diffed(diff) => after_diff(diff, commit),
            _ => Phase::Finished(Verdict::Failed),
        },
        Phase::Commit => match event {
            Event::Done => Phase::Finished(Verdict::Committed),
            _ => Phase::Finished(Verdict::Failed),
        },
    }
}

/// Whether a run that ended so counts as a success.
pub open spec fn succeeded(verdict: Verdict) -> bool {
    verdict == Verdict::Unchanged || verdict == Verdict::Committed
}

/// The step with which every run begins.
pub fn first_phase() -> (phase: Phase)
    ensures
        phase == Phase::Generate,
{
    Phase::Generate
}

/// Where the run stands after the step of `phase` went as `event` says.
pub fn advance(phase: Phase, event: Event, gen_opts: &GenOptions) -> (next: Phase)
    ensures
        next == next_phase(phase, event, gen_opts.commit, gen_opts.format is Some),
{
    match phase {
        Phase::Finished(verdict) => Phase::Finished(verdict),
        Phase::Generate => match event {
            Event::Done => Phase::Reshape,
            _ => Phase::Finished(Verdict::Failed),
        },
        Phase::Reshape => match event {
            Event::Done => if gen_opts.format.is_some() {
                Phase::Format
            } else {
                Phase::Diff
            },
            _ => Phase::Finished(Verdict::Failed),
        },
        Phase::Format => match event {
            Event::Done => Phase::Diff,
            _ => Phase::Finished(Verdict::Failed),
        },
        Phase::Diff => match event {
            Event::Diffed(diff) => {
                if diff == 0 {
                    Phase::Finished(Verdict::Unchanged)
                } else if gen_opts.commit {
                    Phase::Commit
                } else {
                    Phase::Finished(Verdict::DiffFound(diff))
                }
            },
            _ => Phase::Finished(Verdict::Failed),
        },
        Phase::Commit => match event {
            Event::Done => Phase::Finished(Verdict::Committed),
            _ => Phase::Finished(Verdict::Failed),
        },
    }
}

/// Whether a run that ended so counts as a success: the trees were the
/// same, or the committed one was replaced.
pub fn is_success(verdict: Verdict) -> (ok: bool)
    ensures
        ok == succeeded(verdict),
{
    match verdict {
        Verdict::Unchanged => true,
        Verdict::Committed => true,
        _ => false,
    }
}

/// A run that finds no difference ends there, whatever it was asked for:
/// nothing is replaced and nothing is written.
pub proof fn lemma_no_difference_ends_the_run(commit: bool, format: bool)
    ensures
        next_phase(Phase::Diff, Event::Diffed(0), commit, format) == Phase::Finished(
            Verdict::Unchanged,
        ),
        succeeded(Verdict::Unchanged),
{
}

/// The committed tree is replaced only where that was asked for, and only
/// after a comparison that found a difference.
pub proof fn lemma_commit_only_on_request(phase: Phase, event: Event, commit: bool, format: bool)
    requires
        phase != Phase::Commit,
        next_phase(phase, event, commit, format) == Phase::Commit,
    ensures
        commit,
        phase == Phase::Diff,
        event is Diffed,
        event->Diffed_0 > 0,
{
}

/// A run ends as committed only by the step that replaces the committed
/// tree.
pub proof fn lemma_committed_only_after_commit(
    phase: Phase,
    event: Event,
    commit: bool,
    format: bool,
)
    requires
        phase !is Finished,
        next_phase(phase, event, commit, format) == Phase::Finished(Verdict::Committed),
    ensures
        phase == Phase::Commit,
        event == Event::Done,
{
}

} // verus!
