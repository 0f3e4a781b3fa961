//! The decisions of the supervisor. A campaign launches the target again and again, until it
//! fails or an end is asked for; an iteration watches one run of the target.

use crate::clock::duration_nanos;
use crate::config::{begun, signed_pid, unsigned_seconds, Config, Shared};
use crate::double::{fixed, Double};
use crate::stats::{all_elapsed, is_elapsed, iteration_stats, rendered_stats};
use core::time::Duration;
use vstd::prelude::*;

verus! {

/// The time in milliseconds between two looks at the target.
pub const POLL_INTERVAL_MS: u64 = 100;

/// The time in milliseconds between two looks at whether the scheduler is attached.
pub const ATTACH_INTERVAL_MS: u64 = 10;

/// What the supervisor of an iteration does next.
#[derive(Clone, Copy, Debug, PartialEq, Eq, Structural)]
pub enum Phase {
    /// Say that an iteration begins, and begin a new generation.
    Begin,
    /// Launch the target.
    Launch,
    /// Let the process be fuzzed, and start the clocks.
    SetTarget { pid: u32 },
    /// Look at whether an end was asked for.
    CheckStop,
    /// Wait for the poll interval.
    Sleep,
    /// Look at whether the target has exited.
    PollTarget,
    /// Read how long ago the last error check was.
    ReadErrorClock,
    /// Run the error command.
    RunErrorCommand,
    /// Note that an error check was made now.
    RestartErrorClock,
    /// Read how long the target has run.
    ReadRunClock,
    /// Say that the iteration timed out.
    ReportTimeout,
    /// Stop the fuzzing of the target.
    ClearTarget,
    /// Look at whether the target is gone.
    PollStopped,
    /// Kill the target, and wait for the poll interval.
    Kill,
    /// Nothing: the iteration is over.
    Finished,
    /// Nothing: the target could not be launched.
    LaunchFailed,
    /// Nothing: the state of the target could not be read.
    PollFailed,
}

/// What a look at the target shows.
#[derive(Clone, Copy, Debug, PartialEq, Eq, Structural)]
pub enum TargetStatus {
    Running,
    Exited { success: bool },
    /// The state could not be read.
    Unknown,
}

/// What came of the step that the supervisor of an iteration took.
pub enum Observation {
    /// The step is done, and shows nothing.
    Performed,
    /// The process that the target runs as; `None` where it could not be launched.
    Launched(Option<u32>),
    /// Whether an end was asked for.
    Stop(bool),
    /// The state of the target.
    Target(TargetStatus),
    /// The time on a clock.
    Elapsed(Duration),
    /// Whether the error command succeeded; `None` where it could not be run.
    ErrorCommand(Option<bool>),
}

/// An iteration: one run of the target.
#[derive(Clone, Copy, Debug, PartialEq, Eq, Structural)]
pub struct Iteration {
    pub phase: Phase,
    pub did_fail: bool,
}

/// The iteration in another phase.
pub open spec fn in_phase(it: Iteration, phase: Phase) -> Iteration {
    Iteration { phase, did_fail: it.did_fail }
}

/// The target is to be torn down, and the iteration has failed.
pub open spec fn failed_in(phase: Phase) -> Iteration {
    Iteration { phase, did_fail: true }
}

/// The error check is due: the last one was at least the interval ago.
pub open spec fn error_check_due(cfg: Config, elapsed: Duration) -> bool {
    duration_nanos(elapsed) >= cfg.error_check_interval_ns
}

/// The target has run for as long as it may: for the iteration time, or in timeout mode for the
/// timeout.
pub open spec fn run_time_over(cfg: Config, elapsed: Duration) -> bool {
    if cfg.timeout_seconds == -1 {
        duration_nanos(elapsed) >= cfg.iteration_time_ns
    } else {
        duration_nanos(elapsed) >= 1_000_000_000 * unsigned_seconds(cfg.timeout_seconds)
    }
}

/// What follows a step. What a step cannot show leaves the iteration as it is.
pub open spec fn next_iteration(cfg: Config, it: Iteration, seen: Observation) -> Iteration {
    match (it.phase, seen) {
        (Phase::Begin, Observation::Performed) => in_phase(it, Phase::Launch),
        (Phase::Launch, Observation::Launched(launched)) => in_phase(
            it,
            match launched {
                Some(pid) => Phase::SetTarget { pid },
                None => Phase::LaunchFailed,
            },
        ),
        (Phase::SetTarget { .. }, Observation::Performed) => in_phase(it, Phase::CheckStop),
        (Phase::CheckStop, Observation::Stop(stop)) => in_phase(
            it,
            if stop {
                Phase::ClearTarget
            } else {
                Phase::Sleep
            },
        ),
        (Phase::Sleep, Observation::Performed) => in_phase(it, Phase::PollTarget),
        (Phase::PollTarget, Observation::Target(status)) => match status {
            TargetStatus::Running => in_phase(it, Phase::ReadErrorClock),
            TargetStatus::Exited { success } => if success {
                in_phase(it, Phase::ClearTarget)
            } else {
                failed_in(Phase::ClearTarget)
            },
            TargetStatus::Unknown => in_phase(it, Phase::PollFailed),
        },
        (Phase::ReadErrorClock, Observation::Elapsed(elapsed)) => in_phase(
            it,
            if !error_check_due(cfg, elapsed) {
                Phase::ReadRunClock
            } else if cfg.error_command@.len() == 0 {
                Phase::RestartErrorClock
            } else {
                Phase::RunErrorCommand
            },
        ),
        (Phase::RunErrorCommand, Observation::ErrorCommand(success)) => if success == Some(true) {
            failed_in(Phase::ClearTarget)
        } else {
            in_phase(it, Phase::RestartErrorClock)
        },
        (Phase::RestartErrorClock, Observation::Performed) => in_phase(it, Phase::ReadRunClock),
        (Phase::ReadRunClock, Observation::Elapsed(elapsed)) => if !run_time_over(cfg, elapsed) {
            in_phase(it, Phase::CheckStop)
        } else if cfg.timeout_seconds == -1 {
            in_phase(it, Phase::ClearTarget)
        } else {
            failed_in(Phase::ReportTimeout)
        },
        (Phase::ReportTimeout, Observation::Performed) => in_phase(it, Phase::ClearTarget),
        (Phase::ClearTarget, Observation::Performed) => in_phase(it, Phase::PollStopped),
        (Phase::PollStopped, Observation::Target(status)) => in_phase(
            it,
            match status {
                TargetStatus::Running => Phase::Kill,
                TargetStatus::Exited { .. } => Phase::Finished,
                TargetStatus::Unknown => Phase::PollFailed,
            },
        ),
        (Phase::Kill, Observation::Performed) => in_phase(it, Phase::PollStopped),
        _ => it,
    }
}

/// The state that the threads share, after a step of an iteration.
pub open spec fn shared_after_step(it: Iteration, shared: Shared) -> Shared {
    match it.phase {
        Phase::Begin => begun(shared),
        Phase::SetTarget { pid } => Shared { script_pid: signed_pid(pid), ..shared },
        Phase::ClearTarget => Shared { script_pid: 0, ..shared },
        _ => shared,
    }
}

impl Iteration {
    /// The iteration before its first step.
    pub open spec fn initial() -> Iteration {
        Iteration { phase: Phase::Begin, did_fail: false }
    }

    /// An iteration before its first step.
    pub fn new() -> (it: Self)
        ensures
            it == Iteration::initial(),
    {
        Iteration { phase: Phase::Begin, did_fail: false }
    }

    /// Makes the change that the next step brings to the state that the threads share.
    pub fn update_shared(&self, shared: &mut Shared)
        ensures
            *final(shared) == shared_after_step(*self, *old(shared)),
    {
        match self.phase {
            Phase::Begin => {
                shared.begin_iteration();
            },
            Phase::SetTarget { pid } => {
                shared.set_target(pid);
            },
            Phase::ClearTarget => {
                shared.clear_target();
            },
            _ => {},
        }
    }

    /// Decides what follows the step that was taken.
    pub fn observe(&mut self, cfg: &Config, seen: Observation)
        ensures
            *final(self) == next_iteration(*cfg, *old(self), seen),
    {
        match (self.phase, seen) {
            (Phase::Begin, Observation::Performed) => {
                self.phase = Phase::Launch;
            },
            (Phase::Launch, Observation::Launched(launched)) => {
                self.phase = match launched {
                    Some(pid) => Phase::SetTarget { pid },
                    None => Phase::LaunchFailed,
                };
            },
            (Phase::SetTarget { .. }, Observation::Performed) => {
                self.phase = Phase::CheckStop;
            },
            (Phase::CheckStop, Observation::Stop(stop)) => {
                self.phase = if stop { Phase::ClearTarget } else { Phase::Sleep };
            },
            (Phase::Sleep, Observation::Performed) => {
                self.phase = Phase::PollTarget;
            },
            (Phase::PollTarget, Observation::Target(status)) => match status {
                TargetStatus::Running => {
                    self.phase = Phase::ReadErrorClock;
                },
                TargetStatus::Exited { success } => {
                    if !success {
                        self.did_fail = true;
                    }
                    self.phase = Phase::ClearTarget;
                },
                TargetStatus::Unknown => {
                    self.phase = Phase::PollFailed;
                },
            },
            (Phase::ReadErrorClock, Observation::Elapsed(elapsed)) => {
                self.phase = if elapsed.as_nanos() < cfg.error_check_interval().as_nanos() {
                    Phase::ReadRunClock
                } else if cfg.error_command.as_str().is_empty() {
                    Phase::RestartErrorClock
                } else {
                    Phase::RunErrorCommand
                };
            },
            (Phase::RunErrorCommand, Observation::ErrorCommand(success)) => match success {
                Some(true) => {
                    self.did_fail = true;
                    self.phase = Phase::ClearTarget;
                },
                _ => {
                    self.phase = Phase::RestartErrorClock;
                },
            },
            (Phase::RestartErrorClock, Observation::Performed) => {
                self.phase = Phase::ReadRunClock;
            },
            (Phase::ReadRunClock, Observation::Elapsed(elapsed)) => {
                if !cfg.in_timeout_mode() {
                    self.phase = if elapsed.as_nanos() >= cfg.iteration_time().as_nanos() {
                        Phase::ClearTarget
                    } else {
                        Phase::CheckStop
                    };
                } else if elapsed.as_nanos() >= cfg.timeout().as_nanos() {
                    self.did_fail = true;
                    self.phase = Phase::ReportTimeout;
                } else {
                    self.phase = Phase::CheckStop;
                }
            },
            (Phase::ReportTimeout, Observation::Performed) => {
                self.phase = Phase::ClearTarget;
            },
            (Phase::ClearTarget, Observation::Performed) => {
                self.phase = Phase::PollStopped;
            },
            (Phase::PollStopped, Observation::Target(status)) => {
                self.phase = match status {
                    TargetStatus::Running => Phase::Kill,
                    TargetStatus::Exited { .. } => Phase::Finished,
                    TargetStatus::Unknown => Phase::PollFailed,
                };
            },
            (Phase::Kill, Observation::Performed) => {
                self.phase = Phase::PollStopped;
            },
            _ => {},
        }
    }
}

/// What an iteration that is over comes to for its campaign, after so many seconds; `None` where
/// it is not over.
pub open spec fn iteration_outcome(it: Iteration, duration: Double) -> Option<CampaignObservation> {
    match it.phase {
        Phase::Finished => Some(
            CampaignObservation::IterationEnded { duration, did_fail: it.did_fail },
        ),
        Phase::LaunchFailed => Some(CampaignObservation::IterationError),
        Phase::PollFailed => Some(CampaignObservation::IterationError),
        _ => None,
    }
}

impl Iteration {
    /// What the iteration comes to for its campaign, after so many seconds; `None` where it is
    /// not over.
    pub fn outcome(&self, duration: Double) -> (outcome: Option<CampaignObservation>)
        ensures
            outcome == iteration_outcome(*self, duration),
    {
        match self.phase {
            Phase::Finished => Some(
                CampaignObservation::IterationEnded { duration, did_fail: self.did_fail },
            ),
            Phase::LaunchFailed => Some(CampaignObservation::IterationError),
            Phase::PollFailed => Some(CampaignObservation::IterationError),
            _ => None,
        }
    }
}

/// What the supervisor of a campaign does next.
#[derive(Clone, Copy, Debug, PartialEq, Eq, Structural)]
pub enum CampaignPhase {
    /// Look at whether the scheduler is attached and whether an end was asked for.
    AwaitScheduler,
    /// Wait for the attach interval.
    Wait,
    /// Look at whether an end was asked for.
    CheckStop,
    /// Run an iteration.
    RunIteration,
    /// Report on the iteration that just ended.
    Report { failed: bool },
    /// Report on the whole campaign, and ask the scheduler to end.
    Summarize,
    /// Nothing: the campaign is over.
    Finished,
}

/// What came of the step that the supervisor of a campaign took.
pub enum CampaignObservation {
    /// The step is done, and shows nothing.
    Performed,
    /// Whether the scheduler is attached, and whether an end was asked for.
    Flags { attached: bool, done: bool },
    /// The iteration ended after so many seconds.
    IterationEnded { duration: Double, did_fail: bool },
    /// The iteration could not be run.
    IterationError,
}

/// A campaign: the iterations so far, and how long each of them took in seconds.
pub struct Campaign {
    pub phase: CampaignPhase,
    pub durations: Vec<Double>,
}

/// What a [`Campaign`] holds.
#[verifier::ext_equal]
pub struct CampaignView {
    pub phase: CampaignPhase,
    pub durations: Seq<Double>,
}

impl CampaignView {
    /// The campaign before its first step.
    pub open spec fn initial() -> CampaignView {
        CampaignView { phase: CampaignPhase::AwaitScheduler, durations: Seq::empty() }
    }
}

impl View for Campaign {
    type V = CampaignView;

    open spec fn view(&self) -> CampaignView {
        CampaignView { phase: self.phase, durations: self.durations@ }
    }
}

/// Another iteration is allowed: there is no limit, or it is not reached.
pub open spec fn iterations_left(cfg: Config, campaign: CampaignView) -> bool {
    cfg.max_iterations < 0 || campaign.durations.len() < cfg.max_iterations
}

/// What follows a step. What a step cannot show leaves the campaign as it is.
pub open spec fn next_campaign(
    cfg: Config,
    campaign: CampaignView,
    seen: CampaignObservation,
) -> CampaignView {
    let durations = campaign.durations;
    match (campaign.phase, seen) {
        (CampaignPhase::AwaitScheduler, CampaignObservation::Flags { attached, done }) => {
            let phase = if done {
                CampaignPhase::Finished
            } else if attached {
                CampaignPhase::CheckStop
            } else {
                CampaignPhase::Wait
            };
            CampaignView { phase, durations }
        },
        (CampaignPhase::Wait, CampaignObservation::Performed) => CampaignView {
            phase: CampaignPhase::AwaitScheduler,
            durations,
        },
        (CampaignPhase::CheckStop, CampaignObservation::Flags { done, .. }) => {
            let phase = if iterations_left(cfg, campaign) && !done {
                CampaignPhase::RunIteration
            } else {
                CampaignPhase::Summarize
            };
            CampaignView { phase, durations }
        },
        (
            CampaignPhase::RunIteration,
            CampaignObservation::IterationEnded { duration, did_fail },
        ) => CampaignView {
            phase: CampaignPhase::Report { failed: did_fail },
            durations: durations.push(duration),
        },
        (CampaignPhase::RunIteration, CampaignObservation::IterationError) => CampaignView {
            phase: CampaignPhase::Summarize,
            durations,
        },
        (CampaignPhase::Report { failed }, CampaignObservation::Performed) => {
            let phase = if failed {
                CampaignPhase::Summarize
            } else {
                CampaignPhase::CheckStop
            };
            CampaignView { phase, durations }
        },
        (CampaignPhase::Summarize, CampaignObservation::Performed) => CampaignView {
            phase: CampaignPhase::Finished,
            durations,
        },
        _ => campaign,
    }
}

/// What is printed after an iteration: the statistics in a logged campaign, and the failure, with
/// the time since the start of the campaign in seconds.
pub open spec fn rendered_report(
    cfg: Config,
    campaign: CampaignView,
    failed: bool,
    elapsed: Double,
) -> Seq<char> {
    let stats = if cfg.log && campaign.durations.len() > 0 {
        rendered_stats(campaign.durations) + "\n"@
    } else {
        Seq::empty()
    };
    let blank = if cfg.log {
        "\n"@
    } else {
        Seq::empty()
    };
    let failure = if failed {
        "Program failed after "@ + fixed(elapsed, 3) + "\n"@
    } else {
        Seq::empty()
    };
    stats + blank + failure
}

/// What is printed at the end of a campaign: the statistics, unless they were printed after each
/// iteration or there was none.
pub open spec fn rendered_summary(cfg: Config, campaign: CampaignView) -> Seq<char> {
    if !cfg.log && campaign.durations.len() > 0 {
        rendered_stats(campaign.durations) + "\n"@
    } else {
        Seq::empty()
    }
}

/// The state that the threads share, after a step of a campaign.
pub open spec fn shared_after_campaign_step(campaign: CampaignView, shared: Shared) -> Shared {
    if campaign.phase is Summarize {
        Shared { done: true, ..shared }
    } else {
        shared
    }
}

impl Campaign {
    /// The times of the iterations are times that went by.
    pub open spec fn wf(&self) -> bool {
        all_elapsed(self.durations@)
    }

    /// Before the scheduler is attached.
    pub fn new() -> (campaign: Self)
        ensures
            campaign@ == CampaignView::initial(),
            campaign.wf(),
    {
        Campaign { phase: CampaignPhase::AwaitScheduler, durations: Vec::new() }
    }

    /// Makes the change that the next step brings to the state that the threads share.
    pub fn update_shared(&self, shared: &mut Shared)
        ensures
            *final(shared) == shared_after_campaign_step(self@, *old(shared)),
    {
        match self.phase {
            CampaignPhase::Summarize => {
                shared.set_done();
            },
            _ => {},
        }
    }

    /// Decides what follows the step that was taken.
    pub fn observe(&mut self, cfg: &Config, seen: CampaignObservation)
        requires
            old(self).wf(),
            seen matches CampaignObservation::IterationEnded { duration, .. } ==> is_elapsed(
                duration,
            ),
        ensures
            final(self)@ == next_campaign(*cfg, old(self)@, seen),
            final(self).wf(),
    {
        match (self.phase, seen) {
            (CampaignPhase::AwaitScheduler, CampaignObservation::Flags { attached, done }) => {
                self.phase = if done {
                    CampaignPhase::Finished
                } else if attached {
                    CampaignPhase::CheckStop
                } else {
                    CampaignPhase::Wait
                };
            },
            (CampaignPhase::Wait, CampaignObservation::Performed) => {
                self.phase = CampaignPhase::AwaitScheduler;
            },
            (CampaignPhase::CheckStop, CampaignObservation::Flags { done, .. }) => {
                let left: bool = cfg.max_iterations < 0 || (self.durations.len() as u128)
                    < cfg.max_iterations as u128;
                self.phase = if left && !done {
                    CampaignPhase::RunIteration
                } else {
                    CampaignPhase::Summarize
                };
            },
            (
                CampaignPhase::RunIteration,
                CampaignObservation::IterationEnded { duration, did_fail },
            ) => {
                self.durations.push(duration);
                self.phase = CampaignPhase::Report { failed: did_fail };
            },
            (CampaignPhase::RunIteration, CampaignObservation::IterationError) => {
                self.phase = CampaignPhase::Summarize;
            },
            (CampaignPhase::Report { failed }, CampaignObservation::Performed) => {
                self.phase = if failed { CampaignPhase::Summarize } else { CampaignPhase::CheckStop };
            },
            (CampaignPhase::Summarize, CampaignObservation::Performed) => {
                self.phase = CampaignPhase::Finished;
            },
            _ => {},
        }
    }

    /// What to print after an iteration. `elapsed` is the time since the start of the campaign in
    /// seconds.
    pub fn report(&self, cfg: &Config, failed: bool, elapsed: Double) -> (text: String)
        requires
            self.wf(),
            elapsed.wf(),
        ensures
            text@ == rendered_report(*cfg, self@, failed, elapsed),
    {
        let mut text = String::new();
        if cfg.log {
            if let Some(stats) = iteration_stats(&self.durations) {
                text.append(stats.as_str());
                text.append("\n");
            }
            text.append("\n");
        }
        if failed {
            text.append("Program failed after ");
            text.append(elapsed.to_fixed(3).as_str());
            text.append("\n");
        }
        proof {
            assert(text@ =~= rendered_report(*cfg, self@, failed, elapsed));
        }
        text
    }

    /// What to print at the end of the campaign.
    pub fn summary(&self, cfg: &Config) -> (text: String)
        requires
            self.wf(),
        ensures
            text@ == rendered_summary(*cfg, self@),
    {
        let mut text = String::new();
        if !cfg.log {
            if let Some(stats) = iteration_stats(&self.durations) {
                text.append(stats.as_str());
                text.append("\n");
            }
        }
        proof {
            assert(text@ =~= rendered_summary(*cfg, self@));
        }
        text
    }
}

/// The iteration after a series of steps.
pub open spec fn iteration_after(cfg: Config, trace: Seq<Observation>) -> Iteration
    decreases trace.len(),
{
    if trace.len() == 0 {
        Iteration::initial()
    } else {
        next_iteration(cfg, iteration_after(cfg, trace.drop_last()), trace.last())
    }
}

/// The state that the threads share after a series of steps, as far as the iteration changes it.
pub open spec fn shared_after(cfg: Config, start: Shared, trace: Seq<Observation>) -> Shared
    decreases trace.len(),
{
    if trace.len() == 0 {
        start
    } else {
        let before = shared_after(cfg, start, trace.drop_last());
        if trace.last() is Performed {
            shared_after_step(iteration_after(cfg, trace.drop_last()), before)
        } else {
            before
        }
    }
}

/// What is seen is a reason for failure: the target exited without success, the error command
/// succeeded, or in timeout mode the target has run for too long.
pub open spec fn is_failure(cfg: Config, it: Iteration, seen: Observation) -> bool {
    ||| it.phase is PollTarget && seen == Observation::Target(
        TargetStatus::Exited { success: false },
    )
    ||| it.phase is RunErrorCommand && seen == Observation::ErrorCommand(Some(true))
    ||| it.phase is ReadRunClock && cfg.timeout_seconds != -1 && (seen matches Observation::Elapsed(
        elapsed,
    ) && run_time_over(cfg, elapsed))
}

/// A step at which a reason for failure is seen.
pub open spec fn is_failure_at(cfg: Config, trace: Seq<Observation>, i: int) -> bool {
    0 <= i < trace.len() && is_failure(cfg, iteration_after(cfg, trace.take(i)), trace[i])
}

/// An iteration counts as failed if and only if one of its steps saw a reason for failure.
pub proof fn law_failure_has_a_reason(cfg: Config, trace: Seq<Observation>)
    ensures
        iteration_after(cfg, trace).did_fail <==> exists|i: int| #[trigger]
            is_failure_at(cfg, trace, i),
    decreases trace.len(),
{
    if trace.len() > 0 {
        let before = trace.drop_last();
        law_failure_has_a_reason(cfg, before);
        assert(trace.take(before.len() as int) =~= before);
        if iteration_after(cfg, before).did_fail {
            let i = choose|i: int| is_failure_at(cfg, before, i);
            assert(trace.take(i) =~= before.take(i));
            assert(is_failure_at(cfg, trace, i));
        }
        if is_failure(cfg, iteration_after(cfg, before), trace.last()) {
            assert(is_failure_at(cfg, trace, before.len() as int));
        }
        if exists|i: int| is_failure_at(cfg, trace, i) {
            let i = choose|i: int| is_failure_at(cfg, trace, i);
            if i < before.len() {
                assert(trace.take(i) =~= before.take(i));
                assert(is_failure_at(cfg, before, i));
            }
        }
    }
}

/// With no error command none is ever run; and outside timeout mode no iteration times out.
pub proof fn law_disabled_checks_never_run(cfg: Config, trace: Seq<Observation>)
    ensures
        cfg.error_command@.len() == 0 ==> iteration_after(cfg, trace).phase !is RunErrorCommand,
        cfg.timeout_seconds == -1 ==> iteration_after(cfg, trace).phase !is ReportTimeout,
    decreases trace.len(),
{
    if trace.len() > 0 {
        law_disabled_checks_never_run(cfg, trace.drop_last());
    }
}

/// What is seen shows that the target has exited.
pub open spec fn shows_exit(seen: Observation) -> bool {
    seen matches Observation::Target(status) && status is Exited
}

/// An iteration is over only once the target was seen to have exited.
pub proof fn law_finished_means_exited(cfg: Config, trace: Seq<Observation>)
    requires
        iteration_after(cfg, trace).phase is Finished,
    ensures
        exists|i: int| 0 <= i < trace.len() && shows_exit(#[trigger] trace[i]),
    decreases trace.len(),
{
    let before = trace.drop_last();
    if iteration_after(cfg, before).phase is Finished {
        law_finished_means_exited(cfg, before);
        let i = choose|i: int| 0 <= i < before.len() && shows_exit(#[trigger] before[i]);
        assert(shows_exit(trace[i]));
    } else {
        assert(shows_exit(trace[trace.len() - 1]));
    }
}

/// The iteration watches its target: from the launch on until the target is torn down.
pub open spec fn is_watching(phase: Phase) -> bool {
    match phase {
        Phase::CheckStop => true,
        Phase::Sleep => true,
        Phase::PollTarget => true,
        Phase::ReadErrorClock => true,
        Phase::RunErrorCommand => true,
        Phase::RestartErrorClock => true,
        Phase::ReadRunClock => true,
        Phase::ReportTimeout => true,
        Phase::ClearTarget => true,
        _ => false,
    }
}

/// The target was launched as the process `pid`.
pub open spec fn launched_as(trace: Seq<Observation>, pid: u32) -> bool {
    trace.contains(Observation::Launched(Some(pid)))
}

/// While an iteration watches its target, and no longer, the launched process is the one to fuzz.
/// Before the launch, and from the tear down on, there is nothing to fuzz. All the while the
/// generation is the one behind that of the start. (Where the state of the target could not be
/// read the process stays the one to fuzz: the campaign then ends.)
pub proof fn law_fuzzes_the_watched_process(cfg: Config, start: Shared, trace: Seq<Observation>)
    ensures
        is_watching(iteration_after(cfg, trace).phase) ==> exists|pid: u32| #[trigger]
            launched_as(trace, pid) && shared_after(cfg, start, trace).script_pid == signed_pid(
                pid,
            ),
        iteration_after(cfg, trace).phase matches Phase::SetTarget { pid } ==> launched_as(
            trace,
            pid,
        ),
        !is_watching(iteration_after(cfg, trace).phase) && iteration_after(cfg, trace).phase
            !is Begin && iteration_after(cfg, trace).phase !is PollFailed ==> shared_after(
            cfg,
            start,
            trace,
        ).script_pid == 0,
        iteration_after(cfg, trace).phase is Begin ==> shared_after(cfg, start, trace) == start,
        iteration_after(cfg, trace).phase !is Begin ==> shared_after(cfg, start, trace).generation
            == begun(start).generation,
        shared_after(cfg, start, trace).attached == start.attached,
        shared_after(cfg, start, trace).done == start.done,
    decreases trace.len(),
{
    if trace.len() > 0 {
        let before = trace.drop_last();
        law_fuzzes_the_watched_process(cfg, start, before);
        assert forall|pid: u32| launched_as(before, pid) implies launched_as(trace, pid) by {
            let i = choose|i: int|
                0 <= i < before.len() && before[i] == Observation::Launched(Some(pid));
            assert(trace[i] == before[i]);
        }
        let was = iteration_after(cfg, before).phase;
        if was is Launch {
            if let Observation::Launched(Some(pid)) = trace.last() {
                assert(trace[trace.len() - 1] == Observation::Launched(Some(pid)));
                assert(launched_as(trace, pid));
            }
        }
        if let Phase::SetTarget { pid } = was {
            assert(launched_as(trace, pid));
        }
        if is_watching(was) {
            let pid = choose|pid: u32| #[trigger]
                launched_as(before, pid) && shared_after(cfg, start, before).script_pid
                    == signed_pid(pid);
            assert(launched_as(trace, pid));
        }
    }
}

/// The phase of an iteration before the step `i` of a series.
pub open spec fn phase_at(cfg: Config, trace: Seq<Observation>, i: int) -> Phase {
    iteration_after(cfg, trace.take(i)).phase
}

proof fn lemma_step(cfg: Config, trace: Seq<Observation>, i: int)
    requires
        0 <= i < trace.len(),
    ensures
        iteration_after(cfg, trace.take(i + 1)) == next_iteration(
            cfg,
            iteration_after(cfg, trace.take(i)),
            trace[i],
        ),
{
    assert(trace.take(i + 1).drop_last() =~= trace.take(i));
}

/// With the step `i` an iteration comes to run the error command.
pub open spec fn comes_to_error_command(cfg: Config, trace: Seq<Observation>, i: int) -> bool {
    &&& 0 <= i < trace.len()
    &&& phase_at(cfg, trace, i) !is RunErrorCommand
    &&& phase_at(cfg, trace, i + 1) is RunErrorCommand
}

/// An iteration comes to run the error command if and only if there is one, and the clock of the
/// error checks was just seen to have reached the interval.
pub proof fn law_error_command_is_due(cfg: Config, trace: Seq<Observation>, i: int)
    requires
        0 <= i < trace.len(),
    ensures
        comes_to_error_command(cfg, trace, i) <==> {
            &&& phase_at(cfg, trace, i) is ReadErrorClock
            &&& cfg.error_command@.len() > 0
            &&& trace[i] matches Observation::Elapsed(elapsed) && error_check_due(cfg, elapsed)
        },
{
    lemma_step(cfg, trace, i);
}

/// With the step `i` the clock of the error checks is started anew.
pub open spec fn restarts_error_clock(cfg: Config, trace: Seq<Observation>, i: int) -> bool {
    &&& 0 <= i < trace.len()
    &&& phase_at(cfg, trace, i) is RestartErrorClock
    &&& trace[i] is Performed
}

/// The iteration has ended its watch, or is about to.
pub open spec fn is_tearing_down(phase: Phase) -> bool {
    match phase {
        Phase::ClearTarget => true,
        Phase::PollStopped => true,
        Phase::Kill => true,
        Phase::Finished => true,
        Phase::PollFailed => true,
        _ => false,
    }
}

proof fn lemma_tearing_down_lasts(cfg: Config, trace: Seq<Observation>, i: int, j: int)
    requires
        0 <= i <= j <= trace.len(),
        is_tearing_down(phase_at(cfg, trace, i)),
    ensures
        is_tearing_down(phase_at(cfg, trace, j)),
    decreases j - i,
{
    if i < j {
        lemma_tearing_down_lasts(cfg, trace, i, j - 1);
        lemma_step(cfg, trace, j - 1);
    }
}

/// What may be between an error command and the next start of the clock.
proof fn lemma_after_error_command(cfg: Config, trace: Seq<Observation>, i: int, j: int)
    requires
        comes_to_error_command(cfg, trace, i),
        i < j <= trace.len(),
    ensures
        phase_at(cfg, trace, j) is RunErrorCommand || phase_at(cfg, trace, j) is RestartErrorClock
            || is_tearing_down(phase_at(cfg, trace, j)) || exists|k: int|
            i < k < j && #[trigger] restarts_error_clock(cfg, trace, k),
    decreases j - i,
{
    if i + 1 < j {
        lemma_after_error_command(cfg, trace, i, j - 1);
        lemma_step(cfg, trace, j - 1);
        if exists|k: int| i < k < j - 1 && #[trigger] restarts_error_clock(cfg, trace, k) {
            let k = choose|k: int| i < k < j - 1 && #[trigger] restarts_error_clock(cfg, trace, k);
            assert(i < k < j && restarts_error_clock(cfg, trace, k));
        } else if restarts_error_clock(cfg, trace, j - 1) {
            assert(i < j - 1 < j);
        }
    }
}

/// Between two runs of the error command the clock of the error checks is started anew, and before
/// the second it was seen to have reached the interval.
pub proof fn law_error_commands_keep_their_interval(
    cfg: Config,
    trace: Seq<Observation>,
    i: int,
    j: int,
)
    requires
        i < j,
        comes_to_error_command(cfg, trace, i),
        comes_to_error_command(cfg, trace, j),
    ensures
        exists|k: int| i < k < j && #[trigger] restarts_error_clock(cfg, trace, k),
        trace[j] matches Observation::Elapsed(elapsed) && error_check_due(cfg, elapsed),
{
    lemma_after_error_command(cfg, trace, i, j);
    law_error_command_is_due(cfg, trace, j);
}

/// With the step `i` the target is seen to have exited.
pub open spec fn sees_exit(cfg: Config, trace: Seq<Observation>, i: int) -> bool {
    &&& 0 <= i < trace.len()
    &&& phase_at(cfg, trace, i) is PollTarget || phase_at(cfg, trace, i) is PollStopped
    &&& shows_exit(trace[i])
}

/// Once the target was seen to have exited, the error command is not run any more.
pub proof fn law_no_error_command_after_exit(
    cfg: Config,
    trace: Seq<Observation>,
    i: int,
    j: int,
)
    requires
        sees_exit(cfg, trace, i),
        i < j <= trace.len(),
    ensures
        phase_at(cfg, trace, j) !is RunErrorCommand,
        is_tearing_down(phase_at(cfg, trace, j)),
{
    lemma_step(cfg, trace, i);
    lemma_tearing_down_lasts(cfg, trace, i + 1, j);
}

/// In timeout mode the iteration time does not matter.
pub proof fn law_timeout_replaces_the_iteration_time(
    cfg: Config,
    iteration_time_ns: u64,
    trace: Seq<Observation>,
)
    requires
        cfg.timeout_seconds != -1,
    ensures
        iteration_after(Config { iteration_time_ns, ..cfg }, trace) == iteration_after(cfg, trace),
    decreases trace.len(),
{
    if trace.len() > 0 {
        law_timeout_replaces_the_iteration_time(cfg, iteration_time_ns, trace.drop_last());
    }
}

/// What an iteration came to stays: its end, and its failure.
pub proof fn law_end_is_final(cfg: Config, it: Iteration, seen: Observation)
    ensures
        it.phase is Finished || it.phase is LaunchFailed || it.phase is PollFailed
            ==> next_iteration(cfg, it, seen) == it,
        it.did_fail ==> next_iteration(cfg, it, seen).did_fail,
{
}

/// The campaign after a series of steps.
pub open spec fn campaign_after(cfg: Config, trace: Seq<CampaignObservation>) -> CampaignView
    decreases trace.len(),
{
    if trace.len() == 0 {
        CampaignView::initial()
    } else {
        next_campaign(cfg, campaign_after(cfg, trace.drop_last()), trace.last())
    }
}

/// A campaign has no more iterations than it may have, and runs one only while one is left.
pub proof fn law_iterations_are_limited(cfg: Config, trace: Seq<CampaignObservation>)
    ensures
        cfg.max_iterations >= 0 ==> campaign_after(cfg, trace).durations.len()
            <= cfg.max_iterations,
        campaign_after(cfg, trace).phase is RunIteration ==> iterations_left(
            cfg,
            campaign_after(cfg, trace),
        ),
    decreases trace.len(),
{
    if trace.len() > 0 {
        law_iterations_are_limited(cfg, trace.drop_last());
    }
}

/// What is seen shows that the scheduler is attached, and that no end was asked for.
pub open spec fn shows_attached(seen: CampaignObservation) -> bool {
    seen matches CampaignObservation::Flags { attached, done } && attached && !done
}

/// The campaign is still to wait for the scheduler, or was over before it came.
pub open spec fn is_waiting(campaign: CampaignView) -> bool {
    &&& campaign.durations.len() == 0
    &&& campaign.phase is AwaitScheduler || campaign.phase is Wait || campaign.phase is Finished
}

/// Nothing is launched before the scheduler was seen to be attached.
pub proof fn law_waits_for_the_scheduler(cfg: Config, trace: Seq<CampaignObservation>)
    ensures
        is_waiting(campaign_after(cfg, trace)) || exists|i: int|
            0 <= i < trace.len() && shows_attached(#[trigger] trace[i]),
    decreases trace.len(),
{
    if trace.len() > 0 {
        let before = trace.drop_last();
        law_waits_for_the_scheduler(cfg, before);
        if is_waiting(campaign_after(cfg, before)) {
            if !is_waiting(campaign_after(cfg, trace)) {
                assert(shows_attached(trace[trace.len() - 1]));
            }
        } else {
            let i = choose|i: int| 0 <= i < before.len() && shows_attached(#[trigger] before[i]);
            assert(shows_attached(trace[i]));
        }
    }
}

/// A campaign that is on its way to its end.
pub open spec fn is_ending(campaign: CampaignView) -> bool {
    match campaign.phase {
        CampaignPhase::Report { failed } => failed,
        CampaignPhase::Summarize => true,
        CampaignPhase::Finished => true,
        _ => false,
    }
}

/// What is seen ends a campaign that runs an iteration: the iteration failed, or could not be run.
pub open spec fn ends_campaign(seen: CampaignObservation) -> bool {
    match seen {
        CampaignObservation::IterationEnded { did_fail, .. } => did_fail,
        CampaignObservation::IterationError => true,
        _ => false,
    }
}

/// The first iteration that fails or cannot be run is the last one: whatever follows, the
/// campaign is on its way to its end, and no iteration is added.
pub proof fn law_first_failure_is_the_last_iteration(
    cfg: Config,
    trace: Seq<CampaignObservation>,
    i: int,
)
    requires
        0 <= i < trace.len(),
        campaign_after(cfg, trace.take(i)).phase is RunIteration,
        ends_campaign(trace[i]),
    ensures
        is_ending(campaign_after(cfg, trace)),
        campaign_after(cfg, trace).durations == campaign_after(cfg, trace.take(i + 1)).durations,
    decreases trace.len(),
{
    let before = trace.drop_last();
    if i == before.len() {
        assert(trace.take(i) =~= before);
        assert(trace.take(i + 1) =~= trace);
    } else {
        assert(before.take(i) =~= trace.take(i));
        assert(before.take(i + 1) =~= trace.take(i + 1));
        law_first_failure_is_the_last_iteration(cfg, before, i);
    }
}

/// What the supervisor does at a time: a step of the campaign, and what came of it; or all steps
/// of an iteration, what came of them, and how long they took in seconds.
pub enum SupervisorStep {
    Campaign(CampaignObservation),
    Iteration { trace: Seq<Observation>, duration: Double },
}

/// A campaign with the iterations in it.
pub struct RunView {
    pub campaign: CampaignView,
    /// What the threads share, as far as the supervisor changes it.
    pub shared: Shared,
    /// How many iterations were begun.
    pub iterations: nat,
    /// An iteration could not read the state of its target.
    pub unreadable: bool,
}

/// What a step shows to the campaign; `None` where it is not the campaign's to take. What an
/// iteration comes to is shown by its own steps only.
pub open spec fn step_shows(
    cfg: Config,
    campaign: CampaignView,
    step: SupervisorStep,
) -> Option<CampaignObservation> {
    match step {
        SupervisorStep::Campaign(seen) => if seen is IterationEnded || seen is IterationError {
            None
        } else {
            Some(seen)
        },
        SupervisorStep::Iteration { trace, duration } => if campaign.phase is RunIteration {
            iteration_outcome(iteration_after(cfg, trace), duration)
        } else {
            None
        },
    }
}

/// What follows a step of a campaign with its iterations.
pub open spec fn next_run(cfg: Config, run: RunView, step: SupervisorStep) -> RunView {
    match step_shows(cfg, run.campaign, step) {
        Some(seen) => match step {
            SupervisorStep::Campaign(_) => RunView {
                campaign: next_campaign(cfg, run.campaign, seen),
                shared: if seen is Performed {
                    shared_after_campaign_step(run.campaign, run.shared)
                } else {
                    run.shared
                },
                ..run
            },
            SupervisorStep::Iteration { trace, .. } => RunView {
                campaign: next_campaign(cfg, run.campaign, seen),
                shared: shared_after(cfg, run.shared, trace),
                iterations: run.iterations + 1,
                unreadable: run.unreadable || iteration_after(cfg, trace).phase is PollFailed,
            },
        },
        None => run,
    }
}

/// A campaign with its iterations after a series of steps.
pub open spec fn run_after(cfg: Config, start: Shared, steps: Seq<SupervisorStep>) -> RunView
    decreases steps.len(),
{
    if steps.len() == 0 {
        RunView {
            campaign: CampaignView::initial(),
            shared: start,
            iterations: 0,
            unreadable: false,
        }
    } else {
        next_run(cfg, run_after(cfg, start, steps.drop_last()), steps.last())
    }
}

/// What a series of steps shows to the campaign.
pub open spec fn steps_show(
    cfg: Config,
    start: Shared,
    steps: Seq<SupervisorStep>,
) -> Seq<CampaignObservation>
    decreases steps.len(),
{
    if steps.len() == 0 {
        Seq::empty()
    } else {
        let before = steps_show(cfg, start, steps.drop_last());
        match step_shows(cfg, run_after(cfg, start, steps.drop_last()).campaign, steps.last()) {
            Some(seen) => before.push(seen),
            None => before,
        }
    }
}

/// A campaign with its iterations is a campaign: what holds of every series of what a campaign
/// sees holds of it.
pub proof fn law_run_is_a_campaign(cfg: Config, start: Shared, steps: Seq<SupervisorStep>)
    ensures
        run_after(cfg, start, steps).campaign == campaign_after(
            cfg,
            steps_show(cfg, start, steps),
        ),
    decreases steps.len(),
{
    if steps.len() > 0 {
        let before = steps.drop_last();
        law_run_is_a_campaign(cfg, start, before);
        let run = run_after(cfg, start, before);
        if let Some(seen) = step_shows(cfg, run.campaign, steps.last()) {
            let shown = steps_show(cfg, start, before);
            assert(shown.push(seen).drop_last() =~= shown);
        }
    }
}

/// Each iteration that begins brings a new generation. Between the iterations, and at the end,
/// there is nothing to fuzz, as at the start, unless the state of a target could not be read. An
/// iteration that could not be run, or whose target could not be read, is the last one. Whether
/// the scheduler is attached is not the supervisor's to change.
pub proof fn law_iterations_leave_nothing_behind(
    cfg: Config,
    start: Shared,
    steps: Seq<SupervisorStep>,
)
    ensures
        ({
            let run = run_after(cfg, start, steps);
            let count = run.campaign.durations.len();
            &&& run.shared.generation == (start.generation + run.iterations)
                % 0x1_0000_0000_0000_0000
            &&& start.script_pid == 0 && !run.unreadable ==> run.shared.script_pid == 0
            &&& run.shared.attached == start.attached
            &&& run.unreadable ==> is_ending(run.campaign)
            &&& run.iterations == count || (run.iterations == count + 1 && is_ending(run.campaign))
        }),
    decreases steps.len(),
{
    if steps.len() > 0 {
        let before = steps.drop_last();
        law_iterations_leave_nothing_behind(cfg, start, before);
        let run = run_after(cfg, start, before);
        if let Some(seen) = step_shows(cfg, run.campaign, steps.last()) {
            if let SupervisorStep::Iteration { trace, duration } = steps.last() {
                law_fuzzes_the_watched_process(cfg, run.shared, trace);
                let g = start.generation + run.iterations;
                assert((g % 0x1_0000_0000_0000_0000 + 1) % 0x1_0000_0000_0000_0000 == (g + 1)
                    % 0x1_0000_0000_0000_0000);
            }
        }
    }
}

/// No more iterations are begun than a campaign may have, those that could not be run included.
pub proof fn law_begun_iterations_are_limited(
    cfg: Config,
    start: Shared,
    steps: Seq<SupervisorStep>,
)
    ensures
        cfg.max_iterations >= 0 ==> run_after(cfg, start, steps).iterations <= cfg.max_iterations,
    decreases steps.len(),
{
    if steps.len() > 0 {
        let before = steps.drop_last();
        law_begun_iterations_are_limited(cfg, start, before);
        law_iterations_leave_nothing_behind(cfg, start, before);
        law_run_is_a_campaign(cfg, start, before);
        law_iterations_are_limited(cfg, steps_show(cfg, start, before));
    }
}

/// The step shows that an end was asked for.
pub open spec fn shows_done(step: SupervisorStep) -> bool {
    step matches SupervisorStep::Campaign(seen) && seen matches CampaignObservation::Flags {
        done,
        ..
    } && done
}

/// Once a campaign is over the other thread was asked to stop, by the campaign or before it.
pub proof fn law_end_stops_the_scheduler(cfg: Config, start: Shared, steps: Seq<SupervisorStep>)
    requires
        run_after(cfg, start, steps).campaign.phase is Finished,
    ensures
        run_after(cfg, start, steps).shared.done || exists|i: int|
            0 <= i < steps.len() && shows_done(#[trigger] steps[i]),
    decreases steps.len(),
{
    let before = steps.drop_last();
    let run = run_after(cfg, start, before);
    if run.campaign.phase is Finished {
        law_end_stops_the_scheduler(cfg, start, before);
        if !run.shared.done {
            let i = choose|i: int| 0 <= i < before.len() && shows_done(#[trigger] before[i]);
            assert(shows_done(steps[i]));
        }
    } else if run.campaign.phase is AwaitScheduler {
        assert(shows_done(steps[steps.len() - 1]));
    }
}

} // verus!
