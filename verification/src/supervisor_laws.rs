//! What the decisions of the supervisor are for: on what each step of an iteration and of a
//! campaign depends, what it leads to, and what is printed.

use crate::clock::duration_nanos;
use crate::config::{begun, signed_pid, Config, Shared};
use crate::double::{fixed, Double};
use crate::stats::rendered_stats;
use crate::supervisor::{
    campaign_after, iteration_outcome, next_campaign, next_iteration, rendered_report,
    rendered_summary, shared_after_campaign_step, shared_after_step, CampaignObservation,
    CampaignPhase, CampaignView, Iteration, Observation, Phase, TargetStatus,
};
use core::time::Duration;
use vstd::prelude::*;

verus! {

/// An iteration begins, launches its target, lets it be fuzzed, and then watches it. A target that
/// cannot be launched ends it. None of this is a failure.
pub proof fn law_iteration_launches_its_target(cfg: Config, it: Iteration, pid: u32)
    ensures
        it.phase is Begin ==> {
            let next = next_iteration(cfg, it, Observation::Performed);
            next.phase is Launch && next.did_fail == it.did_fail
        },
        it.phase is Launch ==> {
            let next = next_iteration(cfg, it, Observation::Launched(Some(pid)));
            next.phase == (Phase::SetTarget { pid }) && next.did_fail == it.did_fail
        },
        it.phase is Launch ==> {
            let next = next_iteration(cfg, it, Observation::Launched(None));
            next.phase is LaunchFailed && next.did_fail == it.did_fail
        },
        it.phase is SetTarget ==> {
            let next = next_iteration(cfg, it, Observation::Performed);
            next.phase is CheckStop && next.did_fail == it.did_fail
        },
{
}

/// A watched target is left alone if and only if no end was asked for; being asked to end is no
/// failure.
pub proof fn law_stop_ends_the_watch(cfg: Config, it: Iteration, stop: bool)
    requires
        it.phase is CheckStop,
    ensures
        ({
            let next = next_iteration(cfg, it, Observation::Stop(stop));
            &&& stop <==> next.phase is ClearTarget
            &&& !stop <==> next.phase is Sleep
            &&& next.did_fail == it.did_fail
        }),
{
}

/// The watch of a target goes on if and only if the target still runs. A target that exited is
/// torn down, and its exit is a failure if and only if it was without success.
pub proof fn law_exit_ends_the_watch(cfg: Config, it: Iteration, status: TargetStatus)
    requires
        it.phase is PollTarget,
    ensures
        ({
            let next = next_iteration(cfg, it, Observation::Target(status));
            &&& status is Running <==> next.phase is ReadErrorClock
            &&& status is Exited <==> next.phase is ClearTarget
            &&& status is Unknown <==> next.phase is PollFailed
            &&& next.did_fail == (it.did_fail || status == (TargetStatus::Exited {
                success: false,
            }))
        }),
{
}

/// The error command is run if and only if there is one and its interval has passed. Where the
/// interval has passed and there is none, the clock is started anew all the same.
pub proof fn law_error_command_runs_at_its_interval(cfg: Config, it: Iteration, elapsed: Duration)
    requires
        it.phase is ReadErrorClock,
    ensures
        ({
            let next = next_iteration(cfg, it, Observation::Elapsed(elapsed));
            let passed = duration_nanos(elapsed) >= cfg.error_check_interval_ns;
            &&& passed && cfg.error_command@.len() > 0 <==> next.phase is RunErrorCommand
            &&& passed && cfg.error_command@.len() == 0 <==> next.phase is RestartErrorClock
            &&& !passed <==> next.phase is ReadRunClock
            &&& next.did_fail == it.did_fail
        }),
{
}

/// An error command that succeeds ends the watch, as a failure. One that does not, or could not be
/// run, has its clock started anew, and the watch goes on.
pub proof fn law_error_command_decides(cfg: Config, it: Iteration, success: Option<bool>)
    requires
        it.phase is RunErrorCommand,
    ensures
        ({
            let next = next_iteration(cfg, it, Observation::ErrorCommand(success));
            &&& success == Some(true) <==> next.phase is ClearTarget
            &&& success != Some(true) <==> next.phase is RestartErrorClock
            &&& next.did_fail == (it.did_fail || success == Some(true))
        }),
{
}

/// How long a target may run, in nanoseconds: the iteration time; or with a timeout the timeout,
/// whose seconds count as an unsigned number.
pub open spec fn run_limit(cfg: Config) -> nat {
    if cfg.timeout_seconds == -1 {
        cfg.iteration_time_ns as nat
    } else if cfg.timeout_seconds >= 0 {
        1_000_000_000 * cfg.timeout_seconds as nat
    } else {
        (1_000_000_000 * (0x1_0000_0000_0000_0000 + cfg.timeout_seconds)) as nat
    }
}

/// A watched iteration goes on if and only if its target has run for less than it may, whatever
/// the other settings are. Outside timeout mode the end is no failure: the target is torn down. In
/// timeout mode it is a failure, which is reported.
pub proof fn law_run_clock_decides(cfg: Config, it: Iteration, elapsed: Duration)
    requires
        it.phase is ReadRunClock,
    ensures
        ({
            let next = next_iteration(cfg, it, Observation::Elapsed(elapsed));
            let over = duration_nanos(elapsed) >= run_limit(cfg);
            &&& !over <==> next.phase is CheckStop
            &&& over && cfg.timeout_seconds == -1 <==> next.phase is ClearTarget
            &&& over && cfg.timeout_seconds != -1 <==> next.phase is ReportTimeout
            &&& next.did_fail == (it.did_fail || (over && cfg.timeout_seconds != -1))
        }),
{
}

/// A target that is torn down is killed for as long as it runs, and the iteration is over if and
/// only if it has exited. Whether the iteration failed is decided before.
pub proof fn law_tear_down_ends_with_the_exit(cfg: Config, it: Iteration, status: TargetStatus)
    requires
        it.phase is PollStopped,
    ensures
        ({
            let next = next_iteration(cfg, it, Observation::Target(status));
            &&& status is Running <==> next.phase is Kill
            &&& status is Exited <==> next.phase is Finished
            &&& status is Unknown <==> next.phase is PollFailed
            &&& next.did_fail == it.did_fail
        }),
{
}

/// The steps that decide nothing follow each other: a wait is followed by a look at the target, a
/// restart of the error clock by a look at the run clock, a report of the timeout by the tear down,
/// and a kill by a look at whether the target is gone.
pub proof fn law_plain_steps_follow_each_other(cfg: Config, it: Iteration)
    ensures
        ({
            let next = next_iteration(cfg, it, Observation::Performed);
            &&& it.phase is Sleep ==> next.phase is PollTarget
            &&& it.phase is RestartErrorClock ==> next.phase is ReadRunClock
            &&& it.phase is ReportTimeout ==> next.phase is ClearTarget
            &&& it.phase is ClearTarget ==> next.phase is PollStopped
            &&& it.phase is Kill ==> next.phase is PollStopped
            &&& next.did_fail == it.did_fail
        }),
{
}

/// The step of the phase can show such a thing.
pub open spec fn can_show(phase: Phase, seen: Observation) -> bool {
    match seen {
        Observation::Performed => phase is Begin || phase is SetTarget || phase is Sleep || phase
            is RestartErrorClock || phase is ReportTimeout || phase is ClearTarget || phase is Kill,
        Observation::Launched(_) => phase is Launch,
        Observation::Stop(_) => phase is CheckStop,
        Observation::Target(_) => phase is PollTarget || phase is PollStopped,
        Observation::Elapsed(_) => phase is ReadErrorClock || phase is ReadRunClock,
        Observation::ErrorCommand(_) => phase is RunErrorCommand,
    }
}

/// An iteration moves on if and only if it sees what its step can show. One that is over does not
/// move on.
pub proof fn law_iteration_moves_on_what_it_awaits(cfg: Config, it: Iteration, seen: Observation)
    ensures
        can_show(it.phase, seen) <==> next_iteration(cfg, it, seen).phase != it.phase,
        !can_show(it.phase, seen) ==> next_iteration(cfg, it, seen) == it,
{
}

/// A step notes a failure if and only if it saw one of three things: that the watched target exited
/// without success, that the error command succeeded, or that the target has run for as long as the
/// timeout. A failure that was noted stays.
pub proof fn law_failures_are_noted(cfg: Config, it: Iteration, seen: Observation)
    ensures
        next_iteration(cfg, it, seen).did_fail <==> {
            ||| it.did_fail
            ||| it.phase is PollTarget && seen == Observation::Target(
                TargetStatus::Exited { success: false },
            )
            ||| it.phase is RunErrorCommand && seen == Observation::ErrorCommand(Some(true))
            ||| it.phase is ReadRunClock && cfg.timeout_seconds != -1 && (
            seen matches Observation::Elapsed(elapsed) && duration_nanos(elapsed) >= run_limit(cfg))
        },
{
}

/// Of the settings, a step of an iteration depends on the time limits, on the interval of the error
/// checks, and on whether there is an error command; and on nothing else.
pub proof fn law_settings_of_an_iteration(
    a: Config,
    b: Config,
    it: Iteration,
    seen: Observation,
)
    requires
        a.iteration_time_ns == b.iteration_time_ns,
        a.timeout_seconds == b.timeout_seconds,
        a.error_check_interval_ns == b.error_check_interval_ns,
        a.error_command@.len() == 0 <==> b.error_command@.len() == 0,
    ensures
        next_iteration(a, it, seen) == next_iteration(b, it, seen),
{
}

/// A process id keeps its number up to `2^31`, and is that less `2^32` from there on. So none is
/// taken for another, and none but zero for no target.
pub proof fn law_process_ids_stay_apart(a: u32, b: u32)
    ensures
        signed_pid(a) == if a < 0x8000_0000 {
            a as int
        } else {
            a - 0x1_0000_0000
        },
        signed_pid(a) == signed_pid(b) <==> a == b,
        signed_pid(a) == 0 <==> a == 0,
{
}

/// What the steps of an iteration change in the shared state: its begin takes the target away and
/// counts the generation up, its launch names the target, its tear down takes the target away. No
/// step changes anything else.
pub proof fn law_steps_change_target_and_generation(it: Iteration, shared: Shared)
    ensures
        ({
            let next = shared_after_step(it, shared);
            &&& next.attached == shared.attached
            &&& next.done == shared.done
            &&& it.phase is Begin ==> next.script_pid == 0 && next.generation == if shared.generation
                == u64::MAX {
                0
            } else {
                shared.generation + 1
            }
            &&& it.phase !is Begin ==> next.generation == shared.generation
            &&& it.phase matches Phase::SetTarget { pid } ==> next.script_pid == signed_pid(pid)
            &&& it.phase is ClearTarget ==> next.script_pid == 0
            &&& it.phase !is Begin && it.phase !is SetTarget && it.phase !is ClearTarget
                ==> next.script_pid == shared.script_pid
        }),
{
}

/// An iteration comes to something for its campaign if and only if it is over. One whose target has
/// exited comes to its time and to whether it failed; the others could not be run.
pub proof fn law_outcome_of_an_iteration(it: Iteration, duration: Double)
    ensures
        ({
            let outcome = iteration_outcome(it, duration);
            &&& outcome is Some <==> it.phase is Finished || it.phase is LaunchFailed || it.phase
                is PollFailed
            &&& it.phase is Finished <==> outcome == Some(
                CampaignObservation::IterationEnded { duration, did_fail: it.did_fail },
            )
            &&& it.phase is LaunchFailed || it.phase is PollFailed <==> outcome == Some(
                CampaignObservation::IterationError,
            )
        }),
{
}

/// A campaign waits until the scheduler is attached. It ends where an end is asked for before.
pub proof fn law_campaign_waits_for_the_scheduler(
    cfg: Config,
    campaign: CampaignView,
    attached: bool,
    done: bool,
)
    requires
        campaign.phase is AwaitScheduler,
    ensures
        ({
            let seen = CampaignObservation::Flags { attached, done };
            let next = next_campaign(cfg, campaign, seen);
            &&& done <==> next.phase is Finished
            &&& attached && !done <==> next.phase is CheckStop
            &&& !attached && !done <==> next.phase is Wait
            &&& next.durations == campaign.durations
        }),
{
}

/// A campaign runs another iteration if and only if no end was asked for, and there is no limit or
/// it is not reached. Whether the scheduler is attached does not matter any more.
pub proof fn law_campaign_goes_on_while_it_may(
    cfg: Config,
    campaign: CampaignView,
    attached: bool,
    done: bool,
)
    requires
        campaign.phase is CheckStop,
    ensures
        ({
            let seen = CampaignObservation::Flags { attached, done };
            let next = next_campaign(cfg, campaign, seen);
            let limited = cfg.max_iterations >= 0 && campaign.durations.len()
                >= cfg.max_iterations;
            &&& !done && !limited <==> next.phase is RunIteration
            &&& done || limited <==> next.phase is Summarize
            &&& next.durations == campaign.durations
        }),
{
}

/// An iteration that ended adds its time behind those before, and is reported as what it was. One
/// that could not be run adds nothing, and leads to the end of the campaign.
pub proof fn law_campaign_counts_its_iterations(
    cfg: Config,
    campaign: CampaignView,
    duration: Double,
    did_fail: bool,
)
    requires
        campaign.phase is RunIteration,
    ensures
        ({
            let seen = CampaignObservation::IterationEnded { duration, did_fail };
            let next = next_campaign(cfg, campaign, seen);
            &&& next.phase == (CampaignPhase::Report { failed: did_fail })
            &&& next.durations.len() == campaign.durations.len() + 1
            &&& next.durations.last() == duration
            &&& next.durations.drop_last() == campaign.durations
        }),
        ({
            let next = next_campaign(cfg, campaign, CampaignObservation::IterationError);
            next.phase is Summarize && next.durations == campaign.durations
        }),
{
    let seen = CampaignObservation::IterationEnded { duration, did_fail };
    assert(next_campaign(cfg, campaign, seen).durations.drop_last() =~= campaign.durations);
}

/// After its report, an iteration that failed leads to the end of the campaign, and one that did not
/// fail never does: whatever the settings are, a campaign with iterations left runs another one
/// unless an end is asked for.
pub proof fn law_campaign_runs_until_a_failure(
    cfg: Config,
    campaign: CampaignView,
    failed: bool,
    attached: bool,
)
    requires
        campaign.phase == (CampaignPhase::Report { failed }),
    ensures
        ({
            let next = next_campaign(cfg, campaign, CampaignObservation::Performed);
            let seen = CampaignObservation::Flags { attached, done: false };
            &&& failed <==> next.phase is Summarize
            &&& !failed <==> next.phase is CheckStop
            &&& next.durations == campaign.durations
            &&& !failed && (cfg.max_iterations < 0 || campaign.durations.len() < cfg.max_iterations)
                ==> next_campaign(cfg, next, seen).phase is RunIteration
        }),
{
}

/// The steps of a campaign that decide nothing: a wait is followed by another look, and the summary
/// is the last step.
pub proof fn law_plain_campaign_steps(cfg: Config, campaign: CampaignView)
    ensures
        ({
            let next = next_campaign(cfg, campaign, CampaignObservation::Performed);
            &&& campaign.phase is Wait ==> next.phase is AwaitScheduler
            &&& campaign.phase is Summarize ==> next.phase is Finished
            &&& next.durations == campaign.durations
        }),
{
}

/// The step of the phase can show such a thing.
pub open spec fn campaign_can_show(phase: CampaignPhase, seen: CampaignObservation) -> bool {
    match seen {
        CampaignObservation::Performed => phase is Wait || phase is Report || phase is Summarize,
        CampaignObservation::Flags { .. } => phase is AwaitScheduler || phase is CheckStop,
        CampaignObservation::IterationEnded { .. } => phase is RunIteration,
        CampaignObservation::IterationError => phase is RunIteration,
    }
}

/// A campaign moves on if and only if it sees what its step can show.
pub proof fn law_campaign_moves_on_what_it_awaits(
    cfg: Config,
    campaign: CampaignView,
    seen: CampaignObservation,
)
    ensures
        campaign_can_show(campaign.phase, seen) <==> next_campaign(cfg, campaign, seen).phase
            != campaign.phase,
        !campaign_can_show(campaign.phase, seen) ==> next_campaign(cfg, campaign, seen) == campaign,
{
}

/// Of the settings, a step of a campaign depends on the number of iterations and on nothing else.
pub proof fn law_settings_of_a_campaign(
    a: Config,
    b: Config,
    campaign: CampaignView,
    seen: CampaignObservation,
)
    requires
        a.max_iterations == b.max_iterations,
    ensures
        next_campaign(a, campaign, seen) == next_campaign(b, campaign, seen),
{
}

/// The step `i` is a reason for a campaign to end: an iteration that failed or could not be run, or
/// that an end was seen to be asked for.
pub open spec fn is_reason_to_end(
    cfg: Config,
    trace: Seq<CampaignObservation>,
    i: int,
) -> bool {
    &&& 0 <= i < trace.len()
    &&& match trace[i] {
        CampaignObservation::IterationEnded { did_fail, .. } => did_fail && campaign_after(
            cfg,
            trace.take(i),
        ).phase is RunIteration,
        CampaignObservation::IterationError => campaign_after(cfg, trace.take(i)).phase
            is RunIteration,
        CampaignObservation::Flags { done, .. } => done && {
            ||| campaign_after(cfg, trace.take(i)).phase is AwaitScheduler
            ||| campaign_after(cfg, trace.take(i)).phase is CheckStop
        },
        CampaignObservation::Performed => false,
    }
}

/// A campaign ends only with a reason: an iteration that failed or could not be run, an end that was
/// asked for, or as many iterations as there may be.
pub proof fn law_campaign_ends_with_a_reason(cfg: Config, trace: Seq<CampaignObservation>)
    ensures
        ({
            let campaign = campaign_after(cfg, trace);
            campaign.phase is Summarize || campaign.phase is Finished || campaign.phase == (
            CampaignPhase::Report { failed: true }) ==> {
                ||| exists|i: int| #[trigger] is_reason_to_end(cfg, trace, i)
                ||| 0 <= cfg.max_iterations <= campaign.durations.len()
            }
        }),
    decreases trace.len(),
{
    if trace.len() > 0 {
        let before = trace.drop_last();
        let n = before.len() as int;
        law_campaign_ends_with_a_reason(cfg, before);
        assert(trace.take(n) =~= before);
        if exists|i: int| #[trigger] is_reason_to_end(cfg, before, i) {
            let i = choose|i: int| #[trigger] is_reason_to_end(cfg, before, i);
            assert(trace.take(i) =~= before.take(i));
            assert(is_reason_to_end(cfg, trace, i));
        }
        let was = campaign_after(cfg, before);
        match trace[n] {
            CampaignObservation::IterationEnded { did_fail, .. } => {
                if did_fail && was.phase is RunIteration {
                    assert(is_reason_to_end(cfg, trace, n));
                }
            },
            CampaignObservation::IterationError => {
                if was.phase is RunIteration {
                    assert(is_reason_to_end(cfg, trace, n));
                }
            },
            CampaignObservation::Flags { done, .. } => {
                if done && (was.phase is AwaitScheduler || was.phase is CheckStop) {
                    assert(is_reason_to_end(cfg, trace, n));
                }
            },
            CampaignObservation::Performed => {},
        }
    }
}

/// The other thread is asked to stop with the last step of a campaign, and with no other. Nothing
/// else is changed.
pub proof fn law_campaign_asks_for_the_end_last(campaign: CampaignView, shared: Shared)
    ensures
        ({
            let next = shared_after_campaign_step(campaign, shared);
            &&& next.done <==> shared.done || campaign.phase is Summarize
            &&& next.attached == shared.attached
            &&& next.script_pid == shared.script_pid
            &&& next.generation == shared.generation
        }),
{
}

/// Wherever an iteration ended, the statistics of all iterations are printed, either in the report
/// after each of them or in the summary: there they are all that is printed. Without an iteration
/// there are none.
pub proof fn law_statistics_are_printed_once(
    cfg: Config,
    campaign: CampaignView,
    failed: bool,
    elapsed: Double,
)
    ensures
        ({
            let stats = rendered_stats(campaign.durations) + "\n"@;
            let report = rendered_report(cfg, campaign, failed, elapsed);
            let summary = rendered_summary(cfg, campaign);
            let ended = campaign.durations.len() > 0;
            &&& stats.len() > 0
            &&& !cfg.log && ended ==> summary == stats && summary.len() > 0
            &&& cfg.log || !ended ==> summary.len() == 0
            &&& cfg.log && ended ==> stats.is_prefix_of(report)
            &&& !cfg.log && !failed ==> report.len() == 0
        }),
{
    reveal_strlit("\n");
    let stats = rendered_stats(campaign.durations) + "\n"@;
    let report = rendered_report(cfg, campaign, failed, elapsed);
    if cfg.log && campaign.durations.len() > 0 {
        assert(stats =~= report.subrange(0, stats.len() as int));
    }
}

/// The line on a failure.
pub open spec fn failure_line(elapsed: Double) -> Seq<char> {
    "Program failed after "@ + fixed(elapsed, 3) + "\n"@
}

/// A failure is reported last, with the time since the start of the campaign; where there is none,
/// nothing stands in the place of its line. The line is all that a failure changes in a report.
pub proof fn law_failure_is_reported(cfg: Config, campaign: CampaignView, elapsed: Double)
    ensures
        rendered_report(cfg, campaign, true, elapsed) == rendered_report(
            cfg,
            campaign,
            false,
            elapsed,
        ) + failure_line(elapsed),
{
    assert(rendered_report(cfg, campaign, true, elapsed) =~= rendered_report(
        cfg,
        campaign,
        false,
        elapsed,
    ) + failure_line(elapsed));
}

/// In a logged campaign an empty line follows the statistics; without a failure it ends the report.
pub proof fn law_logged_report_without_failure(
    cfg: Config,
    campaign: CampaignView,
    elapsed: Double,
)
    requires
        cfg.log,
    ensures
        campaign.durations.len() > 0 ==> rendered_report(cfg, campaign, false, elapsed)
            == rendered_stats(campaign.durations) + seq!['\n', '\n'],
        campaign.durations.len() == 0 ==> rendered_report(cfg, campaign, false, elapsed) == seq![
            '\n',
        ],
{
    reveal_strlit("\n");
    if campaign.durations.len() > 0 {
        assert(rendered_report(cfg, campaign, false, elapsed) =~= rendered_stats(
            campaign.durations,
        ) + seq!['\n', '\n']);
    } else {
        assert(rendered_report(cfg, campaign, false, elapsed) =~= seq!['\n']);
    }
}

/// What is printed depends on the times and on whether the campaign is logged: on no other setting,
/// and not on the phase.
pub proof fn law_settings_of_the_reports(
    a: Config,
    b: Config,
    x: CampaignView,
    y: CampaignView,
    failed: bool,
    elapsed: Double,
)
    requires
        a.log == b.log,
        x.durations == y.durations,
    ensures
        rendered_report(a, x, failed, elapsed) == rendered_report(b, y, failed, elapsed),
        rendered_summary(a, x) == rendered_summary(b, y),
{
}

/// An iteration begins without a target and with another generation than the one before. It changes
/// nothing else.
pub proof fn law_generations_differ(shared: Shared)
    ensures
        begun(shared).generation != shared.generation,
        shared.generation < u64::MAX ==> begun(shared).generation == shared.generation + 1,
        begun(shared).script_pid == 0,
        begun(shared).attached == shared.attached,
        begun(shared).done == shared.done,
{
}

/// An iteration has not failed before its first step, and that step begins it. A campaign has no
/// times before its first step, and that step is to look for the scheduler.
pub proof fn law_first_steps()
    ensures
        Iteration::initial().phase is Begin,
        !Iteration::initial().did_fail,
        CampaignView::initial().phase is AwaitScheduler,
        CampaignView::initial().durations.len() == 0,
{
}

} // verus!
