use concurrency_fuzz_scheduler::config::{
    parse_duration_ns, parse_duration_range, Config, Shared,
};
use concurrency_fuzz_scheduler::double::Double;
use concurrency_fuzz_scheduler::duration::DurationRange;
use concurrency_fuzz_scheduler::fuzz::SchedulerParams;
use concurrency_fuzz_scheduler::supervisor::{
    Campaign, CampaignObservation, CampaignPhase, Iteration, Observation, Phase, TargetStatus,
};
use std::time::Duration;

fn settings() -> Config {
    Config {
        script: "samples/run_queue.sh".to_string(),
        sleep_range: parse_duration_range("10ms,2000ms").unwrap(),
        run_range: parse_duration_range("1ms,100ms").unwrap(),
        system_slice_ns: parse_duration_ns("5ms").unwrap(),
        slice_ns: parse_duration_ns("5ms").unwrap(),
        error_command: String::new(),
        iteration_time_ns: parse_duration_ns("100s").unwrap(),
        scale_slice: true,
        max_iterations: -1,
        error_check_interval_ns: parse_duration_ns("10s").unwrap(),
        log: true,
        timeout_seconds: -1,
        seed: 0x1337,
    }
}

fn double(x: f64) -> Double {
    Double::from_bits(x.to_bits())
}

#[test]
fn settings_line() {
    assert_eq!(
        settings().to_text(),
        "sleep range: 10.000ms - 2.000s, run range: 1.000ms - 100.000ms, \
         system slice: 5.000ms, slice: 5.000ms, seed: 0x1337"
    );
}

#[test]
fn command_line_errors_in_words() {
    assert_eq!(
        parse_duration_ns("10"),
        Err("invalid duration string: 10".to_string())
    );
    assert_eq!(
        parse_duration_range("1s,2s,3s").map(|r| r.min_ns),
        Err("invalid duration range: 1s,2s,3s".to_string())
    );
    assert_eq!(
        parse_duration_range("1s,x").map(|r| r.min_ns),
        Err("invalid duration string: x".to_string())
    );
    assert_eq!(
        parse_duration_range("2s,1s").map(|r| r.min_ns),
        Err("min_ns must be less than or equal to max_ns".to_string())
    );
}

#[test]
fn times_of_the_settings() {
    let mut cfg = settings();
    assert!(!cfg.in_timeout_mode());
    assert_eq!(cfg.error_check_interval(), Duration::from_secs(10));
    assert_eq!(cfg.iteration_time(), Duration::from_secs(100));
    for seconds in [0, 1, 60, i64::MAX, -2, i64::MIN, -1] {
        cfg.timeout_seconds = seconds;
        assert_eq!(cfg.timeout(), Duration::from_secs(seconds as u64));
        assert_eq!(cfg.in_timeout_mode(), seconds != -1);
    }
}

#[test]
fn clone_keeps_the_settings() {
    let mut cfg = settings();
    cfg.error_command = "pgrep x".to_string();
    cfg.timeout_seconds = 3;
    let copy = cfg.clone();
    assert_eq!(copy.script, cfg.script);
    assert_eq!(copy.error_command, "pgrep x");
    assert_eq!(copy.to_text(), cfg.to_text());
    assert_eq!(
        (copy.iteration_time_ns, copy.scale_slice, copy.max_iterations),
        (cfg.iteration_time_ns, cfg.scale_slice, cfg.max_iterations)
    );
    assert_eq!(
        (copy.error_check_interval_ns, copy.log, copy.timeout_seconds, copy.seed),
        (cfg.error_check_interval_ns, cfg.log, 3, cfg.seed)
    );
}

#[test]
fn parameters_of_the_scheduler() {
    let mut cfg = settings();
    cfg.slice_ns = 7;
    cfg.scale_slice = false;
    let params = SchedulerParams::from_config(&cfg);
    assert_eq!((params.run_min_ns, params.run_max_ns), (1_000_000, 100_000_000));
    assert_eq!((params.sleep_min_ns, params.sleep_max_ns), (10_000_000, 2_000_000_000));
    assert_eq!((params.slice_ns, params.system_slice_ns), (7, 5_000_000));
    assert_eq!((params.scale_slice, params.logging, params.seed), (false, true, 0x1337));
}

#[test]
fn ranges_are_in_order() {
    let range = DurationRange::new(3, 4).unwrap();
    assert_eq!((range.min_ns, range.max_ns), (3, 4));
    assert!(DurationRange::new(4, 4).is_ok());
    assert_eq!(
        DurationRange::new(5, 4).unwrap_err().message(),
        "min_ns must be less than or equal to max_ns"
    );
}

fn launched(cfg: &Config, shared: &mut Shared, pid: u32) -> Iteration {
    let mut it = Iteration::new();
    assert_eq!(it.phase, Phase::Begin);
    it.update_shared(shared);
    it.observe(cfg, Observation::Performed);
    assert_eq!(it.phase, Phase::Launch);
    it.update_shared(shared);
    it.observe(cfg, Observation::Launched(Some(pid)));
    assert_eq!(it.phase, Phase::SetTarget { pid });
    assert_eq!(shared.script_pid, 0);
    it.update_shared(shared);
    it.observe(cfg, Observation::Performed);
    assert_eq!(it.phase, Phase::CheckStop);
    assert_eq!(shared.script_pid, pid as i32);
    it
}

fn poll(it: &mut Iteration, cfg: &Config, status: TargetStatus) {
    it.observe(cfg, Observation::Stop(false));
    assert_eq!(it.phase, Phase::Sleep);
    it.observe(cfg, Observation::Performed);
    assert_eq!(it.phase, Phase::PollTarget);
    it.observe(cfg, Observation::Target(status));
}

fn tear_down(it: &mut Iteration, cfg: &Config, shared: &mut Shared) {
    assert_eq!(it.phase, Phase::ClearTarget);
    it.update_shared(shared);
    assert_eq!(shared.script_pid, 0);
    it.observe(cfg, Observation::Performed);
    assert_eq!(it.phase, Phase::PollStopped);
    it.observe(cfg, Observation::Target(TargetStatus::Running));
    assert_eq!(it.phase, Phase::Kill);
    it.observe(cfg, Observation::Performed);
    assert_eq!(it.phase, Phase::PollStopped);
    it.observe(cfg, Observation::Target(TargetStatus::Exited { success: false }));
    assert_eq!(it.phase, Phase::Finished);
}

fn elapsed(it: &mut Iteration, cfg: &Config, time: Duration) {
    it.observe(cfg, Observation::Elapsed(time));
}

#[test]
fn a_crash_is_a_failure() {
    let cfg = settings();
    let mut shared = Shared::new();
    let mut it = launched(&cfg, &mut shared, 17);
    assert_eq!(shared.generation, 1);
    poll(&mut it, &cfg, TargetStatus::Exited { success: false });
    assert!(it.did_fail);
    tear_down(&mut it, &cfg, &mut shared);
    assert!(it.did_fail);
}

#[test]
fn success_is_no_failure() {
    let cfg = settings();
    let mut shared = Shared::new();
    let mut it = launched(&cfg, &mut shared, 17);
    poll(&mut it, &cfg, TargetStatus::Exited { success: true });
    tear_down(&mut it, &cfg, &mut shared);
    assert!(!it.did_fail);
}

#[test]
fn the_iteration_time_ends_an_iteration() {
    let cfg = settings();
    let mut shared = Shared::new();
    let mut it = launched(&cfg, &mut shared, 17);
    poll(&mut it, &cfg, TargetStatus::Running);
    assert_eq!(it.phase, Phase::ReadErrorClock);
    elapsed(&mut it, &cfg, Duration::from_millis(100));
    assert_eq!(it.phase, Phase::ReadRunClock);
    elapsed(&mut it, &cfg, Duration::from_nanos(99_999_999_999));
    assert_eq!(it.phase, Phase::CheckStop);
    poll(&mut it, &cfg, TargetStatus::Running);
    elapsed(&mut it, &cfg, Duration::ZERO);
    elapsed(&mut it, &cfg, Duration::from_secs(100));
    tear_down(&mut it, &cfg, &mut shared);
    assert!(!it.did_fail);
}

#[test]
fn a_timeout_is_a_failure() {
    let mut cfg = settings();
    cfg.timeout_seconds = 200;
    let mut shared = Shared::new();
    let mut it = launched(&cfg, &mut shared, 17);
    poll(&mut it, &cfg, TargetStatus::Running);
    elapsed(&mut it, &cfg, Duration::ZERO);
    elapsed(&mut it, &cfg, Duration::from_millis(199_999));
    assert_eq!(it.phase, Phase::CheckStop);
    poll(&mut it, &cfg, TargetStatus::Running);
    elapsed(&mut it, &cfg, Duration::ZERO);
    elapsed(&mut it, &cfg, Duration::from_secs(200));
    assert_eq!(it.phase, Phase::ReportTimeout);
    it.observe(&cfg, Observation::Performed);
    tear_down(&mut it, &cfg, &mut shared);
    assert!(it.did_fail);
}

#[test]
fn the_error_command_runs_at_its_interval() {
    let mut cfg = settings();
    cfg.error_command = "grep -q panic log".to_string();
    for (success, fails) in [(Some(true), true), (Some(false), false), (None, false)] {
        let mut shared = Shared::new();
        let mut it = launched(&cfg, &mut shared, 17);
        poll(&mut it, &cfg, TargetStatus::Running);
        elapsed(&mut it, &cfg, Duration::from_nanos(9_999_999_999));
        assert_eq!(it.phase, Phase::ReadRunClock);
        elapsed(&mut it, &cfg, Duration::from_secs(9));
        poll(&mut it, &cfg, TargetStatus::Running);
        elapsed(&mut it, &cfg, Duration::from_secs(10));
        assert_eq!(it.phase, Phase::RunErrorCommand);
        it.observe(&cfg, Observation::ErrorCommand(success));
        assert_eq!(it.did_fail, fails);
        if fails {
            tear_down(&mut it, &cfg, &mut shared);
        } else {
            assert_eq!(it.phase, Phase::RestartErrorClock);
            it.observe(&cfg, Observation::Performed);
            assert_eq!(it.phase, Phase::ReadRunClock);
        }
    }
}

#[test]
fn no_error_command_never_runs() {
    let cfg = settings();
    let mut shared = Shared::new();
    let mut it = launched(&cfg, &mut shared, 17);
    poll(&mut it, &cfg, TargetStatus::Running);
    elapsed(&mut it, &cfg, Duration::from_secs(10));
    assert_eq!(it.phase, Phase::RestartErrorClock);
    it.observe(&cfg, Observation::Performed);
    assert_eq!(it.phase, Phase::ReadRunClock);
}

#[test]
fn an_iteration_stops_when_asked() {
    let cfg = settings();
    let mut shared = Shared::new();
    let mut it = launched(&cfg, &mut shared, 17);
    it.observe(&cfg, Observation::Stop(true));
    tear_down(&mut it, &cfg, &mut shared);
    assert!(!it.did_fail);
}

#[test]
fn errors_end_an_iteration() {
    let cfg = settings();
    let mut it = Iteration::new();
    it.observe(&cfg, Observation::Performed);
    it.observe(&cfg, Observation::Launched(None));
    assert_eq!(it.phase, Phase::LaunchFailed);
    it.observe(&cfg, Observation::Performed);
    assert_eq!(it.phase, Phase::LaunchFailed);
    assert!(matches!(
        it.outcome(double(1.0)),
        Some(CampaignObservation::IterationError)
    ));

    let mut shared = Shared::new();
    let mut it = launched(&cfg, &mut shared, 17);
    poll(&mut it, &cfg, TargetStatus::Unknown);
    assert_eq!(it.phase, Phase::PollFailed);
    assert!(matches!(
        it.outcome(double(1.0)),
        Some(CampaignObservation::IterationError)
    ));

    let mut it = launched(&cfg, &mut shared, 17);
    it.observe(&cfg, Observation::Stop(true));
    it.observe(&cfg, Observation::Performed);
    it.observe(&cfg, Observation::Target(TargetStatus::Unknown));
    assert_eq!(it.phase, Phase::PollFailed);
}

#[test]
fn what_a_step_cannot_show_changes_nothing() {
    let cfg = settings();
    let mut it = Iteration::new();
    it.observe(&cfg, Observation::Stop(true));
    it.observe(&cfg, Observation::Target(TargetStatus::Running));
    it.observe(&cfg, Observation::Elapsed(Duration::from_secs(1000)));
    it.observe(&cfg, Observation::ErrorCommand(Some(true)));
    assert_eq!(it, Iteration { phase: Phase::Begin, did_fail: false });
    assert!(it.outcome(double(1.0)).is_none());
}

fn attached(cfg: &Config) -> Campaign {
    let mut campaign = Campaign::new();
    assert_eq!(campaign.phase, CampaignPhase::AwaitScheduler);
    campaign.observe(cfg, CampaignObservation::Flags { attached: false, done: false });
    assert_eq!(campaign.phase, CampaignPhase::Wait);
    campaign.observe(cfg, CampaignObservation::Performed);
    campaign.observe(cfg, CampaignObservation::Flags { attached: true, done: false });
    assert_eq!(campaign.phase, CampaignPhase::CheckStop);
    campaign
}

fn run_one(campaign: &mut Campaign, cfg: &Config, seconds: f64, did_fail: bool) {
    campaign.observe(cfg, CampaignObservation::Flags { attached: true, done: false });
    assert_eq!(campaign.phase, CampaignPhase::RunIteration);
    let it = Iteration { phase: Phase::Finished, did_fail };
    campaign.observe(cfg, it.outcome(double(seconds)).unwrap());
    assert_eq!(campaign.phase, CampaignPhase::Report { failed: did_fail });
}

#[test]
fn a_campaign_ends_at_the_first_failure() {
    let cfg = settings();
    let mut shared = Shared::new();
    let mut campaign = attached(&cfg);
    run_one(&mut campaign, &cfg, 1.0, false);
    campaign.observe(&cfg, CampaignObservation::Performed);
    assert_eq!(campaign.phase, CampaignPhase::CheckStop);
    run_one(&mut campaign, &cfg, 2.0, true);
    campaign.update_shared(&mut shared);
    campaign.observe(&cfg, CampaignObservation::Performed);
    assert_eq!(campaign.phase, CampaignPhase::Summarize);
    assert!(!shared.done);
    campaign.update_shared(&mut shared);
    assert!(shared.done);
    campaign.observe(&cfg, CampaignObservation::Performed);
    assert_eq!(campaign.phase, CampaignPhase::Finished);
    assert_eq!(campaign.durations.len(), 2);
}

#[test]
fn a_campaign_has_its_number_of_iterations() {
    for limit in [0, 1, 3] {
        let mut cfg = settings();
        cfg.max_iterations = limit;
        let mut campaign = attached(&cfg);
        for _ in 0..limit {
            run_one(&mut campaign, &cfg, 1.0, false);
            campaign.observe(&cfg, CampaignObservation::Performed);
        }
        campaign.observe(&cfg, CampaignObservation::Flags { attached: true, done: false });
        assert_eq!(campaign.phase, CampaignPhase::Summarize);
        assert_eq!(campaign.durations.len(), limit as usize);
    }
}

#[test]
fn a_campaign_stops_when_asked() {
    let cfg = settings();
    let mut campaign = Campaign::new();
    campaign.observe(&cfg, CampaignObservation::Flags { attached: true, done: true });
    assert_eq!(campaign.phase, CampaignPhase::Finished);
    let mut campaign = attached(&cfg);
    campaign.observe(&cfg, CampaignObservation::Flags { attached: true, done: true });
    assert_eq!(campaign.phase, CampaignPhase::Summarize);
}

#[test]
fn an_error_ends_a_campaign() {
    let cfg = settings();
    let mut campaign = attached(&cfg);
    campaign.observe(&cfg, CampaignObservation::Flags { attached: true, done: false });
    let it = Iteration { phase: Phase::LaunchFailed, did_fail: false };
    campaign.observe(&cfg, it.outcome(double(0.0)).unwrap());
    assert_eq!(campaign.phase, CampaignPhase::Summarize);
    assert_eq!(campaign.durations.len(), 0);
    assert_eq!(campaign.summary(&cfg), "");
}

#[test]
fn reports_of_a_logged_campaign() {
    let cfg = settings();
    let mut campaign = attached(&cfg);
    run_one(&mut campaign, &cfg, 2.3, true);
    assert_eq!(
        campaign.report(&cfg, true, double(2.303)),
        "\nIteration Count: 1\n\
         Iteration Duration: mean=2.3s+-0.0s,min=2.3s,max=2.3s\n\
         \n\
         Program failed after 2.303\n"
    );
    assert_eq!(
        campaign.report(&cfg, false, double(2.303)),
        "\nIteration Count: 1\n\
         Iteration Duration: mean=2.3s+-0.0s,min=2.3s,max=2.3s\n\
         \n"
    );
    assert_eq!(campaign.summary(&cfg), "");
}

#[test]
fn reports_of_a_quiet_campaign() {
    let mut cfg = settings();
    cfg.log = false;
    let mut campaign = attached(&cfg);
    run_one(&mut campaign, &cfg, 1.0, false);
    assert_eq!(campaign.report(&cfg, false, double(1.0)), "");
    campaign.observe(&cfg, CampaignObservation::Performed);
    run_one(&mut campaign, &cfg, 2.0, true);
    assert_eq!(campaign.report(&cfg, true, double(3.0)), "Program failed after 3.000\n");
    assert_eq!(
        campaign.summary(&cfg),
        "\nIteration Count: 2\n\
         Iteration Duration: mean=1.5s+-0.5s,min=1.0s,max=2.0s\n"
    );
}

#[test]
fn iterations_leave_nothing_behind() {
    let mut cfg = settings();
    cfg.max_iterations = 3;
    let mut shared = Shared::new();
    let mut campaign = attached(&cfg);
    for k in 1..=3 {
        campaign.observe(&cfg, CampaignObservation::Flags { attached: true, done: false });
        let mut it = launched(&cfg, &mut shared, 100 + k);
        assert_eq!(shared.generation, k as u64);
        poll(&mut it, &cfg, TargetStatus::Exited { success: true });
        tear_down(&mut it, &cfg, &mut shared);
        assert_eq!(shared.script_pid, 0);
        campaign.observe(&cfg, it.outcome(double(0.5)).unwrap());
        campaign.observe(&cfg, CampaignObservation::Performed);
    }
    campaign.observe(&cfg, CampaignObservation::Flags { attached: true, done: false });
    assert_eq!(campaign.phase, CampaignPhase::Summarize);
    campaign.update_shared(&mut shared);
    assert_eq!((shared.generation, shared.script_pid, shared.done), (3, 0, true));
}

#[test]
fn an_unreadable_target_stays_named() {
    let cfg = settings();
    let mut shared = Shared::new();
    let mut campaign = attached(&cfg);
    campaign.observe(&cfg, CampaignObservation::Flags { attached: true, done: false });
    let mut it = launched(&cfg, &mut shared, 17);
    poll(&mut it, &cfg, TargetStatus::Unknown);
    campaign.observe(&cfg, it.outcome(double(0.5)).unwrap());
    assert_eq!(campaign.phase, CampaignPhase::Summarize);
    assert_eq!((shared.generation, shared.script_pid), (1, 17));
}

#[test]
fn error_commands_keep_their_interval() {
    let mut cfg = settings();
    cfg.error_command = "false".to_string();
    let mut shared = Shared::new();
    let mut it = launched(&cfg, &mut shared, 17);
    for _ in 0..2 {
        poll(&mut it, &cfg, TargetStatus::Running);
        elapsed(&mut it, &cfg, Duration::from_secs(9));
        assert_eq!(it.phase, Phase::ReadRunClock);
        elapsed(&mut it, &cfg, Duration::ZERO);
        poll(&mut it, &cfg, TargetStatus::Running);
        elapsed(&mut it, &cfg, Duration::from_secs(10));
        assert_eq!(it.phase, Phase::RunErrorCommand);
        it.observe(&cfg, Observation::ErrorCommand(Some(false)));
        assert_eq!(it.phase, Phase::RestartErrorClock);
        it.observe(&cfg, Observation::Elapsed(Duration::from_secs(100)));
        assert_eq!(it.phase, Phase::RestartErrorClock);
        it.observe(&cfg, Observation::Performed);
        elapsed(&mut it, &cfg, Duration::ZERO);
        assert_eq!(it.phase, Phase::CheckStop);
    }
    poll(&mut it, &cfg, TargetStatus::Exited { success: true });
    elapsed(&mut it, &cfg, Duration::from_secs(10));
    tear_down(&mut it, &cfg, &mut shared);
    assert!(!it.did_fail);
}

#[test]
fn iterations_that_cannot_be_run_count() {
    let mut cfg = settings();
    cfg.max_iterations = 1;
    let mut shared = Shared::new();
    shared.script_pid = 5;
    shared.set_attached();
    let mut campaign = attached(&cfg);
    campaign.observe(&cfg, CampaignObservation::Flags { attached: true, done: false });
    let mut it = Iteration::new();
    it.update_shared(&mut shared);
    it.observe(&cfg, Observation::Performed);
    it.observe(&cfg, Observation::Launched(None));
    campaign.observe(&cfg, it.outcome(double(0.0)).unwrap());
    assert_eq!(campaign.phase, CampaignPhase::Summarize);
    campaign.observe(&cfg, CampaignObservation::Performed);
    campaign.observe(&cfg, CampaignObservation::Flags { attached: true, done: false });
    assert_eq!(campaign.phase, CampaignPhase::Finished);
    assert_eq!((shared.generation, shared.script_pid, shared.attached), (1, 0, true));
}
