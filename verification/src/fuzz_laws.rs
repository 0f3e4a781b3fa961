//! What the loader tells the scheduler, and what its events become.

use crate::config::{begun, fresh, signed_pid, Config, Shared};
use crate::diagram::{verb, EventType};
use crate::digits::numeral;
use crate::double::{fixed, nearest, Double};
use crate::fuzz::{
    event_type_of, loader_action, loader_after, log_line, runtime_config, scheduler_params, seconds,
    task_event, Loader, LoaderAction, EVENT_RUNNING, POLL_TIMEOUT_MS,
};
use crate::nearest::{lemma_den_pos, lemma_nearest_whole};
use crate::notation::{is_numeral_of, is_right_aligned, law_numeral, law_right_aligned};
use crate::rendering::lemma_unit_count;
use crate::rounding::up;
use crate::supervisor::{ATTACH_INTERVAL_MS, POLL_INTERVAL_MS};
use crate::text::right_aligned;
use vstd::prelude::*;

verus! {

/// The loader goes on polling if and only if the scheduler runs and no end was asked for.
pub proof fn law_loader_polls_until_the_end(loader: Loader, exited: bool, shared: Shared)
    ensures
        loader_action(loader, exited, shared) is Detach <==> exited || shared.done,
{
}

/// Whatever the loader remembers and whichever generation it is, with each poll the scheduler is
/// told the process that the supervisor named, and the generation in 32 bits. The clock of the
/// iteration is started anew if and only if the generation is not the remembered one.
pub proof fn law_loader_tells_the_target(loader: Loader, shared: Shared, pid: u32)
    requires
        !shared.done,
    ensures
        loader_action(
            loader,
            false,
            Shared { script_pid: signed_pid(pid), ..shared },
        ) matches LoaderAction::Poll { new_generation, config } && {
            &&& config.target_tgid == pid
            &&& config.generation == shared.generation % 0x1_0000_0000
            &&& new_generation <==> shared.generation != loader.generation
        },
{
}

/// With each poll the scheduler is told what there is to fuzz, and nothing if there is none.
pub proof fn law_loader_tells_of_no_target(loader: Loader, shared: Shared)
    requires
        !shared.done,
    ensures
        loader_action(loader, false, shared) matches LoaderAction::Poll { config, .. } && {
            &&& config.target_tgid == 0 <==> shared.script_pid == 0
            &&& shared.script_pid > 0 ==> config.target_tgid == shared.script_pid
            &&& shared.script_pid < 0 ==> config.target_tgid == shared.script_pid + 0x1_0000_0000
        },
{
}

/// What the scheduler is told depends on the target and on the generation alone.
pub proof fn law_flags_do_not_reach_the_scheduler(a: Shared, b: Shared)
    requires
        a.script_pid == b.script_pid,
        a.generation == b.generation,
    ensures
        runtime_config(a) == runtime_config(b),
{
}

/// Events with the code zero are those of tasks that run; all others are those of tasks that sleep.
pub proof fn law_event_codes(code: u32)
    ensures
        event_type_of(code) is Running <==> code == 0,
        event_type_of(code) is Sleeping <==> code != 0,
        EVENT_RUNNING == 0,
{
}

/// The duration of an event in seconds is that in nanoseconds over `10^9`: zero for zero, and
/// within one part in `2^51` otherwise. Up to `2^53` nanoseconds it is the nearest double.
pub proof fn law_event_duration_in_seconds(nanoseconds: u64)
    ensures
        ({
            let d = seconds(nanoseconds);
            let n = nanoseconds as nat;
            &&& d is Finite
            &&& !d.is_negative()
            &&& d.den() > 0
            &&& n == 0 ==> d.num() == 0
            &&& 0x8_0000_0000_0000 * (d.num() * 1_000_000_000) <= 0x8_0000_0000_0001 * (n
                * d.den())
            &&& 0x8_0000_0000_0000 * (d.num() * 1_000_000_000) >= 0x7_ffff_ffff_ffff * (n
                * d.den())
            &&& n <= 0x20_0000_0000_0000 ==> d == nearest(false, n, 1_000_000_000)
        }),
{
    if nanoseconds == 0 {
        let zero = nearest(false, 0, 1);
        let unit = nearest(false, 1_000_000_000, 1);
        let d = seconds(nanoseconds);
        lemma_nearest_whole(1_000_000_000);
        assert(zero.num() * unit.den() == 0) by (nonlinear_arith)
            requires
                zero.num() == 0 * up(zero->exponent as int),
        ;
        assert(!unit.is_zero()) by {
            if unit.is_zero() {
                assert(unit.num() == 0) by (nonlinear_arith)
                    requires
                        unit.num() == unit->mantissa as nat * up(unit->exponent as int),
                        unit->mantissa == 0,
                ;
            }
        }
        assert(d == zero);
        lemma_den_pos(d);
        assert(d.num() == 0) by (nonlinear_arith)
            requires
                d.num() == 0 * up(d->exponent as int),
        ;
        assert(0 * d.den() == 0) by (nonlinear_arith);
    } else {
        let d = lemma_unit_count(nanoseconds, 1_000_000_000);
    }
}

/// The line is made of the two clocks, the task, what it does, and for how many milliseconds.
pub open spec fn is_log_line(
    line: Seq<char>,
    overall: Seq<char>,
    iteration: Seq<char>,
    task: Seq<char>,
    event_type: EventType,
    millis: Seq<char>,
) -> bool {
    line == "["@ + overall + "|"@ + iteration + "] "@ + task + " is "@ + verb(event_type)
        + " for "@ + millis + "ms"@
}

/// The line of an event holds both clocks with three digits behind the point, right aligned in six
/// characters; the task; what it does; and the whole milliseconds of the duration, whatever the
/// task does.
pub proof fn law_log_line(
    overall: Double,
    iteration: Double,
    task: Seq<char>,
    event_type: EventType,
    duration_ns: u64,
)
    ensures
        exists|a: Seq<char>, b: Seq<char>, digits: Seq<char>, m: nat|
            {
                &&& #[trigger] is_log_line(
                    log_line(overall, iteration, task, event_type, duration_ns),
                    a,
                    b,
                    task,
                    event_type,
                    digits,
                )
                &&& is_right_aligned(a, fixed(overall, 3), 6)
                &&& is_right_aligned(b, fixed(iteration, 3), 6)
                &&& #[trigger] is_numeral_of(digits, m)
                &&& m * 1_000_000 <= duration_ns < (m + 1) * 1_000_000
            },
{
    let a = right_aligned(fixed(overall, 3), 6);
    let b = right_aligned(fixed(iteration, 3), 6);
    let m = duration_ns as nat / 1_000_000;
    let digits = numeral(m);
    law_right_aligned(fixed(overall, 3), 6);
    law_right_aligned(fixed(iteration, 3), 6);
    law_numeral(m);
    assert(is_log_line(
        log_line(overall, iteration, task, event_type, duration_ns),
        a,
        b,
        task,
        event_type,
        digits,
    ));
    assert(is_numeral_of(digits, m));
}

/// What a task does changes one word of its line and nothing else.
pub proof fn law_log_lines_differ_in_the_verb(
    overall: Double,
    iteration: Double,
    task: Seq<char>,
    duration_ns: u64,
)
    ensures
        exists|head: Seq<char>, tail: Seq<char>|
            {
                &&& log_line(overall, iteration, task, EventType::Running, duration_ns)
                    == #[trigger] (head + "running"@ + tail)
                &&& log_line(overall, iteration, task, EventType::Sleeping, duration_ns) == head
                    + "sleeping"@ + tail
            },
{
    let m = duration_ns as nat / 1_000_000;
    let head = "["@ + right_aligned(fixed(overall, 3), 6) + "|"@ + right_aligned(
        fixed(iteration, 3),
        6,
    ) + "] "@ + task + " is "@;
    let tail = " for "@ + numeral(m) + "ms"@;
    assert(log_line(overall, iteration, task, EventType::Running, duration_ns) =~= head
        + "running"@ + tail);
    assert(log_line(overall, iteration, task, EventType::Sleeping, duration_ns) =~= head
        + "sleeping"@ + tail);
}

/// The lines of events of the same length of time in milliseconds are the same.
pub proof fn law_log_line_counts_milliseconds(
    overall: Double,
    iteration: Double,
    task: Seq<char>,
    event_type: EventType,
    a: u64,
    b: u64,
    m: nat,
)
    requires
        m * 1_000_000 <= a < (m + 1) * 1_000_000,
        m * 1_000_000 <= b < (m + 1) * 1_000_000,
    ensures
        log_line(overall, iteration, task, event_type, a) == log_line(
            overall,
            iteration,
            task,
            event_type,
            b,
        ),
{
}

/// The target is looked at ten times in a second, the events are polled for as often, and the
/// scheduler is waited for a hundred times in a second.
pub proof fn law_intervals()
    ensures
        10 * POLL_INTERVAL_MS == 1_000,
        10 * POLL_TIMEOUT_MS == 1_000,
        100 * ATTACH_INTERVAL_MS == 1_000,
{
}

/// The scheduler is loaded with the ranges, the slices and the seed that the settings hold, each in
/// its own place.
pub proof fn law_parameters_of_the_scheduler(cfg: Config)
    ensures
        ({
            let params = scheduler_params(cfg);
            &&& params.run_min_ns == cfg.run_range.min_ns
            &&& params.run_max_ns == cfg.run_range.max_ns
            &&& params.sleep_min_ns == cfg.sleep_range.min_ns
            &&& params.sleep_max_ns == cfg.sleep_range.max_ns
            &&& params.slice_ns == cfg.slice_ns
            &&& params.system_slice_ns == cfg.system_slice_ns
            &&& params.scale_slice == cfg.scale_slice
            &&& params.logging == cfg.log
            &&& params.seed == cfg.seed
        }),
{
}

/// Ranges that are in order reach the scheduler in order.
pub proof fn law_ranges_stay_in_order(cfg: Config)
    requires
        cfg.run_range.wf(),
        cfg.sleep_range.wf(),
    ensures
        scheduler_params(cfg).run_min_ns <= scheduler_params(cfg).run_max_ns,
        scheduler_params(cfg).sleep_min_ns <= scheduler_params(cfg).sleep_max_ns,
{
}

/// A loader that has polled remembers the generation, and takes it for a new one only once, however
/// often it polls. One that detaches remembers what it did.
pub proof fn law_loader_remembers_the_generation(loader: Loader, exited: bool, shared: Shared)
    ensures
        !exited && !shared.done ==> {
            let after = loader_after(loader, exited, shared);
            &&& after.generation == shared.generation
            &&& loader_action(after, exited, shared) matches LoaderAction::Poll {
                new_generation,
                ..
            } && !new_generation
        },
        exited || shared.done ==> loader_after(loader, exited, shared) == loader,
{
}

/// An event is recorded at the time since the start of the campaign, for its task, as what the task
/// does, and with its duration.
pub proof fn law_recorded_events(
    overall: Double,
    task: Seq<char>,
    event_type: EventType,
    duration_ns: u64,
)
    ensures
        ({
            let e = task_event(overall, task, event_type, duration_ns);
            &&& e.time == overall
            &&& e.task == task
            &&& e.event_type == event_type
            &&& e.duration == seconds(duration_ns)
        }),
{
}

/// Before anything has happened there is nothing to fuzz, the scheduler is not attached, and no end
/// is asked for. A loader that has not polled yet is up to date with that, and takes the first
/// iteration for a new one.
pub proof fn law_start()
    ensures
        fresh().script_pid == 0,
        !fresh().attached,
        !fresh().done,
        runtime_config(fresh()).target_tgid == 0,
        Loader::initial().generation == fresh().generation,
        loader_action(Loader::initial(), false, fresh()) matches LoaderAction::Poll {
            new_generation,
            ..
        } && !new_generation,
        loader_action(Loader::initial(), false, begun(fresh())) matches LoaderAction::Poll {
            new_generation,
            ..
        } && new_generation,
{
}

} // verus!
