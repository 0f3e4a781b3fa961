//! The user space side of the scheduler: what it is loaded with, what it is told while it runs,
//! and what becomes of the events that it sends.

use crate::config::{begun, fresh, signed_pid, unsigned_pid, Config, Shared};
use crate::diagram::{event_name, DiagramHelper, EventType, EventView};
use crate::digits::{numeral, numeral_text};
use crate::double::{fixed, nearest, quotient, Double};
use crate::nearest::lemma_nearest_whole;
use crate::rendering::lemma_unit_count;
use crate::rounding::up;
use crate::text::{align_right, right_aligned};
use vstd::prelude::*;
use vstd::utf8::{decode_utf8, valid_utf8};

verus! {

/// The time in milliseconds that one poll for events waits.
pub const POLL_TIMEOUT_MS: u64 = 100;

/// The code of the event that a task begins to run.
pub const EVENT_RUNNING: u32 = 0;

/// What the scheduler is loaded with, and cannot be changed afterwards.
pub struct SchedulerParams {
    pub run_min_ns: u64,
    pub run_max_ns: u64,
    pub sleep_min_ns: u64,
    pub sleep_max_ns: u64,
    pub slice_ns: u64,
    pub system_slice_ns: u64,
    pub scale_slice: bool,
    pub logging: bool,
    pub seed: u64,
}

/// The parameters that the settings ask for.
pub open spec fn scheduler_params(cfg: Config) -> SchedulerParams {
    SchedulerParams {
        run_min_ns: cfg.run_range.min_ns,
        run_max_ns: cfg.run_range.max_ns,
        sleep_min_ns: cfg.sleep_range.min_ns,
        sleep_max_ns: cfg.sleep_range.max_ns,
        slice_ns: cfg.slice_ns,
        system_slice_ns: cfg.system_slice_ns,
        scale_slice: cfg.scale_slice,
        logging: cfg.log,
        seed: cfg.seed,
    }
}

impl SchedulerParams {
    /// The parameters that the settings ask for.
    pub fn from_config(cfg: &Config) -> (params: Self)
        ensures
            params == (SchedulerParams {
                run_min_ns: cfg.run_range.min_ns,
                run_max_ns: cfg.run_range.max_ns,
                sleep_min_ns: cfg.sleep_range.min_ns,
                sleep_max_ns: cfg.sleep_range.max_ns,
                slice_ns: cfg.slice_ns,
                system_slice_ns: cfg.system_slice_ns,
                scale_slice: cfg.scale_slice,
                logging: cfg.log,
                seed: cfg.seed,
            }),
            params == scheduler_params(*cfg),
    {
        SchedulerParams {
            run_min_ns: cfg.run_range.min_ns,
            run_max_ns: cfg.run_range.max_ns,
            sleep_min_ns: cfg.sleep_range.min_ns,
            sleep_max_ns: cfg.sleep_range.max_ns,
            slice_ns: cfg.slice_ns,
            system_slice_ns: cfg.system_slice_ns,
            scale_slice: cfg.scale_slice,
            logging: cfg.log,
            seed: cfg.seed,
        }
    }
}

/// What the scheduler is told while it runs: the process to fuzz, 0 for none, and the generation
/// that its tasks belong to.
#[derive(Clone, Copy, Debug, PartialEq, Eq, Structural)]
pub struct RuntimeConfig {
    pub target_tgid: u32,
    pub generation: u32,
}

/// What the scheduler is told for a state of the campaign: the generation in 32 bits.
pub open spec fn runtime_config(shared: Shared) -> RuntimeConfig {
    RuntimeConfig {
        target_tgid: unsigned_pid(shared.script_pid),
        generation: (shared.generation % 0x1_0000_0000) as u32,
    }
}

impl RuntimeConfig {
    /// No target yet.
    pub fn idle() -> (config: Self)
        ensures
            config == (RuntimeConfig { target_tgid: 0, generation: 0 }),
            config == runtime_config(fresh()),
    {
        RuntimeConfig { target_tgid: 0, generation: 0 }
    }

    /// What the scheduler is told for the state of the campaign.
    pub fn from_shared(shared: &Shared) -> (config: Self)
        ensures
            config == runtime_config(*shared),
    {
        let pid = shared.script_pid;
        RuntimeConfig {
            target_tgid: if pid >= 0 { pid as u32 } else { (pid as i64 + 0x1_0000_0000) as u32 },
            generation: (shared.generation % 0x1_0000_0000) as u32,
        }
    }
}

/// What the loader does next.
#[derive(Clone, Copy, Debug, PartialEq, Eq, Structural)]
pub enum LoaderAction {
    /// Detach the scheduler and report why it ended.
    Detach,
    /// Restart the clock of the iteration if there is a new one, tell the scheduler what to fuzz,
    /// and poll for events.
    Poll { new_generation: bool, config: RuntimeConfig },
}

/// What the loader remembers between two polls.
#[derive(Clone, Copy, Debug, PartialEq, Eq, Structural)]
pub struct Loader {
    pub generation: u64,
}

/// What the loader does next, from whether the scheduler has ended and from what the supervisor
/// asks for.
pub open spec fn loader_action(loader: Loader, exited: bool, shared: Shared) -> LoaderAction {
    if exited || shared.done {
        LoaderAction::Detach
    } else {
        LoaderAction::Poll {
            new_generation: shared.generation != loader.generation,
            config: runtime_config(shared),
        }
    }
}

/// What the loader remembers after it has decided what to do.
pub open spec fn loader_after(loader: Loader, exited: bool, shared: Shared) -> Loader {
    match loader_action(loader, exited, shared) {
        LoaderAction::Detach => loader,
        LoaderAction::Poll { .. } => Loader { generation: shared.generation },
    }
}

impl Loader {
    /// The loader before the first iteration.
    pub open spec fn initial() -> Loader {
        Loader { generation: 0 }
    }

    /// Before the first iteration.
    pub fn new() -> (loader: Self)
        ensures
            loader == (Loader { generation: 0 }),
            loader == Loader::initial(),
    {
        Loader { generation: 0 }
    }

    /// Decides what to do next, and remembers the generation that it is done for.
    pub fn step(&mut self, exited: bool, shared: &Shared) -> (action: LoaderAction)
        ensures
            action == loader_action(*old(self), exited, *shared),
            *final(self) == if action is Detach {
                *old(self)
            } else {
                Loader { generation: shared.generation }
            },
            *final(self) == loader_after(*old(self), exited, *shared),
    {
        if exited || shared.done {
            return LoaderAction::Detach;
        }
        let new_generation: bool = shared.generation != self.generation;
        self.generation = shared.generation;
        LoaderAction::Poll { new_generation, config: RuntimeConfig::from_shared(shared) }
    }
}

/// The process that the supervisor names is the one that the scheduler is told to fuzz, whatever
/// its number.
pub proof fn law_target_reaches_the_scheduler(shared: Shared, pid: u32)
    ensures
        runtime_config(Shared { script_pid: signed_pid(pid), ..shared }).target_tgid == pid,
{
}

/// A loader that is up to date sees that an iteration has begun. It restarts the clock, and tells
/// the scheduler a generation other than the one before, with nothing to fuzz yet.
pub proof fn law_new_iteration_is_seen(loader: Loader, shared: Shared)
    requires
        loader.generation == shared.generation,
        !shared.done,
    ensures
        loader_action(loader, false, begun(shared)) matches LoaderAction::Poll {
            new_generation,
            config,
        } && new_generation && config.target_tgid == 0 && config.generation != runtime_config(
            shared,
        ).generation,
{
    let g = shared.generation as int;
    if g == u64::MAX {
        assert(begun(shared).generation == 0);
    } else {
        assert(begun(shared).generation == g + 1);
        assert((g + 1) % 0x1_0000_0000 != g % 0x1_0000_0000);
    }
}

/// A loader that has polled in a generation does not take it for a new one again.
pub proof fn law_generation_is_new_once(exited: bool, shared: Shared)
    ensures
        loader_action(
            Loader { generation: shared.generation },
            exited,
            shared,
        ) matches LoaderAction::Poll { new_generation, .. } ==> !new_generation,
{
}

/// An event as the scheduler sends it.
pub struct FuzzEvent {
    /// The name of the task, up to the first zero byte.
    pub comm: Vec<u8>,
    pub event_type: u32,
    pub duration_ns: u64,
}

/// What `String::from_utf8_lossy` makes of the bytes.
pub uninterp spec fn utf8_lossy(bytes: Seq<u8>) -> Seq<char>;

/// `String::from_utf8_lossy` reads the bytes as UTF-8. Bytes that are valid UTF-8 give the string
/// that they encode. How many replacement characters stand for the others is left unsaid.
#[verifier::external_body]
fn from_utf8_lossy(bytes: &Vec<u8>) -> (s: String)
    ensures
        s@ == utf8_lossy(bytes@),
        valid_utf8(bytes@) ==> s@ == decode_utf8(bytes@),
{
    String::from_utf8_lossy(bytes).into_owned()
}

/// The bytes before the first zero byte.
pub open spec fn until_zero(bytes: Seq<u8>) -> Seq<u8>
    decreases bytes.len(),
{
    if bytes.len() == 0 || bytes[0] == 0 {
        Seq::empty()
    } else {
        seq![bytes[0]] + until_zero(bytes.drop_first())
    }
}

/// A name ends where the first zero byte stands, or with the field.
pub proof fn law_name_ends_at_first_zero(bytes: Seq<u8>)
    ensures
        ({
            let n = until_zero(bytes).len() as int;
            &&& n <= bytes.len()
            &&& until_zero(bytes) == bytes.take(n)
            &&& forall|i: int| 0 <= i < n ==> #[trigger] bytes[i] != 0
            &&& n < bytes.len() ==> bytes[n] == 0
        }),
    decreases bytes.len(),
{
    if bytes.len() > 0 && bytes[0] != 0 {
        let rest = bytes.drop_first();
        law_name_ends_at_first_zero(rest);
        let n = until_zero(bytes).len() as int;
        assert(until_zero(bytes) =~= bytes.take(n)) by {
            assert(rest.take(n - 1) =~= bytes.take(n).drop_first());
        }
        assert forall|i: int| 0 <= i < n implies #[trigger] bytes[i] != 0 by {
            if i > 0 {
                assert(rest[i - 1] == bytes[i]);
            }
        }
    } else {
        assert(until_zero(bytes) =~= bytes.take(0));
    }
}

/// The bytes before the first zero byte.
pub fn take_until_zero(bytes: &Vec<u8>) -> (r: Vec<u8>)
    ensures
        r@ == until_zero(bytes@),
{
    let mut r: Vec<u8> = Vec::new();
    let mut i: usize = 0;
    proof {
        assert(bytes@.skip(0) =~= bytes@);
    }
    while i < bytes.len() && bytes[i] != 0
        invariant
            i <= bytes.len(),
            until_zero(bytes@) =~= r@ + until_zero(bytes@.skip(i as int)),
        decreases bytes.len() - i,
    {
        proof {
            assert(bytes@.skip(i as int).drop_first() =~= bytes@.skip(i + 1));
        }
        r.push(bytes[i]);
        i += 1;
    }
    r
}

/// The name of a task, from a field that a zero byte ends unless the name fills it.
pub fn comm_to_string(comm: &Vec<u8>) -> (s: String)
    ensures
        s@ == utf8_lossy(until_zero(comm@)),
        valid_utf8(until_zero(comm@)) ==> s@ == decode_utf8(until_zero(comm@)),
{
    from_utf8_lossy(&take_until_zero(comm))
}

/// What an event code stands for.
pub open spec fn event_type_of(code: u32) -> EventType {
    if code == EVENT_RUNNING {
        EventType::Running
    } else {
        EventType::Sleeping
    }
}

/// Nanoseconds in seconds, in double precision.
pub open spec fn seconds(nanoseconds: u64) -> Double {
    quotient(nearest(false, nanoseconds as nat, 1), nearest(false, 1_000_000_000, 1))
}

/// The duration of an event in seconds is finite: with finite clocks the diagram of handled events
/// has finite times only.
pub proof fn law_event_durations_are_finite(nanoseconds: u64)
    ensures
        seconds(nanoseconds) is Finite,
{
    if nanoseconds == 0 {
        let zero = nearest(false, 0, 1);
        let unit = nearest(false, 1_000_000_000, 1);
        lemma_nearest_whole(1_000_000_000);
        assert(zero.num() * unit.den() == 0) by (nonlinear_arith)
            requires
                zero.num() == 0 * up(zero->exponent as int),
        ;
        assert(unit.num() > 0);
        assert(!unit.is_zero()) by {
            if unit.is_zero() {
                assert(unit.num() == 0) by (nonlinear_arith)
                    requires
                        unit.num() == unit->mantissa as nat * up(unit->exponent as int),
                        unit->mantissa == 0,
                ;
            }
        }
    } else {
        lemma_unit_count(nanoseconds, 1_000_000_000);
    }
}

/// The line of the log on an event: the time since the start of the campaign and since the start
/// of the iteration in seconds, the task, and what it does for how many milliseconds.
pub open spec fn log_line(
    overall: Double,
    iteration: Double,
    task: Seq<char>,
    event_type: EventType,
    duration_ns: u64,
) -> Seq<char> {
    "["@ + right_aligned(fixed(overall, 3), 6) + "|"@ + right_aligned(fixed(iteration, 3), 6)
        + "] "@ + task + " is "@ + event_name(event_type) + " for "@ + numeral(
        duration_ns as nat / 1_000_000,
    ) + "ms"@
}

/// An event of a task in the diagram.
pub open spec fn task_event(
    overall: Double,
    task: Seq<char>,
    event_type: EventType,
    duration_ns: u64,
) -> EventView {
    EventView { time: overall, task, event_type, duration: seconds(duration_ns) }
}

/// Records an event of a task in the diagram, and hands out its line of the log.
pub fn record_task_event(
    diagram: &mut DiagramHelper,
    overall: Double,
    iteration: Double,
    task: &str,
    event_type: EventType,
    duration_ns: u64,
) -> (line: String)
    requires
        old(diagram).wf(),
        overall.wf(),
        iteration.wf(),
    ensures
        final(diagram)@ == old(diagram)@.push(
            EventView { time: overall, task: task@, event_type, duration: seconds(duration_ns) },
        ),
        final(diagram)@ == old(diagram)@.push(task_event(overall, task@, event_type, duration_ns)),
        final(diagram).wf(),
        line@ == log_line(overall, iteration, task@, event_type, duration_ns),
{
    let duration = Double::from_u64(duration_ns).over(Double::from_u64(1_000_000_000));
    diagram.record_event(overall, task, event_type, duration);
    let mut line = String::from_str("[");
    line.append(align_right(overall.to_fixed(3).as_str(), 6).as_str());
    line.append("|");
    line.append(align_right(iteration.to_fixed(3).as_str(), 6).as_str());
    line.append("] ");
    line.append(task);
    line.append(" is ");
    line.append(event_type.as_str());
    line.append(" for ");
    line.append(numeral_text(duration_ns / 1_000_000).as_str());
    line.append("ms");
    line
}

/// Records an event in the diagram, and hands out its line of the log. `overall` and `iteration`
/// are the times since the start of the campaign and of the iteration, in seconds.
pub fn handle_event(
    diagram: &mut DiagramHelper,
    overall: Double,
    iteration: Double,
    event: &FuzzEvent,
) -> (line: String)
    requires
        old(diagram).wf(),
        overall.wf(),
        iteration.wf(),
    ensures
        final(diagram)@ == old(diagram)@.push(
            EventView {
                time: overall,
                task: utf8_lossy(until_zero(event.comm@)),
                event_type: event_type_of(event.event_type),
                duration: seconds(event.duration_ns),
            },
        ),
        final(diagram)@ == old(diagram)@.push(
            task_event(
                overall,
                utf8_lossy(until_zero(event.comm@)),
                event_type_of(event.event_type),
                event.duration_ns,
            ),
        ),
        final(diagram).wf(),
        line@ == log_line(
            overall,
            iteration,
            utf8_lossy(until_zero(event.comm@)),
            event_type_of(event.event_type),
            event.duration_ns,
        ),
{
    let task = comm_to_string(&event.comm);
    let event_type = if event.event_type == EVENT_RUNNING {
        EventType::Running
    } else {
        EventType::Sleeping
    };
    record_task_event(diagram, overall, iteration, task.as_str(), event_type, event.duration_ns)
}

} // verus!
