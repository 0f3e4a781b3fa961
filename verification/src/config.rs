//! The settings of a campaign, and the state that its two threads share.

use crate::clock::duration_nanos;
use crate::duration::{
    error_message, is_range_outcome, nanoseconds_to_string, parse_to_nanoseconds, parsed_duration,
    rendered_duration, rendered_range, DurationError, DurationRange,
};
use crate::seed::{
    law_rendered_seed_is_accepted, law_seed_text, parsed_seed, rendered_seed, seed_to_string,
};
use core::time::Duration;
use vstd::prelude::*;

verus! {

/// Parses a duration for the command line, with the error in words.
pub fn parse_duration_ns(s: &str) -> (ns: Result<u64, String>)
    ensures
        match parsed_duration(s@) {
            Some(n) => ns == Ok::<u64, String>(n),
            None => ns matches Err(message) && message@ == "invalid duration string: "@ + s@,
        },
        ns matches Err(message) ==> exists|e: DurationError|
            #[trigger] error_message(e) == message@ && (e matches DurationError::InvalidDuration(t)
                && t@ == s@),
{
    match parse_to_nanoseconds(s) {
        Ok(ns) => Ok(ns),
        Err(e) => Err(e.message()),
    }
}

/// Parses a range of durations for the command line, with the error in words.
pub fn parse_duration_range(s: &str) -> (range: Result<DurationRange, String>)
    ensures
        match range {
            Ok(r) => is_range_outcome(s@, Ok(r)) && r.wf(),
            Err(message) => exists|e|
                #[trigger] is_range_outcome(s@, Err(e)) && message@ == error_message(e),
        },
{
    match DurationRange::parse(s) {
        Ok(r) => Ok(r),
        Err(e) => Err(e.message()),
    }
}

/// The settings of a campaign, which do not change while it runs.
pub struct Config {
    pub script: String,
    pub sleep_range: DurationRange,
    pub run_range: DurationRange,
    pub system_slice_ns: u64,
    pub slice_ns: u64,
    pub error_command: String,
    pub iteration_time_ns: u64,
    pub scale_slice: bool,
    pub max_iterations: i32,
    pub error_check_interval_ns: u64,
    pub log: bool,
    pub timeout_seconds: i64,
    pub seed: u64,
}

impl Clone for Config {
    fn clone(&self) -> (c: Self)
        ensures
            c.same_settings(*self),
    {
        Config {
            script: self.script.clone(),
            sleep_range: self.sleep_range,
            run_range: self.run_range,
            system_slice_ns: self.system_slice_ns,
            slice_ns: self.slice_ns,
            error_command: self.error_command.clone(),
            iteration_time_ns: self.iteration_time_ns,
            scale_slice: self.scale_slice,
            max_iterations: self.max_iterations,
            error_check_interval_ns: self.error_check_interval_ns,
            log: self.log,
            timeout_seconds: self.timeout_seconds,
            seed: self.seed,
        }
    }
}

/// A timeout in seconds as an unsigned number, in two's complement.
pub open spec fn unsigned_seconds(seconds: i64) -> nat {
    if seconds >= 0 {
        seconds as nat
    } else {
        (seconds + 0x1_0000_0000_0000_0000) as nat
    }
}

/// The line that lists the settings of a logged campaign.
pub open spec fn rendered_settings(cfg: Config) -> Seq<char> {
    "sleep range: "@ + rendered_range(cfg.sleep_range) + ", run range: "@ + rendered_range(
        cfg.run_range,
    ) + ", system slice: "@ + rendered_duration(cfg.system_slice_ns, 3) + ", slice: "@
        + rendered_duration(cfg.slice_ns, 3) + ", seed: "@ + rendered_seed(cfg.seed)
}

impl Config {
    /// All settings are the same.
    pub open spec fn same_settings(self, other: Config) -> bool {
        &&& self.script@ == other.script@
        &&& self.error_command@ == other.error_command@
        &&& self == (Config { script: self.script, error_command: self.error_command, ..other })
    }

    /// Whether an iteration that takes too long counts as a failure.
    pub fn in_timeout_mode(&self) -> (b: bool)
        ensures
            b == (self.timeout_seconds != -1),
    {
        self.timeout_seconds != -1
    }

    /// The time between two runs of the error command.
    pub fn error_check_interval(&self) -> (d: Duration)
        ensures
            duration_nanos(d) == self.error_check_interval_ns,
    {
        Duration::from_nanos(self.error_check_interval_ns)
    }

    /// The time after which an iteration ends, outside timeout mode.
    pub fn iteration_time(&self) -> (d: Duration)
        ensures
            duration_nanos(d) == self.iteration_time_ns,
    {
        Duration::from_nanos(self.iteration_time_ns)
    }

    /// The time after which an iteration has failed, in timeout mode.
    pub fn timeout(&self) -> (d: Duration)
        ensures
            duration_nanos(d) == 1_000_000_000 * unsigned_seconds(self.timeout_seconds),
    {
        let seconds: u64 = if self.timeout_seconds >= 0 {
            self.timeout_seconds as u64
        } else {
            (self.timeout_seconds as i128 + 0x1_0000_0000_0000_0000) as u64
        };
        Duration::from_secs(seconds)
    }

    /// The line that lists the settings of a logged campaign.
    pub fn to_text(&self) -> (text: String)
        ensures
            text@ == rendered_settings(*self),
    {
        let mut text = String::from_str("sleep range: ");
        text.append(self.sleep_range.to_text().as_str());
        text.append(", run range: ");
        text.append(self.run_range.to_text().as_str());
        text.append(", system slice: ");
        text.append(nanoseconds_to_string(self.system_slice_ns, 3).as_str());
        text.append(", slice: ");
        text.append(nanoseconds_to_string(self.slice_ns, 3).as_str());
        text.append(", seed: ");
        text.append(seed_to_string(self.seed).as_str());
        text
    }
}

/// What the thread of the scheduler and the thread of the supervisor tell each other.
#[derive(Clone, Copy, Debug)]
pub struct Shared {
    /// The process to fuzz; 0 means none.
    pub script_pid: i32,
    /// Counts the iterations, so that the scheduler drops what it knows of older tasks.
    pub generation: u64,
    /// The scheduler is attached and ready.
    pub attached: bool,
    /// Both threads are asked to stop.
    pub done: bool,
}

/// A process id as a signed number, in two's complement.
pub open spec fn signed_pid(pid: u32) -> i32 {
    if pid < 0x8000_0000 {
        pid as i32
    } else {
        (pid - 0x1_0000_0000) as i32
    }
}

/// A process id as an unsigned number, in two's complement.
pub open spec fn unsigned_pid(pid: i32) -> u32 {
    if pid >= 0 {
        pid as u32
    } else {
        (pid + 0x1_0000_0000) as u32
    }
}

/// The shared state before anything has happened.
pub open spec fn fresh() -> Shared {
    Shared { script_pid: 0, generation: 0, attached: false, done: false }
}

/// The shared state once the scheduler is attached.
pub open spec fn attached(shared: Shared) -> Shared {
    Shared { attached: true, ..shared }
}

/// The shared state once an end is asked for.
pub open spec fn ended(shared: Shared) -> Shared {
    Shared { done: true, ..shared }
}

/// The shared state at the beginning of an iteration: no target, and a new generation.
pub open spec fn begun(shared: Shared) -> Shared {
    Shared {
        script_pid: 0,
        generation: ((shared.generation + 1) % 0x1_0000_0000_0000_0000) as u64,
        ..shared
    }
}

impl Shared {
    /// Nothing to fuzz yet, and no scheduler attached.
    pub fn new() -> (shared: Self)
        ensures
            shared == (Shared { script_pid: 0, generation: 0, attached: false, done: false }),
            shared == fresh(),
    {
        Shared { script_pid: 0, generation: 0, attached: false, done: false }
    }

    /// The scheduler is attached and ready.
    pub fn set_attached(&mut self)
        ensures
            *final(self) == (Shared { attached: true, ..*old(self) }),
            *final(self) == attached(*old(self)),
    {
        self.attached = true;
    }

    /// Asks both threads to stop.
    pub fn set_done(&mut self)
        ensures
            *final(self) == (Shared { done: true, ..*old(self) }),
            *final(self) == ended(*old(self)),
    {
        self.done = true;
    }

    /// Stops the fuzzing of the target before, and begins a new generation.
    pub fn begin_iteration(&mut self)
        ensures
            *final(self) == begun(*old(self)),
    {
        self.script_pid = 0;
        self.generation = if self.generation == u64::MAX { 0 } else { self.generation + 1 };
    }

    /// The target of the iteration runs as the process `pid`.
    pub fn set_target(&mut self, pid: u32)
        ensures
            *final(self) == (Shared { script_pid: signed_pid(pid), ..*old(self) }),
    {
        self.script_pid = if pid < 0x8000_0000 {
            pid as i32
        } else {
            (pid as i64 - 0x1_0000_0000) as i32
        };
    }

    /// Stops the fuzzing of the target.
    pub fn clear_target(&mut self)
        ensures
            *final(self) == (Shared { script_pid: 0, ..*old(self) }),
    {
        self.script_pid = 0;
    }
}

/// A clone has each setting of what it was made from.
pub proof fn law_clone_keeps_each_setting(a: Config, b: Config)
    requires
        a.same_settings(b),
    ensures
        a.script@ == b.script@,
        a.sleep_range == b.sleep_range,
        a.run_range == b.run_range,
        a.system_slice_ns == b.system_slice_ns,
        a.slice_ns == b.slice_ns,
        a.error_command@ == b.error_command@,
        a.iteration_time_ns == b.iteration_time_ns,
        a.scale_slice == b.scale_slice,
        a.max_iterations == b.max_iterations,
        a.error_check_interval_ns == b.error_check_interval_ns,
        a.log == b.log,
        a.timeout_seconds == b.timeout_seconds,
        a.seed == b.seed,
{
}

/// The seconds of a timeout count as they are, and below zero as an unsigned number of 64 bits.
pub proof fn law_timeout_seconds(seconds: i64)
    ensures
        seconds >= 0 ==> unsigned_seconds(seconds) == seconds,
        seconds < 0 ==> unsigned_seconds(seconds) == 0x1_0000_0000_0000_0000 + seconds,
{
}

/// The line of settings is made of these texts.
pub open spec fn is_settings_line(
    line: Seq<char>,
    sleep_min: Seq<char>,
    sleep_max: Seq<char>,
    run_min: Seq<char>,
    run_max: Seq<char>,
    system_slice: Seq<char>,
    slice: Seq<char>,
    seed: Seq<char>,
) -> bool {
    line == "sleep range: "@ + (sleep_min + " - "@ + sleep_max) + ", run range: "@ + (run_min
        + " - "@ + run_max) + ", system slice: "@ + system_slice + ", slice: "@ + slice
        + ", seed: "@ + seed
}

/// The line of settings shows both ends of the ranges and the slices, with three digits behind the
/// point, and a text that is accepted as the seed. Other settings do not show.
pub proof fn law_settings_line(cfg: Config)
    ensures
        exists|seed: Seq<char>|
            {
                &&& #[trigger] is_settings_line(
                    rendered_settings(cfg),
                    rendered_duration(cfg.sleep_range.min_ns, 3),
                    rendered_duration(cfg.sleep_range.max_ns, 3),
                    rendered_duration(cfg.run_range.min_ns, 3),
                    rendered_duration(cfg.run_range.max_ns, 3),
                    rendered_duration(cfg.system_slice_ns, 3),
                    rendered_duration(cfg.slice_ns, 3),
                    seed,
                )
                &&& parsed_seed(seed) == Some(cfg.seed)
                &&& seed.len() > 2 && seed[0] == '0' && seed[1] == 'x'
            },
{
    let seed = rendered_seed(cfg.seed);
    law_rendered_seed_is_accepted(cfg.seed);
    law_seed_text(cfg.seed);
    assert(is_settings_line(
        rendered_settings(cfg),
        rendered_duration(cfg.sleep_range.min_ns, 3),
        rendered_duration(cfg.sleep_range.max_ns, 3),
        rendered_duration(cfg.run_range.min_ns, 3),
        rendered_duration(cfg.run_range.max_ns, 3),
        rendered_duration(cfg.system_slice_ns, 3),
        rendered_duration(cfg.slice_ns, 3),
        seed,
    ));
}

/// A flag that is set changes neither the other flag nor the target nor the generation.
pub proof fn law_flags_are_apart(shared: Shared)
    ensures
        attached(shared).attached,
        attached(shared).done == shared.done,
        attached(shared).script_pid == shared.script_pid,
        attached(shared).generation == shared.generation,
        ended(shared).done,
        ended(shared).attached == shared.attached,
        ended(shared).script_pid == shared.script_pid,
        ended(shared).generation == shared.generation,
{
}

} // verus!
