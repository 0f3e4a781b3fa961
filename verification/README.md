# concurrency_fuzz_scheduler

The user space side of a Linux scheduler that fuzzes concurrent applications: it stops and starts
the threads of a target at random, inside the kernel, until the target fails. This crate holds the
logic of the loader and of the campaign supervisor as a library that [Verus] verifies, and a thin
program around it.

## The library (`src/`)

| module | what it holds |
| --- | --- |
| `duration` | durations and ranges of durations as text |
| `grammar`, `accuracy`, `rendering` | laws of durations: what is accepted, how the nanoseconds follow from the text, what is read back of a rendered duration |
| `seed` | seeds in decimal and hexadecimal |
| `config` | the settings of a campaign, and the state that the two threads share |
| `supervisor` | the decisions of an iteration and of a campaign, as state machines |
| `fuzz` | what the scheduler is told, and what becomes of the events that it sends |
| `diagram` | the schedule as JSON |
| `json` | the strings of JSON, and what a text must be to be JSON |
| `stats` | statistics of how long the iterations took |
| `double`, `binary64`, `nearest`, `rounding`, `digits` | double precision numbers in integers: what the operations mean, how they are computed, and their text |
| `text`, `clock` | strings as sequences of characters; lengths of time |

Functions whose names begin with `law_` state what holds of the library as a whole.

Durations are kept in nanoseconds, and parsed exactly. Where a time is a number of seconds with a
fraction it is a `Double`, an IEEE 754 binary64 value whose arithmetic is defined, and proved, bit
for bit.

Verus believes the following without proof: that `String::push` appends a character, what
`Duration::as_nanos`, `Duration::from_nanos` and `Duration::from_secs` return, and that
`String::from_utf8_lossy` decodes valid UTF-8 and depends on its argument only.

## The program (`app/`)

`app/` parses the command line, loads and attaches the scheduler, launches the target, sleeps and
prints. It performs the steps that the library decides on, and tells the library what they showed.
Building it takes the in-kernel scheduler: its skeleton and the structs that it shares with user
space are generated from C at build time.

[Verus]: https://github.com/verus-lang/verus
