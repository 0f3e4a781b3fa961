//! The logic of a scheduler that fuzzes concurrent applications: the settings of a campaign, the
//! decisions of its supervisor and of the loader of the scheduler, and what they print.

pub mod accuracy;
pub mod arithmetic_laws;
pub mod binary64;
pub mod clock;
pub mod config;
pub mod diagram;
pub mod digits;
pub mod double;
pub mod duration;
pub mod fuzz;
pub mod fuzz_laws;
pub mod grammar;
pub mod json;
pub mod nearest;
pub mod notation;
pub mod rendering;
pub mod rounding;
pub mod seed;
pub mod stats;
pub mod supervisor;
pub mod supervisor_laws;
pub mod text;
