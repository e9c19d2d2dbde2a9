//! Workloads, schedules and verdicts of the command-line checks and benchmarks.
//!
//! What a check runs, in what order, and what it makes of the outcome is
//! decided here; running it on the device and printing it is not.
pub mod attention;
pub mod cases;
pub mod eval;
pub mod lists;
pub mod packed_check;
pub mod rounds;
pub mod runtime;
pub mod trace;
pub mod workload;
