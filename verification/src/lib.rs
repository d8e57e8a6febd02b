//! Userspace controller logic for a multi-domain hybrid CPU scheduler.
//!
//! Each tick the controller reads a snapshot of the kernel-exported task
//! table, computes a decayed load estimate per task, aggregates per-domain
//! loads, classifies domains as push (above average) or pull (below average),
//! and greedily selects tasks to migrate so as to equalize load, subject to
//! affinity and a minimum-improvement gate.
//!
//! Loads are fixed-point integers: a load of `weight * LOAD_SCALE` means the
//! task was runnable for the whole observation period. The decay factor is a
//! fraction `decay / DECAY_DEN`.

use vstd::prelude::*;

pub mod detect;
pub mod estimator;
pub mod load;
pub mod plan;
pub mod report;
pub mod sums;
pub mod topology;
pub mod tick;

verus! {

/// Fixed-point scale of load values: `weight * LOAD_SCALE` is a task that was
/// runnable for the entire period.
pub const LOAD_SCALE: u64 = 1024;

/// Denominator of the decay factor: a factor `d` stands for `d / DECAY_DEN`.
pub const DECAY_DEN: u64 = 1000;

/// Largest accepted decay factor, 0.99.
pub const DECAY_MAX: u64 = 990;

/// Largest load any single task can carry: full-period load at maximal weight.
pub const TASK_LOAD_BOUND: u64 = 0xFFFF_FFFF * 1024;

/// Largest number of tasks a single tick accepts; keeps every load sum within
/// `u64`.
pub const MAX_TASKS: usize = 0x0010_0000;

/// Compile-time ceiling on the number of scheduling domains, fixed by the
/// kernel component.
pub const MAX_DOMS: usize = 64;

/// Compile-time ceiling on the number of CPUs, fixed by the kernel component.
pub const MAX_CPUS: usize = 512;

} // verus!
