//! The compute half of the reporter: the host CPU busy fraction between two
//! /proc snapshots, per-CPU counter sums, and classification of the kernel
//! component's exit word.

use vstd::prelude::*;
use vstd::arithmetic::mul::lemma_mul_upper_bound;
use crate::sums::sum_u64;

verus! {

/// One total-CPU accounting snapshot; a field the host did not report is
/// `None` and makes the tick's busy computation fail.
#[derive(Clone, Copy, Debug)]
pub struct CpuStatSnap {
    pub user_usec: Option<u64>,
    pub nice_usec: Option<u64>,
    pub system_usec: Option<u64>,
    pub idle_usec: Option<u64>,
    pub iowait_usec: Option<u64>,
    pub irq_usec: Option<u64>,
    pub softirq_usec: Option<u64>,
    pub stolen_usec: Option<u64>,
}

pub open spec fn snap_complete(s: CpuStatSnap) -> bool {
    &&& s.user_usec is Some
    &&& s.nice_usec is Some
    &&& s.system_usec is Some
    &&& s.idle_usec is Some
    &&& s.iowait_usec is Some
    &&& s.irq_usec is Some
    &&& s.softirq_usec is Some
    &&& s.stolen_usec is Some
}

/// A counter delta: a reading that went backwards counts as zero.
pub open spec fn sat_diff(prev: Option<u64>, curr: Option<u64>) -> int {
    let p = prev->Some_0;
    let c = curr->Some_0;
    if c >= p {
        c - p
    } else {
        0
    }
}

/// Time spent busy between two snapshots: user, system, nice, irq, softirq
/// and stolen time.
pub open spec fn spec_busy(prev: CpuStatSnap, curr: CpuStatSnap) -> int {
    sat_diff(prev.user_usec, curr.user_usec) + sat_diff(prev.system_usec, curr.system_usec)
        + sat_diff(prev.nice_usec, curr.nice_usec) + sat_diff(prev.irq_usec, curr.irq_usec)
        + sat_diff(prev.softirq_usec, curr.softirq_usec) + sat_diff(
        prev.stolen_usec,
        curr.stolen_usec,
    )
}

/// Total accounted time between two snapshots: busy plus idle and iowait.
pub open spec fn spec_total(prev: CpuStatSnap, curr: CpuStatSnap) -> int {
    spec_busy(prev, curr) + sat_diff(prev.idle_usec, curr.idle_usec) + sat_diff(
        prev.iowait_usec,
        curr.iowait_usec,
    )
}

fn field_diff(prev: Option<u64>, curr: Option<u64>) -> (r: u64)
    requires
        prev is Some,
        curr is Some,
    ensures
        r == sat_diff(prev, curr),
{
    let p = match prev {
        Some(x) => x,
        None => 0,
    };
    let c = match curr {
        Some(x) => x,
        None => 0,
    };
    if c >= p {
        c - p
    } else {
        0
    }
}

/// The busy and total microseconds between two snapshots, for the busy%
/// report; fails exactly when either snapshot is missing a field.
pub fn cpu_busy_times(prev: &CpuStatSnap, curr: &CpuStatSnap) -> (r: Option<(u128, u128)>)
    ensures
        r is Some <==> (snap_complete(*prev) && snap_complete(*curr)),
        r matches Some(p) ==> p.0 == spec_busy(*prev, *curr) && p.1 == spec_total(*prev, *curr),
{
    if !(prev.user_usec.is_some() && prev.nice_usec.is_some() && prev.system_usec.is_some()
        && prev.idle_usec.is_some() && prev.iowait_usec.is_some() && prev.irq_usec.is_some()
        && prev.softirq_usec.is_some() && prev.stolen_usec.is_some() && curr.user_usec.is_some()
        && curr.nice_usec.is_some() && curr.system_usec.is_some() && curr.idle_usec.is_some()
        && curr.iowait_usec.is_some() && curr.irq_usec.is_some() && curr.softirq_usec.is_some()
        && curr.stolen_usec.is_some()) {
        return None;
    }
    let busy: u128 = field_diff(prev.user_usec, curr.user_usec) as u128 + field_diff(
        prev.system_usec,
        curr.system_usec,
    ) as u128 + field_diff(prev.nice_usec, curr.nice_usec) as u128 + field_diff(
        prev.irq_usec,
        curr.irq_usec,
    ) as u128 + field_diff(prev.softirq_usec, curr.softirq_usec) as u128 + field_diff(
        prev.stolen_usec,
        curr.stolen_usec,
    ) as u128;
    let total: u128 = busy + field_diff(prev.idle_usec, curr.idle_usec) as u128 + field_diff(
        prev.iowait_usec,
        curr.iowait_usec,
    ) as u128;
    Some((busy, total))
}

/// Sums one statistic's per-CPU counters.
pub fn sum_counters(xs: &Vec<u64>) -> (r: u128)
    ensures
        r == sum_u64(xs@),
{
    let mut acc: u128 = 0;
    let n = xs.len();
    for i in 0..n
        invariant
            n == xs@.len(),
            acc == sum_u64(xs@.subrange(0, i as int)),
            acc <= i * 0xFFFF_FFFF_FFFF_FFFF,
    {
        proof {
            assert(xs@.subrange(0, i + 1).drop_last() =~= xs@.subrange(0, i as int));
            lemma_mul_upper_bound(i as int, usize::MAX as int, 0xFFFF_FFFF_FFFF_FFFF, 0xFFFF_FFFF_FFFF_FFFF);
            assert(i * 0xFFFF_FFFF_FFFF_FFFF + 0xFFFF_FFFF_FFFF_FFFF == (i + 1)
                * 0xFFFF_FFFF_FFFF_FFFF) by (nonlinear_arith);
        }
        acc = acc + xs[i] as u128;
    }
    proof {
        assert(xs@.subrange(0, n as int) =~= xs@);
    }
    acc
}

/// What the kernel component's exit word means.
#[derive(Clone, Copy, Debug, PartialEq, Eq, Structural)]
pub enum ExitKind {
    /// Zero: still running.
    Running,
    /// Two: an error, with a message to print.
    Error,
    /// Anything else: a graceful exit.
    Graceful,
}

/// Classifies the kernel component's exit status word.
pub fn exit_kind(etype: i32) -> (r: ExitKind)
    ensures
        r == (if etype == 0 {
            ExitKind::Running
        } else if etype == 2 {
            ExitKind::Error
        } else {
            ExitKind::Graceful
        }),
{
    if etype == 0 {
        ExitKind::Running
    } else if etype == 2 {
        ExitKind::Error
    } else {
        ExitKind::Graceful
    }
}

} // verus!
