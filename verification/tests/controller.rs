use atropos::estimator::{TaskCtx, TaskLoadMap, TaskSample};
use atropos::load::{task_load, TaskLoad};
use atropos::plan::{pick_victim, DirectiveTable};
use atropos::estimator::LbEntry;
use atropos::tick::run_tick;
use atropos::report::{cpu_busy_times, exit_kind, sum_counters, CpuStatSnap, ExitKind};
use atropos::topology::{domains_from_cache_ids, parse_cpusets, ConfigError};

const PERIOD: u64 = 1_000_000_000;
const NOW: u64 = 2_000_000_000;

fn busy_task(pid: i32, dom_id: u32, dom_mask: u64, weight: u32) -> TaskSample {
    TaskSample {
        pid,
        ctx: Some(TaskCtx {
            dom_id,
            dom_mask,
            runnable_at: 0,
            runnable_for: PERIOD,
            weight,
        }),
    }
}

#[test]
fn two_domains_one_hot() {
    // eight CPU-bound weight-100 tasks in domain 0, none in domain 1
    let samples: Vec<TaskSample> = (1..=8).map(|p| busy_task(p, 0, 0b11, 100)).collect();
    let prev = TaskLoadMap::new();
    let mut errors = 0u64;
    let r = run_tick(&samples, &prev, NOW, PERIOD, 0, 2, true, &mut errors);
    assert_eq!(r.dom_loads, vec![8 * 102_400, 0]);
    assert_eq!(r.load_avg, 4 * 102_400);
    assert_eq!(r.imbal[0], 409_600);
    assert_eq!(r.imbal[1], -409_600);
    // the planner moves half the tasks over
    assert_eq!(r.directives.entries.len(), 4);
    let mut pids: Vec<i32> = r.directives.entries.iter().map(|d| d.pid).collect();
    pids.sort();
    pids.dedup();
    assert_eq!(pids.len(), 4);
    for d in r.directives.entries.iter() {
        assert_eq!(d.dom, 1);
    }
    assert_eq!(errors, 0);
}

#[test]
fn affinity_blocks_migration() {
    // same load picture, but every task is pinned to domain 0
    let samples: Vec<TaskSample> = (1..=8).map(|p| busy_task(p, 0, 0b01, 100)).collect();
    let prev = TaskLoadMap::new();
    let mut errors = 0u64;
    let r = run_tick(&samples, &prev, NOW, PERIOD, 0, 2, true, &mut errors);
    // the imbalance is still recorded, but nothing can move
    assert_eq!(r.imbal[0], 409_600);
    assert_eq!(r.directives.entries.len(), 0);
    assert_eq!(errors, 0);
}

#[test]
fn thrash_guard_keeps_balanced_domains() {
    // loads 105 and 95 around a mean of 100: inside the ten-percent band
    let samples = vec![busy_task(1, 0, 0b11, 105), busy_task(2, 1, 0b11, 95)];
    let prev = TaskLoadMap::new();
    let mut errors = 0u64;
    let r = run_tick(&samples, &prev, NOW, PERIOD, 0, 2, true, &mut errors);
    assert_eq!(r.imbal, vec![0, 0]);
    assert_eq!(r.directives.entries.len(), 0);
}

#[test]
fn zero_imbalance_means_empty_directives() {
    let samples = vec![busy_task(1, 0, 0b11, 100), busy_task(2, 1, 0b11, 100)];
    let prev = TaskLoadMap::new();
    let mut errors = 0u64;
    let r = run_tick(&samples, &prev, NOW, PERIOD, 0, 2, true, &mut errors);
    assert_eq!(r.dom_loads[0], r.dom_loads[1]);
    assert_eq!(r.directives.entries.len(), 0);
}

#[test]
fn no_load_balance_skips_planning() {
    let samples: Vec<TaskSample> = (1..=8).map(|p| busy_task(p, 0, 0b11, 100)).collect();
    let prev = TaskLoadMap::new();
    let mut errors = 0u64;
    let r = run_tick(&samples, &prev, NOW, PERIOD, 0, 2, false, &mut errors);
    assert_eq!(r.imbal[0], 409_600);
    assert_eq!(r.directives.entries.len(), 0);
}

#[test]
fn task_disappearing_mid_tick_is_skipped_and_forgotten() {
    let samples = vec![busy_task(1, 0, 0b11, 100), TaskSample { pid: 2, ctx: None }];
    let mut prev = TaskLoadMap::new();
    // the previous tick knew both tasks
    prev.entries.push(atropos::estimator::LoadEntry {
        pid: 1,
        rec: TaskLoad { runnable_for: 0, load: 0 },
    });
    prev.entries.push(atropos::estimator::LoadEntry {
        pid: 2,
        rec: TaskLoad { runnable_for: 0, load: 50_000 },
    });
    let mut errors = 0u64;
    let r = run_tick(&samples, &prev, NOW, PERIOD, 500, 1, true, &mut errors);
    assert_eq!(r.task_loads.entries.len(), 1);
    assert!(r.task_loads.get(1).is_some());
    assert!(r.task_loads.get(2).is_none());
}

#[test]
fn duplicate_directive_is_refused_and_counted() {
    let mut table = DirectiveTable::new();
    let mut errors = 0u64;
    assert!(table.insert_counted(5, 1, &mut errors));
    assert_eq!(errors, 0);
    // a planner fault offering the same PID again is refused, not overwritten
    assert!(!table.insert_counted(5, 0, &mut errors));
    assert_eq!(errors, 1);
    assert_eq!(table.entries.len(), 1);
    assert_eq!(table.entries[0].dom, 1);
}

#[test]
fn decay_converges_on_alternating_load() {
    // α = 0.5 and a task whose true load alternates 0 / 100 each tick
    let mut rec = TaskLoad { runnable_for: 0, load: 0 };
    for tick in 0..40 {
        let delta = if tick % 2 == 0 { PERIOD } else { 0 };
        let runnable_for = rec.runnable_for + delta;
        let load = task_load(Some(&rec), runnable_for, 0, 100, NOW, PERIOD, 500);
        rec = TaskLoad { runnable_for, load };
    }
    let a = rec.load;
    let delta = PERIOD;
    let b = task_load(Some(&rec), rec.runnable_for + delta, 0, 100, NOW, PERIOD, 500);
    // the two-phase cycle averages to half the full-period load of 102400
    let avg = (a + b) / 2;
    assert!(avg >= 51_150 && avg <= 51_250, "avg={}", avg);
}

#[test]
fn load_stays_within_weight() {
    // a task reporting far more runnable time than the period is clamped
    let load = task_load(None, u64::MAX, 0, 100, NOW, PERIOD, 0);
    assert_eq!(load, 102_400);
    let zero = task_load(None, 0, 0, 100, NOW, PERIOD, 0);
    assert_eq!(zero, 0);
}

#[test]
fn gate_rejects_non_improving_pick() {
    let entries = vec![LbEntry { load: 100, pid: 1, dom_mask: 0b10, migrated: false }];
    // moving a load of 100 between domains that only need 5 makes it worse
    assert_eq!(pick_victim(&entries, 5, 5, 1), None);
    // moving it where 100 is wanted zeroes the imbalance
    assert_eq!(pick_victim(&entries, 100, 100, 1), Some(0));
    // an already migrated task is never picked twice
    let done = vec![LbEntry { load: 100, pid: 1, dom_mask: 0b10, migrated: true }];
    assert_eq!(pick_victim(&done, 100, 100, 1), None);
}

#[test]
fn parse_cpusets_partitions_cpus() {
    let masks = vec![b"0xff_00ff".to_vec(), b"0xff00".to_vec()];
    let (cpusets, cpus) = parse_cpusets(&masks, 24).unwrap();
    for c in 0..24usize {
        let want = if (8..16).contains(&c) { 1 } else { 0 };
        assert_eq!(cpus[c], want, "cpu {}", c);
        assert_eq!(cpusets[0].get(c), want == 0);
        assert_eq!(cpusets[1].get(c), want == 1);
    }
    // the raw words go straight into the kernel config area
    assert_eq!(cpusets[0].words[0], 0x00ff_00ff);
    assert_eq!(cpusets[1].words[0], 0x0000_ff00);
}

#[test]
fn parse_cpusets_rejects_bad_inputs() {
    assert_eq!(
        parse_cpusets(&vec![b"zz".to_vec()], 4).unwrap_err(),
        ConfigError::BadMask { dom: 0 }
    );
    assert_eq!(
        parse_cpusets(&vec![b"0x3".to_vec(), b"0x2".to_vec()], 2).unwrap_err(),
        ConfigError::CpuInTwoMasks { cpu: 1, dom: 1 }
    );
    assert_eq!(
        parse_cpusets(&vec![b"0x1".to_vec()], 2).unwrap_err(),
        ConfigError::CpuNotCovered { cpu: 1 }
    );
    assert_eq!(
        parse_cpusets(&vec![b"0x13".to_vec()], 3).unwrap_err(),
        ConfigError::CpuOutOfRange { cpu: 4, dom: 0 }
    );
}

#[test]
fn cache_ids_group_into_dense_domains() {
    // ids with holes get consecutive domains in ascending id order; an
    // unreadable id falls back to zero and is tallied
    let ids = vec![Some(5), Some(3), None, Some(5)];
    let (cpusets, cpu_dom, nnf, dom_ids) = domains_from_cache_ids(&ids).unwrap();
    assert_eq!(dom_ids, vec![0, 3, 5]);
    assert_eq!(cpu_dom, vec![2, 1, 0, 2]);
    assert_eq!(nnf, 1);
    assert!(cpusets[2].get(0) && cpusets[2].get(3));
    assert!(cpusets[1].get(1));
    assert!(cpusets[0].get(2));
    assert!(!cpusets[0].get(0));
}

#[test]
fn busy_fraction_needs_complete_snapshots() {
    let zero = CpuStatSnap {
        user_usec: Some(0),
        nice_usec: Some(0),
        system_usec: Some(0),
        idle_usec: Some(0),
        iowait_usec: Some(0),
        irq_usec: Some(0),
        softirq_usec: Some(0),
        stolen_usec: Some(0),
    };
    let later = CpuStatSnap {
        user_usec: Some(30),
        nice_usec: Some(5),
        system_usec: Some(10),
        idle_usec: Some(40),
        iowait_usec: Some(10),
        irq_usec: Some(2),
        softirq_usec: Some(2),
        stolen_usec: Some(1),
    };
    assert_eq!(cpu_busy_times(&zero, &later), Some((50, 100)));
    let broken = CpuStatSnap { idle_usec: None, ..later };
    assert_eq!(cpu_busy_times(&zero, &broken), None);
}

#[test]
fn counters_sum_and_exit_word_classifies() {
    assert_eq!(sum_counters(&vec![1, 2, 3, u64::MAX]), 6 + u64::MAX as u128);
    assert_eq!(exit_kind(0), ExitKind::Running);
    assert_eq!(exit_kind(2), ExitKind::Error);
    assert_eq!(exit_kind(64), ExitKind::Graceful);
}
