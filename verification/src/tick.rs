//! One control-loop tick: estimate task loads, detect imbalance, plan
//! migrations, and publish them as a fresh directive table.

use vstd::prelude::*;
use crate::detect::{
    calculate_dom_load_balance, lemma_equal_loads_no_push, pull_seq, push_seq, spec_imbal,
};
use crate::estimator::{
    count_some_upto, dom_loads_upto, est_cfg, eligible_sample, expected_entry, in_index,
    indexed_record, loads_upto, new_rec, pid_sampled, pinned, read_task_loads, s_load,
    sample_dom, sample_dom_ok, sorted_entries, spec_lookup, EstCfg, EstimateOut, LbEntry,
    TaskLoadMap, TaskSample,
};
use crate::plan::{
    dom_saturated, load_balance, mig_matches, mig_numeric_ok, DirectiveTable, Migration,
};
use crate::sums::sum_u64;
use crate::{DECAY_MAX, MAX_DOMS, MAX_TASKS, TASK_LOAD_BOUND};

verus! {

/// Whether one migration names a sampled task it is allowed to move: the PID
/// was observed this tick, sits in the source domain, is not pinned there,
/// its affinity mask admits the target domain, and the recorded load is the
/// task's load this tick.
pub open spec fn mig_from_sample(cfg: EstCfg, s: Seq<TaskSample>, m: Migration) -> bool {
    exists|j: int|
        0 <= j < s.len() && match (#[trigger] s[j]).ctx {
            Some(c) => {
                &&& s[j].pid == m.pid
                &&& c.dom_id == m.from
                &&& !pinned(c)
                &&& c.dom_mask & (1u64 << m.to) != 0
                &&& m.load == s_load(cfg, s[j])
            },
            None => false,
        }
}

/// Everything one tick leaves behind for the next tick and for reporting.
pub struct TickResult {
    /// The rebuilt persistent per-task load map.
    pub task_loads: TaskLoadMap,
    /// Aggregated fixed-point load per domain.
    pub dom_loads: Vec<u64>,
    /// Mean domain load.
    pub load_avg: u64,
    /// Signed deviation per domain, zero inside the threshold band.
    pub imbal: Vec<i64>,
    /// The directives published this tick.
    pub directives: DirectiveTable,
    /// The log of accepted migrations behind the directives.
    pub migrations: Ghost<Seq<Migration>>,
    /// The per-domain migration index the planner ran against.
    pub tasks_by_load: Ghost<Seq<Vec<LbEntry>>>,
}

/// Runs one tick over a snapshot of the kernel task table: the estimator,
/// the imbalance detector, and — unless balancing is disabled — the planner,
/// whose migrations are published create-only into a fresh directive table.
pub fn run_tick(
    samples: &Vec<TaskSample>,
    prev: &TaskLoadMap,
    now: u64,
    period: u64,
    decay: u64,
    nr_doms: usize,
    balance_load: bool,
    nr_lb_data_errors: &mut u64,
) -> (r: TickResult)
    requires
        period >= 1,
        decay <= DECAY_MAX,
        1 <= nr_doms <= MAX_DOMS,
        samples@.len() <= MAX_TASKS,
        forall|j1: int, j2: int|
            0 <= j1 < j2 < samples@.len() ==> (#[trigger] samples@[j1]).pid != (
            #[trigger] samples@[j2]).pid,
        forall|j: int| 0 <= j < samples@.len() ==> sample_dom_ok(#[trigger] samples@[j], nr_doms),
        prev.wf(),
    ensures
        ({
            let cfg = est_cfg(*prev, now, period, decay);
            let s = samples@;
            let n = samples@.len() as int;
            let migs = r.migrations@;
            let push0 = push_seq(r.dom_loads@, r.load_avg, nr_doms as int);
            let pull0 = pull_seq(r.dom_loads@, r.load_avg, nr_doms as int);
            // the persistent map holds exactly the sampled tasks, each with
            // its decayed load
            &&& r.task_loads.wf()
            &&& r.task_loads.entries@.len() == count_some_upto(s, n)
            &&& forall|j: int|
                0 <= j < n && (#[trigger] s[j]).ctx is Some ==> spec_lookup(
                    r.task_loads.entries@,
                    s[j].pid,
                ) == Some(new_rec(cfg, s[j]))
            &&& forall|k: int|
                0 <= k < r.task_loads.entries@.len() ==> pid_sampled(
                    s,
                    n,
                    (#[trigger] r.task_loads.entries@[k]).pid,
                )
            // per-domain loads and their total
            &&& r.dom_loads@.len() == nr_doms
            &&& forall|d: int|
                0 <= d < nr_doms ==> (#[trigger] r.dom_loads@[d]) == dom_loads_upto(
                    cfg,
                    s,
                    d as u32,
                    n,
                )
            &&& sum_u64(r.dom_loads@) == loads_upto(cfg, s, n)
            // the mean and the reported deviations
            &&& r.load_avg == sum_u64(r.dom_loads@) as u64 / nr_doms as u64
            &&& r.imbal@.len() == nr_doms
            &&& forall|d: int|
                0 <= d < nr_doms ==> (#[trigger] r.imbal@[d]) == spec_imbal(
                    r.dom_loads@[d],
                    r.load_avg,
                )
            // directives mirror the migration log; no PID appears twice
            &&& r.directives.wf()
            &&& r.directives.entries@.len() == migs.len()
            &&& forall|k: int|
                0 <= k < migs.len() ==> (#[trigger] r.directives.entries@[k]).pid == migs[k].pid
                    && r.directives.entries@[k].dom == migs[k].to
            // every migration moves a sampled, unpinned, affinity-compatible
            // task out of its own domain
            &&& forall|k: int| 0 <= k < migs.len() ==> mig_from_sample(cfg, s, #[trigger] migs[k])
            // and obeys the working-imbalance accounting, the improvement
            // gate and the push cap
            &&& forall|k: int|
                0 <= k < migs.len() ==> mig_numeric_ok(migs, k, push0, pull0, r.dom_loads@)
            // the index the planner ran against: per domain, sorted, and
            // holding exactly the unpinned sampled tasks of that domain
            &&& r.tasks_by_load@.len() == nr_doms
            &&& forall|d: int|
                0 <= d < nr_doms ==> sorted_entries((#[trigger] r.tasks_by_load@[d])@)
            &&& forall|d: int, m: int|
                0 <= d < nr_doms && 0 <= m < r.tasks_by_load@[d]@.len() ==> indexed_record(
                    cfg,
                    s,
                    n,
                    d as u32,
                    #[trigger] r.tasks_by_load@[d]@[m],
                ) && r.tasks_by_load@[d]@[m].migrated == false
            &&& forall|j: int|
                0 <= j < n && eligible_sample(#[trigger] s[j]) ==> in_index(
                    r.tasks_by_load@[sample_dom(s[j]) as int]@,
                    expected_entry(cfg, s[j]),
                )
            // progress: every push domain either shed its cap or stopped
            // only when no pull domain admitted any further victim
            &&& balance_load ==> forall|i: int|
                0 <= i < push0.len() ==> dom_saturated(
                    migs,
                    r.tasks_by_load@,
                    push0,
                    pull0,
                    r.dom_loads@,
                    (#[trigger] push0[i]).1,
                )
            // balancing disabled: nothing is published
            &&& !balance_load ==> migs.len() == 0 && r.directives.entries@.len() == 0
            // no imbalance: nothing is published
            &&& (forall|d1: int, d2: int|
                0 <= d1 < nr_doms && 0 <= d2 < nr_doms ==> r.dom_loads@[d1] == r.dom_loads@[d2])
                ==> r.directives.entries@.len() == 0
            // create-only writes never collide
            &&& *final(nr_lb_data_errors) == *old(nr_lb_data_errors)
        }),
{
    let ghost cfg = est_cfg(*prev, now, period, decay);
    let ghost s = samples@;
    let ghost n = samples@.len() as int;
    let est = read_task_loads(samples, prev, now, period, decay, nr_doms);
    let EstimateOut { task_loads, dom_loads, load_sum, tasks_by_load } = est;
    proof {
        assert(n * TASK_LOAD_BOUND <= MAX_TASKS * TASK_LOAD_BOUND) by (nonlinear_arith)
            requires n <= MAX_TASKS;
    }
    let det = calculate_dom_load_balance(&dom_loads, load_sum);
    let ghost tbl0 = tasks_by_load@;
    let ghost push0 = det.doms_to_push@;
    let ghost pull0 = det.doms_to_pull@;
    let (directives, migrations): (DirectiveTable, Ghost<Seq<Migration>>) = if balance_load {
        let (table, migs) = load_balance(
            tasks_by_load,
            &dom_loads,
            det.doms_to_push,
            det.doms_to_pull,
            nr_lb_data_errors,
        );
        proof {
            // tie each migration back to the sample it came from
            assert forall|k: int| 0 <= k < migs@.len() implies mig_from_sample(
                cfg,
                s,
                #[trigger] migs@[k],
            ) by {
                let m = migs@[k];
                assert(crate::plan::mig_ok_at(migs@, k, tbl0, push0, pull0, dom_loads@));
                assert(mig_matches(tbl0, m));
                let i = choose|i: int|
                    0 <= i < tbl0[m.from as int]@.len() && (#[trigger] tbl0[m.from as int]@[i]).pid
                        == m.pid && tbl0[m.from as int]@[i].load == m.load && tbl0[
                        m.from as int]@[i].dom_mask & (1u64 << m.to) != 0 && tbl0[
                        m.from as int]@[i].migrated == false;
                assert(indexed_record(cfg, s, n, (m.from as int) as u32, tbl0[m.from as int]@[i]));
                let j = choose|j: int|
                    0 <= j < n && eligible_sample(#[trigger] s[j]) && sample_dom(s[j]) == (
                    m.from as int) as u32 && crate::estimator::entry_matches(
                        cfg,
                        s[j],
                        tbl0[m.from as int]@[i],
                    );
                assert(0 <= j < s.len() && match s[j].ctx {
                    Some(c) => {
                        &&& s[j].pid == m.pid
                        &&& c.dom_id == m.from
                        &&& !pinned(c)
                        &&& c.dom_mask & (1u64 << m.to) != 0
                        &&& m.load == s_load(cfg, s[j])
                    },
                    None => false,
                });
            }
            assert forall|k: int| 0 <= k < migs@.len() implies mig_numeric_ok(
                migs@,
                k,
                push0,
                pull0,
                dom_loads@,
            ) by {
                assert(crate::plan::mig_ok_at(migs@, k, tbl0, push0, pull0, dom_loads@));
            }
            assert forall|i: int| 0 <= i < push0.len() implies dom_saturated(
                migs@,
                tbl0,
                push0,
                pull0,
                dom_loads@,
                (#[trigger] push0[i]).1,
            ) by {}
            // all domain loads equal: the push set is empty, so nothing moved
            if forall|d1: int, d2: int|
                0 <= d1 < nr_doms && 0 <= d2 < nr_doms ==> dom_loads@[d1] == dom_loads@[d2] {
                lemma_equal_loads_no_push(dom_loads@, load_sum);
            }
        }
        (table, migs)
    } else {
        (DirectiveTable::new(), Ghost(Seq::empty()))
    };
    TickResult {
        task_loads,
        dom_loads,
        load_avg: det.load_avg,
        imbal: det.imbal,
        directives,
        migrations,
        tasks_by_load: Ghost(tbl0),
    }
}

} // verus!
