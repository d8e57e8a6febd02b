//! The task load estimator: one pass over a snapshot of the kernel task
//! table that rebuilds the persistent per-task load map, aggregates
//! per-domain loads, and indexes migration-eligible tasks by load.

use vstd::prelude::*;
use crate::load::{spec_deref_prev, spec_task_load, task_load, TaskLoad};
use crate::sums::{lemma_elem_le_sum, lemma_sum_update, sum_u64};
use crate::{DECAY_MAX, MAX_DOMS, MAX_TASKS, TASK_LOAD_BOUND};

verus! {

/// One record of the kernel task table, read as individual words.
#[derive(Clone, Copy, Debug)]
pub struct TaskCtx {
    pub dom_id: u32,
    pub dom_mask: u64,
    pub runnable_at: u64,
    pub runnable_for: u64,
    pub weight: u32,
}

/// One iteration step over the task table: a key, and the value its lookup
/// returned, `None` when the task vanished between the key walk and the
/// lookup.
#[derive(Clone, Copy, Debug)]
pub struct TaskSample {
    pub pid: i32,
    pub ctx: Option<TaskCtx>,
}

/// An entry of the persistent per-task load map.
#[derive(Clone, Copy, Debug)]
pub struct LoadEntry {
    pub pid: i32,
    pub rec: TaskLoad,
}

/// The controller state that survives between ticks: the smoothed load and
/// last runnable-time reading of every known task.
#[derive(Debug)]
pub struct TaskLoadMap {
    pub entries: Vec<LoadEntry>,
}

/// An entry of the per-domain migration index: one task eligible for load
/// balancing, keyed by its fixed-point load.
#[derive(Clone, Copy, Debug)]
pub struct LbEntry {
    pub load: u64,
    pub pid: i32,
    pub dom_mask: u64,
    pub migrated: bool,
}

/// What the load of each task this tick is a function of: the previous map
/// and the clock readings.
pub ghost struct EstCfg {
    pub prev: Seq<LoadEntry>,
    pub now: u64,
    pub period: u64,
    pub decay: u64,
}

pub open spec fn spec_lookup(s: Seq<LoadEntry>, pid: i32) -> Option<TaskLoad>
    decreases s.len(),
{
    if s.len() == 0 {
        None
    } else if s[0].pid == pid {
        Some(s[0].rec)
    } else {
        spec_lookup(s.subrange(1, s.len() as int), pid)
    }
}

impl TaskLoadMap {
    /// Distinct keys, and every load within the global per-task bound.
    pub open spec fn wf(self) -> bool {
        &&& forall|k1: int, k2: int|
            0 <= k1 < k2 < self.entries@.len() ==> self.entries@[k1].pid != self.entries@[k2].pid
        &&& forall|k: int|
            0 <= k < self.entries@.len() ==> #[trigger] self.entries@[k].rec.load
                <= TASK_LOAD_BOUND
    }

    pub fn new() -> (r: Self)
        ensures
            r.entries@.len() == 0,
            r.wf(),
    {
        TaskLoadMap { entries: Vec::new() }
    }

    /// Looks a task up by PID.
    pub fn get(&self, pid: i32) -> (r: Option<&TaskLoad>)
        ensures
            spec_deref_prev(r) == spec_lookup(self.entries@, pid),
    {
        let n = self.entries.len();
        proof {
            assert(self.entries@.subrange(0, n as int) =~= self.entries@);
        }
        for i in 0..n
            invariant
                n == self.entries@.len(),
                spec_lookup(self.entries@, pid) == spec_lookup(
                    self.entries@.subrange(i as int, n as int),
                    pid,
                ),
        {
            let sub = Ghost(self.entries@.subrange(i as int, n as int));
            assert(sub@[0] == self.entries@[i as int]);
            if self.entries[i].pid == pid {
                return Some(&self.entries[i].rec);
            }
            proof {
                assert(sub@.subrange(1, sub@.len() as int) =~= self.entries@.subrange(
                    i + 1,
                    n as int,
                ));
            }
        }
        proof {
            assert(self.entries@.subrange(n as int, n as int) =~= Seq::<LoadEntry>::empty());
        }
        None
    }
}

/// A lookup that finds a record finds it at some index.
pub proof fn lemma_lookup_in(s: Seq<LoadEntry>, pid: i32)
    requires
        spec_lookup(s, pid) is Some,
    ensures
        exists|k: int|
            0 <= k < s.len() && s[k].pid == pid && s[k].rec == spec_lookup(s, pid)->Some_0,
    decreases s.len(),
{
    if s.len() > 0 && s[0].pid != pid {
        lemma_lookup_in(s.subrange(1, s.len() as int), pid);
        let k = choose|k: int|
            0 <= k < s.len() - 1 && s.subrange(1, s.len() as int)[k].pid == pid && s.subrange(
                1,
                s.len() as int,
            )[k].rec == spec_lookup(s, pid)->Some_0;
        assert(s[k + 1].pid == pid && s[k + 1].rec == spec_lookup(s, pid)->Some_0);
    }
}

/// A lookup misses exactly when no entry carries the PID.
pub proof fn lemma_lookup_none(s: Seq<LoadEntry>, pid: i32)
    ensures
        (spec_lookup(s, pid) is None) <==> (forall|k: int|
            0 <= k < s.len() ==> s[k].pid != pid),
    decreases s.len(),
{
    if s.len() > 0 {
        lemma_lookup_none(s.subrange(1, s.len() as int), pid);
        if s[0].pid != pid {
            assert(forall|k: int|
                1 <= k < s.len() ==> s[k] == s.subrange(1, s.len() as int)[k - 1]);
        }
    }
}

/// Appending an entry leaves every present key alone and adds the new one.
pub proof fn lemma_lookup_push(s: Seq<LoadEntry>, e: LoadEntry, pid: i32)
    ensures
        spec_lookup(s, pid) is Some ==> spec_lookup(s.push(e), pid) == spec_lookup(s, pid),
        spec_lookup(s, pid) is None && e.pid == pid ==> spec_lookup(s.push(e), pid) == Some(
            e.rec,
        ),
        spec_lookup(s, pid) is None && e.pid != pid ==> spec_lookup(s.push(e), pid) is None,
    decreases s.len(),
{
    if s.len() == 0 {
        assert(s.push(e).len() == 1);
        assert(s.push(e)[0] == e);
        assert(s.push(e).subrange(1, 1) =~= Seq::<LoadEntry>::empty());
        assert(spec_lookup(Seq::<LoadEntry>::empty(), pid) is None);
    } else {
        assert(s.push(e)[0] == s[0]);
        assert(s.push(e).subrange(1, s.len() as int + 1) =~= s.subrange(1, s.len() as int).push(
            e,
        ));
        lemma_lookup_push(s.subrange(1, s.len() as int), e, pid);
    }
}

/// A task pinned to its own domain: accounted, never migrated.
pub open spec fn pinned(c: TaskCtx) -> bool {
    c.dom_mask == (1u64 << c.dom_id)
}

/// A sample that lands in the migration index: present and not pinned.
pub open spec fn eligible_sample(smp: TaskSample) -> bool {
    match smp.ctx {
        Some(c) => !pinned(c),
        None => false,
    }
}

/// The new load of one present sample under the given configuration.
pub open spec fn s_load(cfg: EstCfg, smp: TaskSample) -> int {
    match smp.ctx {
        Some(c) => spec_task_load(
            spec_lookup(cfg.prev, smp.pid),
            c.runnable_for,
            c.runnable_at,
            c.weight,
            cfg.now,
            cfg.period,
            cfg.decay,
        ),
        None => 0,
    }
}

/// The new persistent record of one present sample.
pub open spec fn new_rec(cfg: EstCfg, smp: TaskSample) -> TaskLoad {
    match smp.ctx {
        Some(c) => TaskLoad { runnable_for: c.runnable_for, load: s_load(cfg, smp) as u64 },
        None => TaskLoad { runnable_for: 0, load: 0 },
    }
}

/// How many of the first `n` samples were still present at lookup time.
pub open spec fn count_some_upto(s: Seq<TaskSample>, n: int) -> int
    decreases n,
{
    if n <= 0 {
        0
    } else {
        count_some_upto(s, n - 1) + if s[n - 1].ctx is Some {
            1int
        } else {
            0int
        }
    }
}

/// Sum of the new loads of the first `n` samples.
pub open spec fn loads_upto(cfg: EstCfg, s: Seq<TaskSample>, n: int) -> int
    decreases n,
{
    if n <= 0 {
        0
    } else {
        loads_upto(cfg, s, n - 1) + if s[n - 1].ctx is Some {
            s_load(cfg, s[n - 1])
        } else {
            0
        }
    }
}

/// Sum of the new loads of the first `n` samples that sit in domain `d`.
pub open spec fn dom_loads_upto(cfg: EstCfg, s: Seq<TaskSample>, d: u32, n: int) -> int
    decreases n,
{
    if n <= 0 {
        0
    } else {
        dom_loads_upto(cfg, s, d, n - 1) + match s[n - 1].ctx {
            Some(c) => if c.dom_id == d {
                s_load(cfg, s[n - 1])
            } else {
                0
            },
            None => 0,
        }
    }
}

/// Whether one index entry stands for one sample.
pub open spec fn entry_matches(cfg: EstCfg, smp: TaskSample, e: LbEntry) -> bool {
    match smp.ctx {
        Some(c) => e.pid == smp.pid && e.dom_mask == c.dom_mask && e.load == s_load(cfg, smp)
            && e.migrated == false,
        None => false,
    }
}

/// Strict order of the migration index: by load, ties by PID.
pub open spec fn key_lt(a: LbEntry, b: LbEntry) -> bool {
    a.load < b.load || (a.load == b.load && a.pid < b.pid)
}

pub open spec fn sorted_entries(s: Seq<LbEntry>) -> bool {
    forall|k1: int, k2: int| 0 <= k1 < k2 < s.len() ==> key_lt(s[k1], s[k2])
}

fn entry_lt(a: &LbEntry, b: &LbEntry) -> (r: bool)
    ensures
        r == key_lt(*a, *b),
{
    a.load < b.load || (a.load == b.load && a.pid < b.pid)
}

/// Inserts an entry with a fresh PID into a sorted index, keeping it sorted.
fn insert_sorted(cur: &mut Vec<LbEntry>, e: LbEntry)
    requires
        sorted_entries(old(cur)@),
        forall|m: int| 0 <= m < old(cur)@.len() ==> (#[trigger] old(cur)@[m]).pid != e.pid,
    ensures
        sorted_entries(final(cur)@),
        exists|p: int| 0 <= p <= old(cur)@.len() && final(cur)@ == old(cur)@.insert(p, e),
{
    let ghost old_cur = cur@;
    let mut pos: usize = 0;
    loop
        invariant_except_break
            cur@ == old_cur,
            sorted_entries(cur@),
            forall|m: int| 0 <= m < old_cur.len() ==> (#[trigger] old_cur[m]).pid != e.pid,
            pos <= cur@.len(),
            forall|m: int| 0 <= m < pos ==> key_lt(cur@[m], e),
        ensures
            cur@ == old_cur,
            pos <= cur@.len(),
            forall|m: int| 0 <= m < pos ==> key_lt(cur@[m], e),
            pos < cur@.len() ==> !key_lt(cur@[pos as int], e),
        decreases cur@.len() - pos,
    {
        if pos < cur.len() {
            if entry_lt(&cur[pos], &e) {
                pos = pos + 1;
            } else {
                break;
            }
        } else {
            break;
        }
    }
    // keys at and after pos are strictly greater than the new key
    assert(forall|m: int| pos <= m < cur@.len() ==> key_lt(e, cur@[m])) by {
        if pos < cur@.len() {
            assert(!key_lt(cur@[pos as int], e));
            assert(cur@[pos as int].pid != e.pid);
            assert(key_lt(e, cur@[pos as int]));
            assert forall|m: int| pos < m < cur@.len() implies key_lt(e, cur@[m]) by {
                assert(key_lt(cur@[pos as int], cur@[m]));
            }
        }
    }
    cur.insert(pos, e);
    proof {
        old_cur.insert_ensures(pos as int, e);
        assert(cur@ == old_cur.insert(pos as int, e));
        assert forall|m1: int, m2: int| 0 <= m1 < m2 < cur@.len() implies key_lt(
            cur@[m1],
            cur@[m2],
        ) by {
            let o1: int = if m1 < pos { m1 } else { m1 - 1 };
            let o2: int = if m2 < pos { m2 } else { m2 - 1 };
            if m1 == pos {
                assert(cur@[m2] == old_cur[o2]);
            } else if m2 == pos {
                assert(cur@[m1] == old_cur[o1]);
            } else {
                assert(cur@[m1] == old_cur[o1] && cur@[m2] == old_cur[o2]);
            }
        }
    }
}

/// The domain a sample sits in (zero for a vanished task).
pub open spec fn sample_dom(smp: TaskSample) -> u32 {
    match smp.ctx {
        Some(c) => c.dom_id,
        None => 0,
    }
}

/// The index entry one eligible sample produces.
pub open spec fn expected_entry(cfg: EstCfg, smp: TaskSample) -> LbEntry {
    LbEntry {
        load: s_load(cfg, smp) as u64,
        pid: smp.pid,
        dom_mask: match smp.ctx {
            Some(c) => c.dom_mask,
            None => 0,
        },
        migrated: false,
    }
}

/// Whether the entry stands for one of the first `upto` samples, indexed in
/// domain `d`.
pub open spec fn indexed_record(
    cfg: EstCfg,
    s: Seq<TaskSample>,
    upto: int,
    d: u32,
    e: LbEntry,
) -> bool {
    exists|j: int|
        0 <= j < upto && eligible_sample(#[trigger] s[j]) && sample_dom(s[j]) == d
            && entry_matches(cfg, s[j], e)
}

/// Whether some PID among the first `upto` samples was present.
pub open spec fn pid_sampled(s: Seq<TaskSample>, upto: int, pid: i32) -> bool {
    exists|j: int| 0 <= j < upto && (#[trigger] s[j]).ctx is Some && s[j].pid == pid
}

/// Whether a flat record list carries `(d, e)`.
pub open spec fn flat_has(flat: Seq<(u32, LbEntry)>, d: u32, e: LbEntry) -> bool {
    exists|k: int| 0 <= k < flat.len() && #[trigger] flat[k] == (d, e)
}

/// Whether an index holds the entry.
pub open spec fn in_index(s: Seq<LbEntry>, e: LbEntry) -> bool {
    exists|m: int| 0 <= m < s.len() && s[m] == e
}

pub proof fn lemma_indexed_widen(cfg: EstCfg, s: Seq<TaskSample>, u1: int, u2: int, d: u32, e: LbEntry)
    requires
        u1 <= u2,
        indexed_record(cfg, s, u1, d, e),
    ensures
        indexed_record(cfg, s, u2, d, e),
{
    let j = choose|j: int|
        0 <= j < u1 && eligible_sample(#[trigger] s[j]) && sample_dom(s[j]) == d && entry_matches(
            cfg,
            s[j],
            e,
        );
    assert(0 <= j < u2 && eligible_sample(s[j]) && sample_dom(s[j]) == d && entry_matches(
        cfg,
        s[j],
        e,
    ));
}

pub proof fn lemma_pid_sampled_widen(s: Seq<TaskSample>, u1: int, u2: int, pid: i32)
    requires
        u1 <= u2,
        pid_sampled(s, u1, pid),
    ensures
        pid_sampled(s, u2, pid),
{
    let j = choose|j: int| 0 <= j < u1 && (#[trigger] s[j]).ctx is Some && s[j].pid == pid;
    assert(0 <= j < u2 && s[j].ctx is Some && s[j].pid == pid);
}

pub proof fn lemma_flat_has_push(flat: Seq<(u32, LbEntry)>, x: (u32, LbEntry), d: u32, e: LbEntry)
    requires
        flat_has(flat, d, e),
    ensures
        flat_has(flat.push(x), d, e),
{
    let k = choose|k: int| 0 <= k < flat.len() && #[trigger] flat[k] == (d, e);
    assert(flat.push(x)[k] == (d, e));
}

pub proof fn lemma_in_index_insert(s: Seq<LbEntry>, p: int, x: LbEntry, e: LbEntry)
    requires
        0 <= p <= s.len(),
        in_index(s, e),
    ensures
        in_index(s.insert(p, x), e),
{
    let m = choose|m: int| 0 <= m < s.len() && #[trigger] s[m] == e;
    s.insert_ensures(p, x);
    if m < p {
        assert(s.insert(p, x)[m] == e);
    } else {
        assert(s.insert(p, x)[m + 1] == e);
    }
}

/// One step of building a domain's migration index: folds record `k` of the
/// flat list in, keeping the index sorted and mirroring the records of domain
/// `d` among the first `k + 1`.
#[verifier::rlimit(50)]
fn extend_dom_index(cur: &mut Vec<LbEntry>, flat: &Vec<(u32, LbEntry)>, d: u32, k: usize)
    requires
        k < flat@.len(),
        forall|k1: int, k2: int|
            0 <= k1 < k2 < flat@.len() ==> (#[trigger] flat@[k1]).1.pid != (
            #[trigger] flat@[k2]).1.pid,
        sorted_entries(old(cur)@),
        forall|m: int|
            0 <= m < old(cur)@.len() ==> flat_has(
                flat@.subrange(0, k as int),
                d,
                #[trigger] old(cur)@[m],
            ),
        forall|kk: int|
            0 <= kk < k && (#[trigger] flat@[kk]).0 == d ==> in_index(old(cur)@, flat@[kk].1),
        forall|m1: int, m2: int|
            0 <= m1 < m2 < old(cur)@.len() ==> old(cur)@[m1].pid != old(cur)@[m2].pid,
    ensures
        sorted_entries(final(cur)@),
        forall|m: int|
            0 <= m < final(cur)@.len() ==> flat_has(
                flat@.subrange(0, k + 1),
                d,
                #[trigger] final(cur)@[m],
            ),
        forall|kk: int|
            0 <= kk < k + 1 && (#[trigger] flat@[kk]).0 == d ==> in_index(final(cur)@, flat@[kk].1),
        forall|m1: int, m2: int|
            0 <= m1 < m2 < final(cur)@.len() ==> final(cur)@[m1].pid != final(cur)@[m2].pid,
{
    let ghost pre = flat@.subrange(0, k as int);
    let ghost post = flat@.subrange(0, k + 1);
    proof {
        assert(post =~= pre.push(flat@[k as int]));
    }
    let (fd, e) = flat[k];
    let ghost old_cur = cur@;
    if fd == d {
        // the new entry's pid differs from every pid already present
        assert forall|m: int| 0 <= m < cur@.len() implies cur@[m].pid != e.pid by {
            let kk = choose|kk: int| 0 <= kk < pre.len() && #[trigger] pre[kk] == (d, cur@[m]);
            assert(flat@[kk] == (d, cur@[m]));
            assert(flat@[kk].1.pid != flat@[k as int].1.pid);
        }
        insert_sorted(cur, e);
        proof {
            let pos = choose|pos: int| 0 <= pos <= old_cur.len() && cur@ == old_cur.insert(pos, e);
            old_cur.insert_ensures(pos, e);
            assert forall|m: int| 0 <= m < cur@.len() implies flat_has(
                post,
                d,
                #[trigger] cur@[m],
            ) by {
                if m == pos {
                    assert(cur@[m] == e);
                    assert(post[k as int] == (d, e));
                } else {
                    let o: int = if m < pos {
                        m
                    } else {
                        m - 1
                    };
                    assert(cur@[m] == old_cur[o]);
                    let kk = choose|kk: int|
                        0 <= kk < pre.len() && #[trigger] pre[kk] == (d, old_cur[o]);
                    assert(post[kk] == (d, cur@[m]));
                }
            }
            assert forall|kk: int|
                0 <= kk < k + 1 && (#[trigger] flat@[kk]).0 == d implies in_index(
                cur@,
                flat@[kk].1,
            ) by {
                if kk == k {
                    assert(cur@[pos] == flat@[kk].1);
                } else {
                    lemma_in_index_insert(old_cur, pos, e, flat@[kk].1);
                }
            }
            assert forall|m1: int, m2: int| 0 <= m1 < m2 < cur@.len() implies cur@[m1].pid
                != cur@[m2].pid by {
                let o1: int = if m1 < pos {
                    m1
                } else {
                    m1 - 1
                };
                let o2: int = if m2 < pos {
                    m2
                } else {
                    m2 - 1
                };
                if m1 == pos {
                    assert(cur@[m2] == old_cur[o2]);
                    assert(old_cur[o2].pid != e.pid);
                } else if m2 == pos {
                    assert(cur@[m1] == old_cur[o1]);
                    assert(old_cur[o1].pid != e.pid);
                } else {
                    assert(cur@[m1] == old_cur[o1] && cur@[m2] == old_cur[o2]);
                }
            }
        }
    } else {
        proof {
            assert forall|m: int| 0 <= m < cur@.len() implies flat_has(
                post,
                d,
                #[trigger] cur@[m],
            ) by {
                let kk = choose|kk: int| 0 <= kk < pre.len() && #[trigger] pre[kk] == (d, cur@[m]);
                assert(post[kk] == (d, cur@[m]));
            }
        }
    }
}

/// Builds the sorted migration index of one domain from the flat list of
/// eligible records gathered while walking the samples.
fn build_dom_index(flat: &Vec<(u32, LbEntry)>, d: u32) -> (cur: Vec<LbEntry>)
    requires
        forall|k1: int, k2: int|
            0 <= k1 < k2 < flat@.len() ==> (#[trigger] flat@[k1]).1.pid != (
            #[trigger] flat@[k2]).1.pid,
    ensures
        sorted_entries(cur@),
        forall|m: int| 0 <= m < cur@.len() ==> flat_has(flat@, d, #[trigger] cur@[m]),
        forall|k: int|
            0 <= k < flat@.len() && (#[trigger] flat@[k]).0 == d ==> in_index(cur@, flat@[k].1),
        forall|m1: int, m2: int|
            0 <= m1 < m2 < cur@.len() ==> cur@[m1].pid != cur@[m2].pid,
{
    let mut cur: Vec<LbEntry> = Vec::new();
    let n = flat.len();
    for k in 0..n
        invariant
            n == flat@.len(),
            forall|k1: int, k2: int|
                0 <= k1 < k2 < flat@.len() ==> (#[trigger] flat@[k1]).1.pid != (
                #[trigger] flat@[k2]).1.pid,
            sorted_entries(cur@),
            forall|m: int|
                0 <= m < cur@.len() ==> flat_has(
                    flat@.subrange(0, k as int),
                    d,
                    #[trigger] cur@[m],
                ),
            forall|kk: int|
                0 <= kk < k && (#[trigger] flat@[kk]).0 == d ==> in_index(cur@, flat@[kk].1),
            forall|m1: int, m2: int|
                0 <= m1 < m2 < cur@.len() ==> cur@[m1].pid != cur@[m2].pid,
    {
        extend_dom_index(&mut cur, flat, d, k);
    }
    proof {
        assert(flat@.subrange(0, n as int) =~= flat@);
    }
    cur
}

/// Everything one estimator pass produces.
pub struct EstimateOut {
    /// The rebuilt persistent map: exactly the tasks seen this tick.
    pub task_loads: TaskLoadMap,
    /// Fixed-point load aggregated per domain.
    pub dom_loads: Vec<u64>,
    /// Sum of all task loads.
    pub load_sum: u64,
    /// Per-domain migration index, sorted by (load, pid).
    pub tasks_by_load: Vec<Vec<LbEntry>>,
}

/// The estimator configuration a pass runs under.
pub open spec fn est_cfg(prev: TaskLoadMap, now: u64, period: u64, decay: u64) -> EstCfg {
    EstCfg { prev: prev.entries@, now, period, decay }
}

/// Domain id of a present sample is within range.
pub open spec fn sample_dom_ok(smp: TaskSample, nr_doms: usize) -> bool {
    match smp.ctx {
        Some(c) => c.dom_id < nr_doms,
        None => true,
    }
}

/// Walks the samples once: computes each task's new smoothed load, rebuilds
/// the persistent map, accumulates per-domain and total loads, and gathers
/// the records of migration-eligible tasks.
#[verifier::rlimit(100)]
fn scan_samples(
    samples: &Vec<TaskSample>,
    prev: &TaskLoadMap,
    now: u64,
    period: u64,
    decay: u64,
    nr_doms: usize,
) -> (out: (TaskLoadMap, Vec<u64>, u64, Vec<(u32, LbEntry)>))
    requires
        period >= 1,
        decay <= DECAY_MAX,
        1 <= nr_doms <= MAX_DOMS,
        samples@.len() <= MAX_TASKS,
        forall|j1: int, j2: int|
            0 <= j1 < j2 < samples@.len() ==> (#[trigger] samples@[j1]).pid != (
            #[trigger] samples@[j2]).pid,
        forall|j: int| 0 <= j < samples@.len() ==> sample_dom_ok(#[trigger] samples@[j], nr_doms),
        prev.wf(),
    ensures
        ({
            let cfg = est_cfg(*prev, now, period, decay);
            let s = samples@;
            let n = samples@.len() as int;
            let (tl, dom_loads, load_sum, flat) = out;
            &&& tl.wf()
            &&& tl.entries@.len() == count_some_upto(s, n)
            &&& forall|j: int|
                0 <= j < n && (#[trigger] s[j]).ctx is Some ==> spec_lookup(tl.entries@, s[j].pid)
                    == Some(new_rec(cfg, s[j]))
            &&& forall|k: int|
                0 <= k < tl.entries@.len() ==> pid_sampled(
                    s,
                    n,
                    (#[trigger] tl.entries@[k]).pid,
                )
            &&& dom_loads@.len() == nr_doms
            &&& forall|d: int|
                0 <= d < nr_doms ==> (#[trigger] dom_loads@[d]) == dom_loads_upto(
                    cfg,
                    s,
                    d as u32,
                    n,
                )
            &&& load_sum == loads_upto(cfg, s, n)
            &&& sum_u64(dom_loads@) == load_sum
            &&& load_sum <= n * TASK_LOAD_BOUND
            &&& forall|k: int|
                0 <= k < flat@.len() ==> indexed_record(
                    cfg,
                    s,
                    n,
                    (#[trigger] flat@[k]).0,
                    flat@[k].1,
                )
            &&& forall|k: int|
                0 <= k < flat@.len() ==> (#[trigger] flat@[k]).0 < nr_doms && flat@[k].1.load
                    <= TASK_LOAD_BOUND && flat@[k].1.migrated == false
            &&& forall|j: int|
                0 <= j < n && eligible_sample(#[trigger] s[j]) ==> flat_has(
                    flat@,
                    sample_dom(s[j]),
                    expected_entry(cfg, s[j]),
                )
            &&& forall|k1: int, k2: int|
                0 <= k1 < k2 < flat@.len() ==> (#[trigger] flat@[k1]).1.pid != (
                #[trigger] flat@[k2]).1.pid
        }),
{
    let ghost cfg = est_cfg(*prev, now, period, decay);
    let ghost s = samples@;
    let n = samples.len();
    let mut tl = TaskLoadMap::new();
    let mut dom_loads: Vec<u64> = vec![0u64; nr_doms];
    let mut load_sum: u64 = 0;
    let mut flat: Vec<(u32, LbEntry)> = Vec::new();
    proof {
        crate::sums::lemma_sum_const(dom_loads@, 0u64);
    }
    for j in 0..n
        invariant
            n == s.len(),
            s == samples@,
            cfg == est_cfg(*prev, now, period, decay),
            period >= 1,
            decay <= DECAY_MAX,
            1 <= nr_doms <= MAX_DOMS,
            n <= MAX_TASKS,
            prev.wf(),
            forall|j1: int, j2: int|
                0 <= j1 < j2 < s.len() ==> (#[trigger] s[j1]).pid != (#[trigger] s[j2]).pid,
            forall|jj: int| 0 <= jj < s.len() ==> sample_dom_ok(#[trigger] s[jj], nr_doms),
            tl.wf(),
            tl.entries@.len() == count_some_upto(s, j as int),
            forall|i: int|
                0 <= i < j && (#[trigger] s[i]).ctx is Some ==> spec_lookup(tl.entries@, s[i].pid)
                    == Some(new_rec(cfg, s[i])),
            forall|k: int|
                0 <= k < tl.entries@.len() ==> pid_sampled(
                    s,
                    j as int,
                    (#[trigger] tl.entries@[k]).pid,
                ),
            dom_loads@.len() == nr_doms,
            forall|d: int|
                0 <= d < nr_doms ==> (#[trigger] dom_loads@[d]) == dom_loads_upto(
                    cfg,
                    s,
                    d as u32,
                    j as int,
                ),
            load_sum == loads_upto(cfg, s, j as int),
            sum_u64(dom_loads@) == load_sum,
            load_sum <= j * TASK_LOAD_BOUND,
            forall|k: int|
                0 <= k < flat@.len() ==> indexed_record(
                    cfg,
                    s,
                    j as int,
                    (#[trigger] flat@[k]).0,
                    flat@[k].1,
                ),
            forall|k: int|
                0 <= k < flat@.len() ==> (#[trigger] flat@[k]).0 < nr_doms && flat@[k].1.load
                    <= TASK_LOAD_BOUND && flat@[k].1.migrated == false,
            forall|i: int|
                0 <= i < j && eligible_sample(#[trigger] s[i]) ==> flat_has(
                    flat@,
                    sample_dom(s[i]),
                    expected_entry(cfg, s[i]),
                ),
            forall|k: int|
                0 <= k < flat@.len() ==> pid_sampled(s, j as int, (#[trigger] flat@[k]).1.pid),
            forall|k1: int, k2: int|
                0 <= k1 < k2 < flat@.len() ==> (#[trigger] flat@[k1]).1.pid != (
                #[trigger] flat@[k2]).1.pid,
    {
        let smp = samples[j];
        match smp.ctx {
            None => {
                proof {
                    assert(j * TASK_LOAD_BOUND <= (j + 1) * TASK_LOAD_BOUND) by (nonlinear_arith)
                        requires j >= 0;
                    assert forall|k: int| 0 <= k < flat@.len() implies indexed_record(
                        cfg,
                        s,
                        j + 1,
                        (#[trigger] flat@[k]).0,
                        flat@[k].1,
                    ) by {
                        lemma_indexed_widen(cfg, s, j as int, j + 1, flat@[k].0, flat@[k].1);
                    }
                    assert forall|k: int| 0 <= k < tl.entries@.len() implies pid_sampled(
                        s,
                        j + 1,
                        (#[trigger] tl.entries@[k]).pid,
                    ) by {
                        lemma_pid_sampled_widen(s, j as int, j + 1, tl.entries@[k].pid);
                    }
                    assert forall|k: int| 0 <= k < flat@.len() implies pid_sampled(
                        s,
                        j + 1,
                        (#[trigger] flat@[k]).1.pid,
                    ) by {
                        lemma_pid_sampled_widen(s, j as int, j + 1, flat@[k].1.pid);
                    }
                }
            },
            Some(c) => {
                let prev_rec = prev.get(smp.pid);
                proof {
                    if spec_lookup(prev.entries@, smp.pid) is Some {
                        lemma_lookup_in(prev.entries@, smp.pid);
                    }
                }
                let ld = task_load(
                    prev_rec,
                    c.runnable_for,
                    c.runnable_at,
                    c.weight,
                    now,
                    period,
                    decay,
                );
                assert(ld == s_load(cfg, s[j as int]));
                // the new pid is fresh in the rebuilt map
                assert forall|k: int| 0 <= k < tl.entries@.len() implies tl.entries@[k].pid
                    != smp.pid by {
                    let i0 = choose|i0: int|
                        0 <= i0 < j && (#[trigger] s[i0]).ctx is Some && s[i0].pid
                            == tl.entries@[k].pid;
                    assert(s[i0].pid != s[j as int].pid);
                }
                proof {
                    lemma_lookup_none(tl.entries@, smp.pid);
                }
                let ghost old_entries = tl.entries@;
                tl.entries.push(LoadEntry { pid: smp.pid, rec: TaskLoad { runnable_for: c.runnable_for, load: ld } });
                proof {
                    let new_e = LoadEntry { pid: smp.pid, rec: TaskLoad { runnable_for: c.runnable_for, load: ld } };
                    assert(new_e.rec == new_rec(cfg, s[j as int]));
                    lemma_lookup_push(old_entries, new_e, smp.pid);
                    assert forall|i: int|
                        0 <= i < j + 1 && (#[trigger] s[i]).ctx is Some implies spec_lookup(
                        tl.entries@,
                        s[i].pid,
                    ) == Some(new_rec(cfg, s[i])) by {
                        if i < j {
                            lemma_lookup_push(old_entries, new_e, s[i].pid);
                        }
                    }
                    assert forall|k: int| 0 <= k < tl.entries@.len() implies pid_sampled(
                        s,
                        j + 1,
                        (#[trigger] tl.entries@[k]).pid,
                    ) by {
                        if k < old_entries.len() {
                            assert(tl.entries@[k] == old_entries[k]);
                            lemma_pid_sampled_widen(s, j as int, j + 1, old_entries[k].pid);
                        } else {
                            assert(tl.entries@[k] == new_e);
                            assert(0 <= j < j + 1 && s[j as int].ctx is Some && s[j as int].pid
                                == new_e.pid);
                        }
                    }
                }
                // aggregate into the task's domain and the total
                let di = c.dom_id as usize;
                let ghost old_dl = dom_loads@;
                proof {
                    lemma_elem_le_sum(dom_loads@, di as int);
                    assert((MAX_TASKS as int) * (TASK_LOAD_BOUND as int) < u64::MAX);
                    assert(j * TASK_LOAD_BOUND <= (MAX_TASKS - 1) * TASK_LOAD_BOUND) by (nonlinear_arith)
                        requires j <= MAX_TASKS - 1;
                }
                let cur_dl = dom_loads[di];
                dom_loads[di] = cur_dl + ld;
                load_sum = load_sum + ld;
                proof {
                    lemma_sum_update(old_dl, di as int, (cur_dl + ld) as u64);
                    assert forall|d: int| 0 <= d < nr_doms implies (#[trigger] dom_loads@[d])
                        == dom_loads_upto(cfg, s, d as u32, j + 1) by {
                        if d == di {
                            assert(dom_loads@[d] == old_dl[d] + ld);
                        } else {
                            assert(dom_loads@[d] == old_dl[d]);
                        }
                    }
                    assert(j * TASK_LOAD_BOUND + TASK_LOAD_BOUND == (j + 1) * TASK_LOAD_BOUND) by (nonlinear_arith);
                }
                // record migration-eligible tasks
                let ghost old_flat = flat@;
                if c.dom_mask != (1u64 << c.dom_id) {
                    let e = LbEntry { load: ld, pid: smp.pid, dom_mask: c.dom_mask, migrated: false };
                    flat.push((c.dom_id, e));
                    proof {
                        assert(eligible_sample(s[j as int]));
                        assert(e == expected_entry(cfg, s[j as int]));
                        assert(flat@[old_flat.len() as int] == (c.dom_id, e));
                    }
                }
                proof {
                    assert forall|k: int| 0 <= k < flat@.len() implies indexed_record(
                        cfg,
                        s,
                        j + 1,
                        (#[trigger] flat@[k]).0,
                        flat@[k].1,
                    ) by {
                        if k < old_flat.len() {
                            assert(flat@[k] == old_flat[k]);
                            lemma_indexed_widen(cfg, s, j as int, j + 1, flat@[k].0, flat@[k].1);
                        } else {
                            assert(eligible_sample(s[j as int]) && sample_dom(s[j as int])
                                == flat@[k].0 && entry_matches(cfg, s[j as int], flat@[k].1));
                        }
                    }
                    assert forall|i: int|
                        0 <= i < j + 1 && eligible_sample(#[trigger] s[i]) implies flat_has(
                        flat@,
                        sample_dom(s[i]),
                        expected_entry(cfg, s[i]),
                    ) by {
                        if i < j {
                            if flat@.len() > old_flat.len() {
                                lemma_flat_has_push(
                                    old_flat,
                                    flat@[old_flat.len() as int],
                                    sample_dom(s[i]),
                                    expected_entry(cfg, s[i]),
                                );
                                assert(flat@ == old_flat.push(flat@[old_flat.len() as int]));
                            }
                        } else {
                            assert(flat@[flat@.len() - 1] == (
                                sample_dom(s[i]),
                                expected_entry(cfg, s[i]),
                            ));
                        }
                    }
                    assert forall|k: int| 0 <= k < flat@.len() implies pid_sampled(
                        s,
                        j + 1,
                        (#[trigger] flat@[k]).1.pid,
                    ) by {
                        if k < old_flat.len() {
                            assert(flat@[k] == old_flat[k]);
                            lemma_pid_sampled_widen(s, j as int, j + 1, flat@[k].1.pid);
                        } else {
                            assert(flat@[k].1.pid == s[j as int].pid);
                        }
                    }
                    assert forall|k1: int, k2: int| 0 <= k1 < k2 < flat@.len() implies (
                    #[trigger] flat@[k1]).1.pid != (#[trigger] flat@[k2]).1.pid by {
                        if k2 == flat@.len() - 1 && flat@.len() > old_flat.len() {
                            let i0 = choose|i0: int|
                                0 <= i0 < j && (#[trigger] s[i0]).ctx is Some && s[i0].pid
                                    == old_flat[k1].1.pid;
                            assert(s[i0].pid != s[j as int].pid);
                        }
                    }
                }
            },
        }
    }
    (tl, dom_loads, load_sum, flat)
}

/// One estimator pass: reads every sampled task, computes its decayed load,
/// rebuilds the persistent load map (tasks that vanished are dropped),
/// aggregates per-domain loads, and builds the per-domain migration index of
/// tasks not pinned to their current domain.
pub fn read_task_loads(
    samples: &Vec<TaskSample>,
    prev: &TaskLoadMap,
    now: u64,
    period: u64,
    decay: u64,
    nr_doms: usize,
) -> (out: EstimateOut)
    requires
        period >= 1,
        decay <= DECAY_MAX,
        1 <= nr_doms <= MAX_DOMS,
        samples@.len() <= MAX_TASKS,
        forall|j1: int, j2: int|
            0 <= j1 < j2 < samples@.len() ==> (#[trigger] samples@[j1]).pid != (
            #[trigger] samples@[j2]).pid,
        forall|j: int| 0 <= j < samples@.len() ==> sample_dom_ok(#[trigger] samples@[j], nr_doms),
        prev.wf(),
    ensures
        ({
            let cfg = est_cfg(*prev, now, period, decay);
            let s = samples@;
            let n = samples@.len() as int;
            let tbl = out.tasks_by_load@;
            &&& out.task_loads.wf()
            &&& out.task_loads.entries@.len() == count_some_upto(s, n)
            &&& forall|j: int|
                0 <= j < n && (#[trigger] s[j]).ctx is Some ==> spec_lookup(
                    out.task_loads.entries@,
                    s[j].pid,
                ) == Some(new_rec(cfg, s[j]))
            &&& forall|k: int|
                0 <= k < out.task_loads.entries@.len() ==> pid_sampled(
                    s,
                    n,
                    (#[trigger] out.task_loads.entries@[k]).pid,
                )
            &&& out.dom_loads@.len() == nr_doms
            &&& forall|d: int|
                0 <= d < nr_doms ==> (#[trigger] out.dom_loads@[d]) == dom_loads_upto(
                    cfg,
                    s,
                    d as u32,
                    n,
                )
            &&& out.load_sum == loads_upto(cfg, s, n)
            &&& sum_u64(out.dom_loads@) == out.load_sum
            &&& out.load_sum <= n * TASK_LOAD_BOUND
            &&& tbl.len() == nr_doms
            &&& forall|d: int| 0 <= d < nr_doms ==> sorted_entries((#[trigger] tbl[d])@)
            &&& forall|d: int, m: int|
                0 <= d < nr_doms && 0 <= m < tbl[d]@.len() ==> indexed_record(
                    cfg,
                    s,
                    n,
                    d as u32,
                    #[trigger] tbl[d]@[m],
                )
            &&& forall|d: int, m: int|
                0 <= d < nr_doms && 0 <= m < tbl[d]@.len() ==> (#[trigger] tbl[d]@[m]).load
                    <= TASK_LOAD_BOUND && tbl[d]@[m].migrated == false
            &&& forall|j: int|
                0 <= j < n && eligible_sample(#[trigger] s[j]) ==> in_index(
                    tbl[sample_dom(s[j]) as int]@,
                    expected_entry(cfg, s[j]),
                )
            &&& forall|d1: int, m1: int, d2: int, m2: int|
                0 <= d1 < nr_doms && 0 <= m1 < tbl[d1]@.len() && 0 <= d2 < nr_doms && 0 <= m2
                    < tbl[d2]@.len() && (d1 != d2 || m1 != m2) ==> (#[trigger] tbl[d1]@[m1]).pid
                    != (#[trigger] tbl[d2]@[m2]).pid
        }),
{
    let ghost cfg = est_cfg(*prev, now, period, decay);
    let ghost s = samples@;
    let ghost n = samples@.len() as int;
    let (task_loads, dom_loads, load_sum, flat) = scan_samples(
        samples,
        prev,
        now,
        period,
        decay,
        nr_doms,
    );
    let mut tasks_by_load: Vec<Vec<LbEntry>> = Vec::new();
    for d in 0..nr_doms
        invariant
            nr_doms <= MAX_DOMS,
            tasks_by_load@.len() == d,
            forall|k1: int, k2: int|
                0 <= k1 < k2 < flat@.len() ==> (#[trigger] flat@[k1]).1.pid != (
                #[trigger] flat@[k2]).1.pid,
            forall|dd: int|
                0 <= dd < d ==> sorted_entries((#[trigger] tasks_by_load@[dd])@),
            forall|dd: int, m: int|
                0 <= dd < d && 0 <= m < tasks_by_load@[dd]@.len() ==> flat_has(
                    flat@,
                    dd as u32,
                    #[trigger] tasks_by_load@[dd]@[m],
                ),
            forall|dd: int, k: int|
                0 <= dd < d && 0 <= k < flat@.len() && (#[trigger] flat@[k]).0 == dd as u32
                    ==> in_index((#[trigger] tasks_by_load@[dd])@, flat@[k].1),
            forall|dd: int, m1: int, m2: int|
                0 <= dd < d && 0 <= m1 < m2 < tasks_by_load@[dd]@.len() ==> (
                #[trigger] tasks_by_load@[dd]@[m1]).pid != (
                #[trigger] tasks_by_load@[dd]@[m2]).pid,
    {
        let cur = build_dom_index(&flat, d as u32);
        tasks_by_load.push(cur);
    }
    let ghost tbl = tasks_by_load@;
    proof {
        // each index entry is the record of an eligible sample of its domain
        assert forall|d: int, m: int|
            0 <= d < nr_doms && 0 <= m < tbl[d]@.len() implies indexed_record(
            cfg,
            s,
            n,
            d as u32,
            #[trigger] tbl[d]@[m],
        ) && tbl[d]@[m].load <= TASK_LOAD_BOUND && tbl[d]@[m].migrated == false by {
            let k = choose|k: int| 0 <= k < flat@.len() && #[trigger] flat@[k] == (
                d as u32,
                tbl[d]@[m],
            );
            assert(indexed_record(cfg, s, n, flat@[k].0, flat@[k].1));
        }
        // every eligible sample is indexed in its own domain
        assert forall|j: int|
            0 <= j < n && eligible_sample(#[trigger] s[j]) implies in_index(
            tbl[sample_dom(s[j]) as int]@,
            expected_entry(cfg, s[j]),
        ) by {
            let k = choose|k: int|
                0 <= k < flat@.len() && #[trigger] flat@[k] == (
                    sample_dom(s[j]),
                    expected_entry(cfg, s[j]),
                );
            assert(flat@[k].0 < nr_doms);
            assert(in_index(tbl[sample_dom(s[j]) as int]@, flat@[k].1));
        }
        // no PID appears twice anywhere in the index
        assert forall|d1: int, m1: int, d2: int, m2: int|
            0 <= d1 < nr_doms && 0 <= m1 < tbl[d1]@.len() && 0 <= d2 < nr_doms && 0 <= m2
                < tbl[d2]@.len() && (d1 != d2 || m1 != m2) implies (#[trigger] tbl[d1]@[m1]).pid
            != (#[trigger] tbl[d2]@[m2]).pid by {
            if d1 != d2 {
                let k1 = choose|k1: int| 0 <= k1 < flat@.len() && #[trigger] flat@[k1] == (
                    d1 as u32,
                    tbl[d1]@[m1],
                );
                let k2 = choose|k2: int| 0 <= k2 < flat@.len() && #[trigger] flat@[k2] == (
                    d2 as u32,
                    tbl[d2]@[m2],
                );
                assert(k1 != k2);
                if k1 < k2 {
                    assert(flat@[k1].1.pid != flat@[k2].1.pid);
                } else {
                    assert(flat@[k2].1.pid != flat@[k1].1.pid);
                }
            }
        }
    }
    EstimateOut { task_loads, dom_loads, load_sum, tasks_by_load }
}

} // verus!
