//! The migration planner: pops push domains in descending imbalance order,
//! and for each one repeatedly picks the victim task whose load is closest to
//! the ideal transfer amount toward the most imbalanced pull domain, subject
//! to affinity, a per-tick single-migration rule, a minimum-improvement gate
//! and a cap on how much load one domain may shed per tick.

use vstd::prelude::*;
use vstd::math::abs;
use crate::estimator::{sorted_entries, LbEntry};
use crate::{MAX_DOMS, TASK_LOAD_BOUND};

verus! {

/// Magnitude cap on the planner's working imbalances; far below `i128`
/// limits, far above anything a tick can produce.
pub const PLAN_LIMIT: i128 = 0x4000_0000_0000_0000_0000_0000_0000;

/// One entry of the directive table: move `pid` to domain `dom`.
#[derive(Clone, Copy, Debug, PartialEq, Eq, Structural)]
pub struct Directive {
    pub pid: i32,
    pub dom: u32,
}

/// The per-tick directive table. Writes are create-only: a second directive
/// for the same PID is refused and counted, never overwritten.
#[derive(Debug)]
pub struct DirectiveTable {
    pub entries: Vec<Directive>,
}

/// A saturating error count.
pub open spec fn inc_sat(x: u64) -> u64 {
    if x == u64::MAX {
        x
    } else {
        (x + 1) as u64
    }
}

impl DirectiveTable {
    pub open spec fn contains_pid(self, pid: i32) -> bool {
        exists|k: int| 0 <= k < self.entries@.len() && (#[trigger] self.entries@[k]).pid == pid
    }

    /// No PID appears twice.
    pub open spec fn wf(self) -> bool {
        forall|k1: int, k2: int|
            0 <= k1 < k2 < self.entries@.len() ==> (#[trigger] self.entries@[k1]).pid != (
            #[trigger] self.entries@[k2]).pid
    }

    pub fn new() -> (r: Self)
        ensures
            r.entries@.len() == 0,
            r.wf(),
    {
        DirectiveTable { entries: Vec::new() }
    }

    pub fn len(&self) -> (r: usize)
        ensures
            r == self.entries@.len(),
    {
        self.entries.len()
    }

    /// Create-only insert: refuses a PID already present and counts the
    /// refusal in `errors`.
    #[verifier::loop_isolation(false)]
    pub fn insert_counted(&mut self, pid: i32, dom: u32, errors: &mut u64) -> (ok: bool)
        requires
            old(self).wf(),
        ensures
            final(self).wf(),
            ok == !old(self).contains_pid(pid),
            ok ==> final(self).entries@ == old(self).entries@.push(Directive { pid, dom })
                && *final(errors) == *old(errors),
            !ok ==> final(self).entries@ == old(self).entries@ && *final(errors) == inc_sat(
                *old(errors),
            ),
    {
        let n = self.entries.len();
        for k in 0..n
            invariant
                n == self.entries@.len(),
                *errors == *old(errors),
                forall|kk: int| 0 <= kk < k ==> (#[trigger] self.entries@[kk]).pid != pid,
        {
            if self.entries[k].pid == pid {
                if *errors < u64::MAX {
                    *errors = *errors + 1;
                }
                return false;
            }
        }
        self.entries.push(Directive { pid, dom });
        true
    }
}

/// After a transfer of `xfer`, the residual two-party imbalance.
pub open spec fn new_imbal(to_push: int, to_pull: int, xfer: int) -> int {
    abs(to_push - xfer) as int + abs(to_pull - xfer) as int
}

/// The minimum-improvement gate: the residual imbalance must fall below nine
/// tenths of the old one.
pub open spec fn gate_ok(to_push: int, to_pull: int, xfer: int) -> bool {
    10 * new_imbal(to_push, to_pull, xfer) < 9 * (to_push + to_pull)
}

/// A candidate victim: not yet migrated this tick, and allowed to run in the
/// pull domain.
pub open spec fn cand_ok(e: LbEntry, pull_dom: u32) -> bool {
    !e.migrated && e.dom_mask & (1u64 << pull_dom) != 0
}

/// First candidate at or below `x`, scanning downward from index `i`.
pub open spec fn down_cand(s: Seq<LbEntry>, x: int, pull_dom: u32, i: int) -> Option<int>
    decreases i + 1,
{
    if i < 0 || i >= s.len() {
        None
    } else if s[i].load <= x && cand_ok(s[i], pull_dom) {
        Some(i)
    } else {
        down_cand(s, x, pull_dom, i - 1)
    }
}

/// First candidate at or above `x`, scanning upward from index `i`.
pub open spec fn up_cand(s: Seq<LbEntry>, x: int, pull_dom: u32, i: int) -> Option<int>
    decreases s.len() - i,
{
    if i < 0 || i >= s.len() {
        None
    } else if s[i].load >= x && cand_ok(s[i], pull_dom) {
        Some(i)
    } else {
        up_cand(s, x, pull_dom, i + 1)
    }
}

/// The victim the planner picks for one (push, pull) pair: of the nearest
/// candidates below and above the ideal transfer `min(to_push, to_pull)`, the
/// one with the smaller residual imbalance (ties toward the lower one),
/// rejected if it fails the improvement gate.
pub open spec fn spec_pick_victim(s: Seq<LbEntry>, to_push: int, to_pull: int, pull_dom: u32) -> Option<int> {
    let x = vstd::math::min(to_push, to_pull);
    let best = match (down_cand(s, x, pull_dom, s.len() - 1), up_cand(s, x, pull_dom, 0)) {
        (None, None) => None::<int>,
        (Some(i), None) => Some(i),
        (None, Some(j)) => Some(j),
        (Some(i), Some(j)) => if new_imbal(to_push, to_pull, s[i].load as int) <= new_imbal(
            to_push,
            to_pull,
            s[j].load as int,
        ) {
            Some(i)
        } else {
            Some(j)
        },
    };
    match best {
        None => None,
        Some(i) => if gate_ok(to_push, to_pull, s[i].load as int) {
            Some(i)
        } else {
            None
        },
    }
}

pub proof fn lemma_down_cand_props(s: Seq<LbEntry>, x: int, pull_dom: u32, i: int)
    requires
        down_cand(s, x, pull_dom, i) is Some,
    ensures
        ({
            let j = down_cand(s, x, pull_dom, i)->Some_0;
            0 <= j < s.len() && j <= i && s[j].load <= x && cand_ok(s[j], pull_dom)
        }),
    decreases i + 1,
{
    if !(i < 0 || i >= s.len()) && !(s[i].load <= x && cand_ok(s[i], pull_dom)) {
        lemma_down_cand_props(s, x, pull_dom, i - 1);
    }
}

pub proof fn lemma_up_cand_props(s: Seq<LbEntry>, x: int, pull_dom: u32, i: int)
    requires
        up_cand(s, x, pull_dom, i) is Some,
    ensures
        ({
            let j = up_cand(s, x, pull_dom, i)->Some_0;
            0 <= j < s.len() && j >= i && s[j].load >= x && cand_ok(s[j], pull_dom)
        }),
    decreases s.len() - i,
{
    if !(i < 0 || i >= s.len()) && !(s[i].load >= x && cand_ok(s[i], pull_dom)) {
        lemma_up_cand_props(s, x, pull_dom, i + 1);
    }
}

/// A picked victim is a real candidate and meets the improvement bound.
pub proof fn lemma_pick_victim_props(s: Seq<LbEntry>, to_push: int, to_pull: int, pull_dom: u32)
    requires
        spec_pick_victim(s, to_push, to_pull, pull_dom) is Some,
    ensures
        ({
            let i = spec_pick_victim(s, to_push, to_pull, pull_dom)->Some_0;
            0 <= i < s.len() && cand_ok(s[i], pull_dom) && gate_ok(
                to_push,
                to_pull,
                s[i].load as int,
            )
        }),
{
    let x = vstd::math::min(to_push, to_pull);
    if down_cand(s, x, pull_dom, s.len() - 1) is Some {
        lemma_down_cand_props(s, x, pull_dom, s.len() - 1);
    }
    if up_cand(s, x, pull_dom, 0) is Some {
        lemma_up_cand_props(s, x, pull_dom, 0);
    }
}

/// Residual imbalance after a transfer, in machine arithmetic.
fn imbal_after(to_push: i128, to_pull: i128, xfer: u64) -> (r: i128)
    requires
        -PLAN_LIMIT <= to_push <= PLAN_LIMIT,
        -PLAN_LIMIT <= to_pull <= PLAN_LIMIT,
        xfer <= TASK_LOAD_BOUND,
    ensures
        r == new_imbal(to_push as int, to_pull as int, xfer as int),
{
    let x = xfer as i128;
    let a = if to_push >= x {
        to_push - x
    } else {
        x - to_push
    };
    let b = if to_pull >= x {
        to_pull - x
    } else {
        x - to_pull
    };
    a + b
}

/// Scans the sorted index of one push domain for the victim whose load is
/// closest to `min(to_push, to_pull)` among tasks that may run in the pull
/// domain and have not migrated this tick; refuses the pick unless it passes
/// the minimum-improvement gate.
pub fn pick_victim(
    entries: &Vec<LbEntry>,
    to_push: i128,
    to_pull: i128,
    pull_dom: u32,
) -> (r: Option<usize>)
    requires
        pull_dom < MAX_DOMS,
        -PLAN_LIMIT <= to_push <= PLAN_LIMIT,
        -PLAN_LIMIT <= to_pull <= PLAN_LIMIT,
        forall|m: int| 0 <= m < entries@.len() ==> (#[trigger] entries@[m]).load <= TASK_LOAD_BOUND,
    ensures
        r matches Some(i) ==> i < entries@.len() && spec_pick_victim(
            entries@,
            to_push as int,
            to_pull as int,
            pull_dom,
        ) == Some(i as int),
        r is None ==> spec_pick_victim(entries@, to_push as int, to_pull as int, pull_dom) is None,
{
    let ghost s = entries@;
    let ghost x_spec = vstd::math::min(to_push as int, to_pull as int);
    let x: i128 = if to_push <= to_pull {
        to_push
    } else {
        to_pull
    };
    let n = entries.len();

    // scan downward for the largest-load candidate at or below x
    let mut down: Option<usize> = None;
    let mut i = n;
    loop
        invariant_except_break
            s == entries@,
            pull_dom < 64,
            n == s.len(),
            i <= n,
            x == x_spec,
            down is None,
            down_cand(s, x_spec, pull_dom, n as int - 1) == down_cand(
                s,
                x_spec,
                pull_dom,
                i as int - 1,
            ),
        ensures
            match down {
                Some(di) => di < n && down_cand(s, x_spec, pull_dom, n as int - 1) == Some(
                    di as int,
                ),
                None => down_cand(s, x_spec, pull_dom, n as int - 1) is None,
            },
        decreases i,
    {
        if i == 0 {
            break;
        }
        i = i - 1;
        let e = entries[i];
        if (e.load as i128) <= x && !e.migrated && e.dom_mask & (1u64 << pull_dom) != 0 {
            proof {
                assert(cand_ok(s[i as int], pull_dom));
                assert(down_cand(s, x_spec, pull_dom, i as int) == Some(i as int));
            }
            down = Some(i);
            break;
        }
    }

    // scan upward for the smallest-load candidate at or above x
    let mut up: Option<usize> = None;
    let mut j: usize = 0;
    loop
        invariant_except_break
            s == entries@,
            pull_dom < 64,
            n == s.len(),
            j <= n,
            x == x_spec,
            up is None,
            up_cand(s, x_spec, pull_dom, 0) == up_cand(s, x_spec, pull_dom, j as int),
        ensures
            match up {
                Some(ui) => ui < n && up_cand(s, x_spec, pull_dom, 0) == Some(ui as int),
                None => up_cand(s, x_spec, pull_dom, 0) is None,
            },
        decreases n - j,
    {
        if j == n {
            break;
        }
        let e = entries[j];
        if (e.load as i128) >= x && !e.migrated && e.dom_mask & (1u64 << pull_dom) != 0 {
            proof {
                assert(cand_ok(s[j as int], pull_dom));
                assert(up_cand(s, x_spec, pull_dom, j as int) == Some(j as int));
            }
            up = Some(j);
            break;
        }
        j = j + 1;
    }

    let best: Option<usize> = match (down, up) {
        (None, None) => None,
        (Some(i0), None) => Some(i0),
        (None, Some(j0)) => Some(j0),
        (Some(i0), Some(j0)) => {
            if imbal_after(to_push, to_pull, entries[i0].load) <= imbal_after(
                to_push,
                to_pull,
                entries[j0].load,
            ) {
                Some(i0)
            } else {
                Some(j0)
            }
        },
    };
    match best {
        None => None,
        Some(b) => {
            let load = entries[b].load;
            let old_imbal = to_push + to_pull;
            let ni = imbal_after(to_push, to_pull, load);
            if 10 * ni < 9 * old_imbal {
                Some(b)
            } else {
                None
            }
        },
    }
}

/// The cap on how much load one domain may shed in a tick: half its load.
pub open spec fn push_cap(dom_load: u64) -> int {
    (dom_load * 50) / 100
}

/// The ghost record of one accepted migration: who moved where, and the
/// working imbalances at the moment of acceptance.
pub ghost struct Migration {
    pub pid: i32,
    pub from: u32,
    pub to: u32,
    pub load: u64,
    pub to_push: int,
    pub to_pull: int,
    pub pushed_before: int,
}

/// Load migrated out of domain `d` among the first `k` migrations.
pub open spec fn sum_out(migs: Seq<Migration>, k: int, d: u32) -> int
    decreases k,
{
    if k <= 0 {
        0
    } else {
        sum_out(migs, k - 1, d) + if migs[k - 1].from == d {
            migs[k - 1].load as int
        } else {
            0
        }
    }
}

/// Load migrated into domain `d` among the first `k` migrations.
pub open spec fn sum_in(migs: Seq<Migration>, k: int, d: u32) -> int
    decreases k,
{
    if k <= 0 {
        0
    } else {
        sum_in(migs, k - 1, d) + if migs[k - 1].to == d {
            migs[k - 1].load as int
        } else {
            0
        }
    }
}

pub proof fn lemma_sums_push(migs: Seq<Migration>, m: Migration, k: int, d: u32)
    requires
        0 <= k <= migs.len(),
    ensures
        sum_out(migs.push(m), k, d) == sum_out(migs, k, d),
        sum_in(migs.push(m), k, d) == sum_in(migs, k, d),
    decreases k,
{
    if k > 0 {
        lemma_sums_push(migs, m, k - 1, d);
        assert(migs.push(m)[k - 1] == migs[k - 1]);
    }
}

/// Whether a `(value, dom)` working set names domain `d`.
pub open spec fn dom_in_set(set: Seq<(u64, u32)>, d: u32) -> bool {
    exists|i: int| 0 <= i < set.len() && (#[trigger] set[i]).1 == d
}

/// The value the working set pairs with domain `d`.
pub open spec fn set_val(set: Seq<(u64, u32)>, d: u32) -> int {
    set[choose|i: int| 0 <= i < set.len() && (#[trigger] set[i]).1 == d].0 as int
}

/// In a set with distinct domains, the value at a position is the domain's
/// value.
pub proof fn lemma_set_val_at(set: Seq<(u64, u32)>, i: int)
    requires
        0 <= i < set.len(),
        forall|i1: int, i2: int|
            0 <= i1 < i2 < set.len() ==> (#[trigger] set[i1]).1 != (#[trigger] set[i2]).1,
    ensures
        dom_in_set(set, set[i].1),
        set_val(set, set[i].1) == set[i].0,
{
    assert(dom_in_set(set, set[i].1));
    let i0 = choose|i0: int| 0 <= i0 < set.len() && (#[trigger] set[i0]).1 == set[i].1;
    if i0 < i {
        assert(set[i0].1 != set[i].1);
    } else if i < i0 {
        assert(set[i].1 != set[i0].1);
    }
}

/// Unmigrated entries of one index.
pub open spec fn count_unmig(s: Seq<LbEntry>) -> int
    decreases s.len(),
{
    if s.len() == 0 {
        0
    } else {
        count_unmig(s.drop_last()) + if s.last().migrated {
            0int
        } else {
            1int
        }
    }
}

pub proof fn lemma_count_unmig_nonneg(s: Seq<LbEntry>)
    ensures
        count_unmig(s) >= 0,
    decreases s.len(),
{
    if s.len() > 0 {
        lemma_count_unmig_nonneg(s.drop_last());
    }
}

pub proof fn lemma_count_unmig_update(s: Seq<LbEntry>, i: int, e: LbEntry)
    requires
        0 <= i < s.len(),
        s[i].migrated == false,
        e.migrated == true,
    ensures
        count_unmig(s.update(i, e)) == count_unmig(s) - 1,
    decreases s.len(),
{
    if i == s.len() - 1 {
        assert(s.update(i, e).drop_last() =~= s.drop_last());
    } else {
        lemma_count_unmig_update(s.drop_last(), i, e);
        assert(s.update(i, e).drop_last() =~= s.drop_last().update(i, e));
        assert(s.update(i, e).last() == s.last());
    }
}

/// Whether a migration record points at a real entry of the input index with
/// matching PID and load, whose affinity mask admits the target domain and
/// which had not been migrated.
pub open spec fn mig_matches(tbl0: Seq<Vec<LbEntry>>, m: Migration) -> bool {
    &&& 0 <= (m.from as int) < tbl0.len()
    &&& exists|i: int|
        0 <= i < tbl0[m.from as int]@.len() && (#[trigger] tbl0[m.from as int]@[i]).pid == m.pid
            && tbl0[m.from as int]@[i].load == m.load && tbl0[m.from as int]@[i].dom_mask & (
        1u64 << m.to) != 0 && tbl0[m.from as int]@[i].migrated == false
}

/// Every clause the planner promises of migration `k` in the log: its source
/// and target are working-set domains, it names a real, affinity-compatible,
/// previously unmigrated task of the source index, the recorded working
/// imbalances follow exactly from the initial sets and the earlier
/// migrations, the improvement gate held, and the source had not yet reached
/// its push cap.
pub open spec fn mig_numeric_ok(
    migs: Seq<Migration>,
    k: int,
    push0: Seq<(u64, u32)>,
    pull0: Seq<(u64, u32)>,
    dom_loads: Seq<u64>,
) -> bool {
    let m = migs[k];
    &&& dom_in_set(push0, m.from)
    &&& dom_in_set(pull0, m.to)
    &&& (m.from as int) < dom_loads.len()
    &&& (m.to as int) < dom_loads.len()
    &&& m.load <= TASK_LOAD_BOUND
    &&& m.to_push == set_val(push0, m.from) - sum_out(migs, k, m.from)
    &&& m.to_pull == set_val(pull0, m.to) - sum_in(migs, k, m.to)
    &&& m.pushed_before == sum_out(migs, k, m.from)
    &&& gate_ok(m.to_push, m.to_pull, m.load as int)
    &&& (m.pushed_before == 0 || m.pushed_before < push_cap(dom_loads[m.from as int]))
}

pub open spec fn mig_ok_at(
    migs: Seq<Migration>,
    k: int,
    tbl0: Seq<Vec<LbEntry>>,
    push0: Seq<(u64, u32)>,
    pull0: Seq<(u64, u32)>,
    dom_loads: Seq<u64>,
) -> bool {
    &&& mig_numeric_ok(migs, k, push0, pull0, dom_loads)
    &&& mig_matches(tbl0, migs[k])
}

pub open spec fn migs_ok(
    migs: Seq<Migration>,
    tbl0: Seq<Vec<LbEntry>>,
    push0: Seq<(u64, u32)>,
    pull0: Seq<(u64, u32)>,
    dom_loads: Seq<u64>,
) -> bool {
    forall|k: int| 0 <= k < migs.len() ==> mig_ok_at(migs, k, tbl0, push0, pull0, dom_loads)
}

/// Whether the log migrates a task with this PID out of domain `pd`.
pub open spec fn migrated_by(migs: Seq<Migration>, pd: u32, pid: i32) -> bool {
    exists|k: int| 0 <= k < migs.len() && (#[trigger] migs[k]).from == pd && migs[k].pid == pid
}

/// The migration index row of domain `pd` after the log's migrations out of
/// it: the input row with exactly the migrated tasks marked.
pub open spec fn marked_row(row: Seq<LbEntry>, migs: Seq<Migration>, pd: u32) -> Seq<LbEntry> {
    Seq::new(
        row.len(),
        |i: int|
            LbEntry {
                load: row[i].load,
                pid: row[i].pid,
                dom_mask: row[i].dom_mask,
                migrated: row[i].migrated || migrated_by(migs, pd, row[i].pid),
            },
    )
}

/// In the working state the log's first `l` migrations produce — domain
/// `pd`'s row with its victims marked, and every working imbalance at its
/// initial value minus the transfers so far — no pull domain admits any
/// further victim for `pd`.
pub open spec fn no_more_picks(
    migs: Seq<Migration>,
    l: int,
    tbl0: Seq<Vec<LbEntry>>,
    push0: Seq<(u64, u32)>,
    pull0: Seq<(u64, u32)>,
    pd: u32,
) -> bool {
    forall|j: int|
        0 <= j < pull0.len() ==> spec_pick_victim(
            marked_row(tbl0[pd as int]@, migs, pd),
            set_val(push0, pd) - sum_out(migs, l, pd),
            (#[trigger] pull0[j]).0 - sum_in(migs, l, pull0[j].1),
            pull0[j].1,
        ) is None
}

/// The planner's progress guarantee for one push domain: it shed at least
/// its cap, or it stopped at a moment — `l` migrations into the log, all of
/// its own already made — at which no victim pick could succeed any more.
pub open spec fn dom_saturated(
    migs: Seq<Migration>,
    tbl0: Seq<Vec<LbEntry>>,
    push0: Seq<(u64, u32)>,
    pull0: Seq<(u64, u32)>,
    dom_loads: Seq<u64>,
    pd: u32,
) -> bool {
    ||| sum_out(migs, migs.len() as int, pd) >= push_cap(dom_loads[pd as int])
    ||| exists|l: int|
        0 <= l <= migs.len() && #[trigger] sum_out(migs, l, pd) == sum_out(
            migs,
            migs.len() as int,
            pd,
        ) && no_more_picks(migs, l, tbl0, push0, pull0, pd)
}

/// Equal prefixes have equal prefix sums.
proof fn lemma_sums_prefix(a: Seq<Migration>, b: Seq<Migration>, l: int, d: u32)
    requires
        0 <= l <= a.len(),
        l <= b.len(),
        forall|k: int| 0 <= k < l ==> a[k] == b[k],
    ensures
        sum_out(a, l, d) == sum_out(b, l, d),
        sum_in(a, l, d) == sum_in(b, l, d),
    decreases l,
{
    if l > 0 {
        lemma_sums_prefix(a, b, l - 1, d);
    }
}

/// A sum out of `d` is frozen once the log's tail holds no migration from `d`.
proof fn lemma_sum_out_frozen(migs: Seq<Migration>, l: int, k: int, d: u32)
    requires
        0 <= l <= k <= migs.len(),
        forall|kk: int| l <= kk < migs.len() ==> (#[trigger] migs[kk]).from != d,
    ensures
        sum_out(migs, k, d) == sum_out(migs, l, d),
    decreases k - l,
{
    if k > l {
        lemma_sum_out_frozen(migs, l, k - 1, d);
    }
}

/// A saturated push domain stays saturated while a different domain extends
/// the log: its row, its frozen sum, and the recorded stopping state are all
/// untouched by migrations out of another domain.
proof fn lemma_dom_saturated_ext(
    migs1: Seq<Migration>,
    migs2: Seq<Migration>,
    tbl0: Seq<Vec<LbEntry>>,
    push0: Seq<(u64, u32)>,
    pull0: Seq<(u64, u32)>,
    dom_loads: Seq<u64>,
    pd_done: u32,
    pd_new: u32,
)
    requires
        migs1.len() <= migs2.len(),
        migs2.subrange(0, migs1.len() as int) == migs1,
        forall|k: int|
            migs1.len() <= k < migs2.len() ==> (#[trigger] migs2[k]).from == pd_new,
        pd_done != pd_new,
        0 <= (pd_done as int) < tbl0.len(),
        dom_saturated(migs1, tbl0, push0, pull0, dom_loads, pd_done),
    ensures
        dom_saturated(migs2, tbl0, push0, pull0, dom_loads, pd_done),
{
    let l1 = migs1.len() as int;
    let l2 = migs2.len() as int;
    assert forall|k: int| 0 <= k < l1 implies migs2[k] == migs1[k] by {
        assert(migs2.subrange(0, l1)[k] == migs2[k]);
    }
    lemma_sum_out_frozen(migs2, l1, l2, pd_done);
    lemma_sums_prefix(migs1, migs2, l1, pd_done);
    if sum_out(migs1, l1, pd_done) >= push_cap(dom_loads[pd_done as int]) {
        assert(sum_out(migs2, l2, pd_done) >= push_cap(dom_loads[pd_done as int]));
    } else {
        let l = choose|l: int|
            0 <= l <= migs1.len() && #[trigger] sum_out(migs1, l, pd_done) == sum_out(
                migs1,
                migs1.len() as int,
                pd_done,
            ) && no_more_picks(migs1, l, tbl0, push0, pull0, pd_done);
        lemma_sums_prefix(migs1, migs2, l, pd_done);
        // the row of pd_done is unchanged: no new migration leaves it
        assert(marked_row(tbl0[pd_done as int]@, migs2, pd_done) =~= marked_row(
            tbl0[pd_done as int]@,
            migs1,
            pd_done,
        )) by {
            let row = tbl0[pd_done as int]@;
            assert forall|i: int|
                0 <= i < row.len() implies (migrated_by(migs2, pd_done, row[i].pid)
                <==> migrated_by(migs1, pd_done, row[i].pid)) by {
                if migrated_by(migs2, pd_done, row[i].pid) {
                    let k = choose|k: int|
                        0 <= k < migs2.len() && (#[trigger] migs2[k]).from == pd_done
                            && migs2[k].pid == row[i].pid;
                    assert(k < l1);
                    assert(migs1[k].from == pd_done && migs1[k].pid == row[i].pid);
                }
                if migrated_by(migs1, pd_done, row[i].pid) {
                    let k = choose|k: int|
                        0 <= k < migs1.len() && (#[trigger] migs1[k]).from == pd_done
                            && migs1[k].pid == row[i].pid;
                    assert(migs2[k].from == pd_done && migs2[k].pid == row[i].pid);
                }
            }
        }
        assert forall|j: int| 0 <= j < pull0.len() implies spec_pick_victim(
            marked_row(tbl0[pd_done as int]@, migs2, pd_done),
            set_val(push0, pd_done) - sum_out(migs2, l, pd_done),
            (#[trigger] pull0[j]).0 - sum_in(migs2, l, pull0[j].1),
            pull0[j].1,
        ) is None by {
            lemma_sums_prefix(migs1, migs2, l, pull0[j].1);
        }
        assert(0 <= l <= migs2.len() && sum_out(migs2, l, pd_done) == sum_out(
            migs2,
            migs2.len() as int,
            pd_done,
        ) && no_more_picks(migs2, l, tbl0, push0, pull0, pd_done));
    }
}

/// Finds one victim for the push domain: tries pull domains from the most
/// imbalanced down, and returns the first pull position and victim index the
/// improvement bound admits.
fn select_victim(
    tbl_row: &Vec<LbEntry>,
    pull_set: &Vec<(i128, u32)>,
    to_push: i128,
    nr_doms: usize,
) -> (sel: Option<(usize, usize)>)
    requires
        nr_doms <= MAX_DOMS,
        -PLAN_LIMIT <= to_push <= PLAN_LIMIT,
        forall|m: int| 0 <= m < tbl_row@.len() ==> (#[trigger] tbl_row@[m]).load <= TASK_LOAD_BOUND,
        forall|i: int|
            0 <= i < pull_set@.len() ==> (#[trigger] pull_set@[i]).1 < nr_doms && -PLAN_LIMIT
                <= pull_set@[i].0 <= PLAN_LIMIT,
    ensures
        sel matches Some((ci, vi)) ==> ci < pull_set@.len() && vi < tbl_row@.len()
            && spec_pick_victim(
            tbl_row@,
            to_push as int,
            pull_set@[ci as int].0 as int,
            pull_set@[ci as int].1,
        ) == Some(vi as int),
        sel is None ==> forall|j: int|
            0 <= j < pull_set@.len() ==> spec_pick_victim(
                tbl_row@,
                to_push as int,
                (#[trigger] pull_set@[j]).0 as int,
                pull_set@[j].1,
            ) is None,
{
    let mut cands: Vec<usize> = Vec::new();
    let np = pull_set.len();
    for ci in 0..np
        invariant
            np == pull_set@.len(),
            cands@.len() == ci,
            forall|i: int| 0 <= i < cands@.len() ==> (#[trigger] cands@[i]) == i,
    {
        cands.push(ci);
    }
    proof {
        assert forall|j: int| 0 <= j < np implies still_candidate(cands@, j) by {
            assert(cands@[j] == j);
        }
    }
    loop
        invariant_except_break
            np == pull_set@.len(),
            nr_doms <= MAX_DOMS,
            -PLAN_LIMIT <= to_push <= PLAN_LIMIT,
            forall|m: int|
                0 <= m < tbl_row@.len() ==> (#[trigger] tbl_row@[m]).load <= TASK_LOAD_BOUND,
            forall|i: int|
                0 <= i < pull_set@.len() ==> (#[trigger] pull_set@[i]).1 < nr_doms && -PLAN_LIMIT
                    <= pull_set@[i].0 <= PLAN_LIMIT,
            forall|i: int| 0 <= i < cands@.len() ==> (#[trigger] cands@[i]) < np,
            forall|j: int|
                0 <= j < np ==> still_candidate(cands@, j) || spec_pick_victim(
                    tbl_row@,
                    to_push as int,
                    (#[trigger] pull_set@[j]).0 as int,
                    pull_set@[j].1,
                ) is None,
        ensures
            true,
        decreases cands@.len(),
    {
        if cands.len() == 0 {
            proof {
                assert forall|j: int| 0 <= j < np implies spec_pick_victim(
                    tbl_row@,
                    to_push as int,
                    (#[trigger] pull_set@[j]).0 as int,
                    pull_set@[j].1,
                ) is None by {
                    assert(!still_candidate(cands@, j));
                }
            }
            return None;
        }
        // most imbalanced pull domain first; equal magnitudes keep the
        // earliest position
        let mut bi: usize = 0;
        let nc = cands.len();
        for i in 1..nc
            invariant
                nc == cands@.len(),
                nc >= 1,
                np == pull_set@.len(),
                bi < nc,
                forall|ii: int| 0 <= ii < cands@.len() ==> (#[trigger] cands@[ii]) < np,
        {
            if pull_set[cands[i]].0 > pull_set[cands[bi]].0 {
                bi = i;
            }
        }
        let ci = cands[bi];
        let (tlv, pdom) = pull_set[ci];
        match pick_victim(tbl_row, to_push, tlv, pdom) {
            Some(vi) => {
                return Some((ci, vi));
            },
            None => {
                let ghost old_cands = cands@;
                cands.remove(bi);
                proof {
                    old_cands.remove_ensures(bi as int);
                    assert forall|j: int|
                        0 <= j < np implies still_candidate(cands@, j) || spec_pick_victim(
                        tbl_row@,
                        to_push as int,
                        (#[trigger] pull_set@[j]).0 as int,
                        pull_set@[j].1,
                    ) is None by {
                        if j != ci && still_candidate(old_cands, j) {
                            let m0 = choose|m0: int|
                                0 <= m0 < old_cands.len() && (#[trigger] old_cands[m0]) as int
                                    == j;
                            if m0 < bi {
                                assert(cands@[m0] == old_cands[m0]);
                            } else {
                                assert(cands@[m0 - 1] == old_cands[m0]);
                            }
                        }
                    }
                }
            },
        }
    }
}

/// Whether position `j` of the pull set is still an untried candidate.
pub open spec fn still_candidate(cands: Seq<usize>, j: int) -> bool {
    exists|m: int| 0 <= m < cands.len() && (#[trigger] cands[m]) as int == j
}

/// Working imbalances can drift slightly negative past zero; they never pass
/// this floor.
pub const PLAN_VAL_FLOOR: i128 = 0x4_0000_0000_0000_0000;

/// Everything the planner keeps true between migrations.
pub open spec fn plan_inv(
    tbl: Seq<Vec<LbEntry>>,
    tbl0: Seq<Vec<LbEntry>>,
    table: DirectiveTable,
    migs: Seq<Migration>,
    push0: Seq<(u64, u32)>,
    pull0: Seq<(u64, u32)>,
    pull_set: Seq<(i128, u32)>,
    dom_loads: Seq<u64>,
) -> bool {
    &&& tbl.len() == tbl0.len()
    &&& forall|d: int| 0 <= d < tbl.len() ==> (#[trigger] tbl[d])@.len() == tbl0[d]@.len()
    &&& forall|d: int, m: int|
        0 <= d < tbl.len() && 0 <= m < tbl[d]@.len() ==> (#[trigger] tbl[d]@[m]).pid
            == tbl0[d]@[m].pid && tbl[d]@[m].load == tbl0[d]@[m].load && tbl[d]@[m].dom_mask
            == tbl0[d]@[m].dom_mask
    &&& table.wf()
    &&& table.entries@.len() == migs.len()
    &&& forall|k: int|
        0 <= k < migs.len() ==> (#[trigger] table.entries@[k]).pid == migs[k].pid
            && table.entries@[k].dom == migs[k].to
    &&& forall|d: int, m: int|
        0 <= d < tbl.len() && 0 <= m < tbl[d]@.len() ==> ((#[trigger] tbl[d]@[m]).migrated
            <==> migrated_by(migs, d as u32, tbl[d]@[m].pid))
    &&& migs_ok(migs, tbl0, push0, pull0, dom_loads)
    &&& pull_set.len() == pull0.len()
    &&& forall|i: int|
        0 <= i < pull_set.len() ==> (#[trigger] pull_set[i]).1 == pull0[i].1 && pull_set[i].0
            == pull0[i].0 - sum_in(migs, migs.len() as int, pull0[i].1) && -PLAN_VAL_FLOOR
            <= pull_set[i].0 <= u64::MAX
}

/// The static facts about the planner's inputs.
pub open spec fn plan_input_ok(
    tbl0: Seq<Vec<LbEntry>>,
    push0: Seq<(u64, u32)>,
    pull0: Seq<(u64, u32)>,
    dom_loads: Seq<u64>,
) -> bool {
    &&& 1 <= dom_loads.len() <= MAX_DOMS
    &&& tbl0.len() == dom_loads.len()
    &&& forall|d: int| 0 <= d < tbl0.len() ==> sorted_entries((#[trigger] tbl0[d])@)
    &&& forall|d: int, m: int|
        0 <= d < tbl0.len() && 0 <= m < tbl0[d]@.len() ==> (#[trigger] tbl0[d]@[m]).load
            <= TASK_LOAD_BOUND && tbl0[d]@[m].migrated == false
    &&& forall|d1: int, m1: int, d2: int, m2: int|
        0 <= d1 < tbl0.len() && 0 <= m1 < tbl0[d1]@.len() && 0 <= d2 < tbl0.len() && 0 <= m2
            < tbl0[d2]@.len() && (d1 != d2 || m1 != m2) ==> (#[trigger] tbl0[d1]@[m1]).pid != (
        #[trigger] tbl0[d2]@[m2]).pid
    &&& forall|i: int| 0 <= i < push0.len() ==> (#[trigger] push0[i]).1 < dom_loads.len()
    &&& forall|i1: int, i2: int|
        0 <= i1 < i2 < push0.len() ==> (#[trigger] push0[i1]).1 < (#[trigger] push0[i2]).1
    &&& forall|i: int| 0 <= i < pull0.len() ==> (#[trigger] pull0[i]).1 < dom_loads.len()
    &&& forall|i1: int, i2: int|
        0 <= i1 < i2 < pull0.len() ==> (#[trigger] pull0[i1]).1 < (#[trigger] pull0[i2]).1
}

proof fn lemma_sum_out_zero_upto(migs: Seq<Migration>, l0: int, k: int, d: u32, pd: u32)
    requires
        0 <= l0 <= k <= migs.len(),
        sum_out(migs, l0, d) == 0,
        forall|kk: int| l0 <= kk < migs.len() ==> (#[trigger] migs[kk]).from == pd,
        d != pd,
    ensures
        sum_out(migs, k, d) == 0,
    decreases k - l0,
{
    if k > l0 {
        lemma_sum_out_zero_upto(migs, l0, k - 1, d, pd);
    }
}


proof fn lemma_sum_out_prefix(migs: Seq<Migration>, k: int, d: u32)
    requires
        0 <= k <= migs.len(),
    ensures
        sum_out(migs, k, d) == sum_out(migs.subrange(0, k), k, d),
    decreases k,
{
    if k > 0 {
        lemma_sum_out_prefix(migs, k - 1, d);
        assert(migs.subrange(0, k - 1) =~= migs.subrange(0, k).subrange(0, k - 1));
        lemma_sum_out_prefix(migs.subrange(0, k), k - 1, d);
        assert(migs.subrange(0, k)[k - 1] == migs[k - 1]);
    }
}

/// Balances one push domain: repeats victim picks until nothing improves or
/// the push cap is reached.
#[verifier::rlimit(100)]
fn balance_push_dom(
    tbl: &mut Vec<Vec<LbEntry>>,
    pull_set: &mut Vec<(i128, u32)>,
    table: &mut DirectiveTable,
    errors: &mut u64,
    migs_in: Ghost<Seq<Migration>>,
    tbl0: Ghost<Seq<Vec<LbEntry>>>,
    push0: Ghost<Seq<(u64, u32)>>,
    pull0: Ghost<Seq<(u64, u32)>>,
    dls: Ghost<Seq<u64>>,
    tp0: u64,
    pd: u32,
    push_max: u64,
) -> (migs_out: Ghost<Seq<Migration>>)
    requires
        plan_input_ok(tbl0@, push0@, pull0@, dls@),
        plan_inv(
            old(tbl)@,
            tbl0@,
            *old(table),
            migs_in@,
            push0@,
            pull0@,
            old(pull_set)@,
            dls@,
        ),
        (pd as int) < dls@.len(),
        dom_in_set(push0@, pd),
        tp0 as int == set_val(push0@, pd),
        sum_out(migs_in@, migs_in@.len() as int, pd) == 0,
        push_max as int == push_cap(dls@[pd as int]),
    ensures
        plan_inv(
            final(tbl)@,
            tbl0@,
            *final(table),
            migs_out@,
            push0@,
            pull0@,
            final(pull_set)@,
            dls@,
        ),
        migs_in@.len() <= migs_out@.len(),
        migs_out@.subrange(0, migs_in@.len() as int) == migs_in@,
        forall|k: int|
            migs_in@.len() <= k < migs_out@.len() ==> (#[trigger] migs_out@[k]).from == pd,
        dom_saturated(migs_out@, tbl0@, push0@, pull0@, dls@, pd),
        *final(errors) == *old(errors),
{
    let ghost l0 = migs_in@.len() as int;
    let ghost migs0 = migs_in@;
    let mut migs: Ghost<Seq<Migration>> = migs_in;
    let nr_doms = tbl.len();
    let pd_us = pd as usize;
    let mut to_push: i128 = tp0 as i128;
    let mut pushed: i128 = 0;
    proof {
        lemma_count_unmig_nonneg(tbl@[pd as int]@);
        assert(migs@.subrange(0, l0) =~= migs0);
    }
    loop
        invariant_except_break
            nr_doms == tbl@.len(),
            plan_input_ok(tbl0@, push0@, pull0@, dls@),
            plan_inv(tbl@, tbl0@, *table, migs@, push0@, pull0@, pull_set@, dls@),
            (pd as int) < dls@.len(),
            pd_us == pd as usize,
            dom_in_set(push0@, pd),
            tp0 as int == set_val(push0@, pd),
            push_max as int == push_cap(dls@[pd as int]),
            l0 == migs0.len(),
            l0 <= migs@.len(),
            migs@.subrange(0, l0) == migs0,
            forall|k: int| l0 <= k < migs@.len() ==> (#[trigger] migs@[k]).from == pd,
            sum_out(migs@, l0, pd) == 0,
            pushed == sum_out(migs@, migs@.len() as int, pd),
            to_push == tp0 - pushed,
            0 <= pushed,
            pushed == 0 || pushed < push_max as i128,
            -PLAN_VAL_FLOOR <= to_push <= u64::MAX,
            *errors == *old(errors),
        ensures
            plan_inv(tbl@, tbl0@, *table, migs@, push0@, pull0@, pull_set@, dls@),
            l0 <= migs@.len(),
            migs@.subrange(0, l0) == migs0,
            forall|k: int| l0 <= k < migs@.len() ==> (#[trigger] migs@[k]).from == pd,
            dom_saturated(migs@, tbl0@, push0@, pull0@, dls@, pd),
            *errors == *old(errors),
        decreases count_unmig(tbl@[pd as int]@),
    {
        let ghost count_pre = count_unmig(tbl@[pd as int]@);
        let sel = select_victim(&tbl[pd_us], pull_set, to_push, nr_doms);
        match sel {
            None => {
                proof {
                    // the row the picks ran against is exactly the input row
                    // with the log's victims marked
                    let lnow = migs@.len() as int;
                    assert(tbl@[pd as int]@ =~= marked_row(tbl0@[pd as int]@, migs@, pd));
                    assert(to_push as int == set_val(push0@, pd) - sum_out(migs@, lnow, pd));
                    assert forall|j: int| 0 <= j < pull0@.len() implies spec_pick_victim(
                        marked_row(tbl0@[pd as int]@, migs@, pd),
                        set_val(push0@, pd) - sum_out(migs@, lnow, pd),
                        (#[trigger] pull0@[j]).0 - sum_in(migs@, lnow, pull0@[j].1),
                        pull0@[j].1,
                    ) is None by {
                        assert(spec_pick_victim(
                            tbl@[pd as int]@,
                            to_push as int,
                            pull_set@[j].0 as int,
                            pull_set@[j].1,
                        ) is None);
                        assert(pull_set@[j].0 as int == pull0@[j].0 - sum_in(
                            migs@,
                            lnow,
                            pull0@[j].1,
                        ));
                    }
                    assert(no_more_picks(migs@, lnow, tbl0@, push0@, pull0@, pd));
                    assert(0 <= lnow <= migs@.len() && sum_out(migs@, lnow, pd) == sum_out(
                        migs@,
                        migs@.len() as int,
                        pd,
                    ));
                }
                break;
            },
            Some((ci, vi)) => {
                let ghost tbl_pre = tbl@;
                let ghost migs_pre = migs@;
                let ghost lpre = migs@.len() as int;
                let (tlv, pdom) = pull_set[ci];
                proof {
                    lemma_pick_victim_props(tbl@[pd as int]@, to_push as int, tlv as int, pdom);
                }
                let row_ref = &tbl[pd_us];
                let e = row_ref[vi];
                proof {
                    // the victim is unmigrated, so its PID is not yet in the
                    // table: a directive's migration would name an index
                    // entry with this PID, which by global PID distinctness
                    // is the victim itself, contradicting its clear flag
                    assert(e.migrated == false);
                    assert(!table.contains_pid(e.pid)) by {
                        if table.contains_pid(e.pid) {
                            let kw = choose|kw: int|
                                0 <= kw < table.entries@.len() && (
                                #[trigger] table.entries@[kw]).pid == e.pid;
                            assert(mig_ok_at(migs@, kw, tbl0@, push0@, pull0@, dls@));
                            let mw = migs@[kw];
                            let iw = choose|iw: int|
                                0 <= iw < tbl0@[mw.from as int]@.len() && (#[trigger] tbl0@[
                                    mw.from as int
                                ]@[iw]).pid == mw.pid && tbl0@[mw.from as int]@[iw].load
                                    == mw.load && tbl0@[mw.from as int]@[iw].dom_mask & (1u64
                                    << mw.to) != 0 && tbl0@[mw.from as int]@[iw].migrated
                                    == false;
                            assert(tbl0@[pd as int]@[vi as int].pid == e.pid);
                            assert(mw.from as int == pd as int && iw == vi as int);
                            assert(migrated_by(migs@, pd, e.pid));
                            assert(tbl@[pd as int]@[vi as int].migrated);
                        }
                    }
                }
                let ok = table.insert_counted(e.pid, pdom, errors);
                proof {
                    assert(ok);
                }
                // mark the victim migrated
                let mut row: Vec<LbEntry> = Vec::new();
                core::mem::swap(&mut row, &mut tbl[pd_us]);
                let marked = LbEntry { load: e.load, pid: e.pid, dom_mask: e.dom_mask, migrated: true };
                row[vi] = marked;
                tbl[pd_us] = row;
                // account the transfer
                pull_set[ci] = (tlv - (e.load as i128), pdom);
                let ghost to_push_rec = to_push as int;
                let ghost pushed_rec = pushed as int;
                proof {
                    migs@ = migs@.push(
                        Migration {
                            pid: e.pid,
                            from: pd,
                            to: pdom,
                            load: e.load,
                            to_push: to_push_rec,
                            to_pull: tlv as int,
                            pushed_before: pushed_rec,
                        },
                    );
                }
                to_push = to_push - (e.load as i128);
                pushed = pushed + (e.load as i128);
                proof {
                    let m_new = migs@[lpre];
                    assert(migs@.len() == lpre + 1);
                    assert(forall|i: int| 0 <= i < lpre ==> #[trigger] migs@[i] == migs_pre[i]);
                    let gate = gate_ok(to_push_rec, tlv as int, e.load as int);
                    // numeric floors from the improvement gate
                    assert(to_push_rec + tlv > 0);
                    assert(abs(to_push_rec - e.load) as int * 10 < 9 * (to_push_rec + tlv));
                    assert(to_push >= -PLAN_VAL_FLOOR);
                    // prefix sums are untouched by the push
                    assert forall|k: int| 0 <= k <= lpre implies sum_out(migs@, k, pd) == sum_out(
                        migs_pre,
                        k,
                        pd,
                    ) by {
                        lemma_sums_push(migs_pre, m_new, k, pd);
                    }
                    assert(sum_out(migs@, lpre + 1, pd) == sum_out(migs_pre, lpre, pd)
                        + e.load as int);
                    assert forall|i: int| 0 <= i < l0 implies migs@.subrange(0, l0)[i]
                        == migs0[i] by {
                        assert(migs@[i] == migs_pre[i]);
                        assert(migs_pre.subrange(0, l0)[i] == migs_pre[i]);
                    }
                    assert(migs@.subrange(0, l0) =~= migs0);
                    // the new migration satisfies every promised clause
                    lemma_set_val_at(pull0@, ci as int);
                    assert(mig_matches(tbl0@, m_new)) by {
                        assert(tbl0@[pd as int]@[vi as int].pid == e.pid);
                        assert(tbl0@[pd as int]@[vi as int].dom_mask == e.dom_mask);
                        assert(tbl0@[pd as int]@[vi as int].load == e.load);
                        assert(tbl0@[pd as int]@[vi as int].migrated == false);
                        assert(e.dom_mask & (1u64 << pdom) != 0);
                    }
                    assert(mig_ok_at(migs@, lpre, tbl0@, push0@, pull0@, dls@)) by {
                        lemma_sums_push(migs_pre, m_new, lpre, pd);
                        lemma_sums_push(migs_pre, m_new, lpre, pdom);
                    }
                    assert forall|k: int| 0 <= k < lpre implies mig_ok_at(
                        migs@,
                        k,
                        tbl0@,
                        push0@,
                        pull0@,
                        dls@,
                    ) by {
                        assert(mig_ok_at(migs_pre, k, tbl0@, push0@, pull0@, dls@));
                        assert(migs@[k] == migs_pre[k]);
                        lemma_sums_push(migs_pre, m_new, k, migs_pre[k].from);
                        lemma_sums_push(migs_pre, m_new, k, migs_pre[k].to);
                    }
                    // the pull set still mirrors the initial values minus
                    // everything pulled in so far
                    assert forall|i: int| 0 <= i < pull_set@.len() implies (
                    #[trigger] pull_set@[i]).1 == pull0@[i].1 && pull_set@[i].0 == pull0@[i].0
                        - sum_in(migs@, migs@.len() as int, pull0@[i].1) && -PLAN_VAL_FLOOR
                        <= pull_set@[i].0 <= u64::MAX by {
                        lemma_sums_push(migs_pre, m_new, lpre, pull0@[i].1);
                        if i == ci {
                            assert(abs(tlv - e.load) as int * 10 < 9 * (to_push_rec + tlv));
                        } else {
                            if i < ci {
                                assert(pull0@[i].1 != pull0@[ci as int].1);
                            } else {
                                assert(pull0@[ci as int].1 != pull0@[i].1);
                            }
                        }
                    }
                    // an index entry is marked exactly when the log moved it
                    assert forall|d: int, m: int|
                        0 <= d < tbl@.len() && 0 <= m < tbl@[d]@.len() implies ((
                    #[trigger] tbl@[d]@[m]).migrated <==> migrated_by(
                        migs@,
                        d as u32,
                        tbl@[d]@[m].pid,
                    )) by {
                        assert(tbl@[d]@[m].pid == tbl_pre[d]@[m].pid);
                        if d == pd as int && m == vi as int {
                            assert(migs@[lpre].from == pd && migs@[lpre].pid == e.pid);
                            assert(migrated_by(migs@, d as u32, tbl@[d]@[m].pid));
                        } else {
                            assert(tbl@[d]@[m] == tbl_pre[d]@[m]);
                            if migrated_by(migs@, d as u32, tbl@[d]@[m].pid) {
                                let k = choose|k: int|
                                    0 <= k < migs@.len() && (#[trigger] migs@[k]).from == (
                                    d as u32) && migs@[k].pid == tbl@[d]@[m].pid;
                                if k == lpre {
                                    // same PID as the victim: distinctness
                                    // forces the victim's position
                                    assert(tbl0@[d]@[m].pid == tbl0@[pd as int]@[vi as int].pid);
                                    assert(false);
                                } else {
                                    assert(migs_pre[k] == migs@[k]);
                                    assert(migrated_by(migs_pre, d as u32, tbl_pre[d]@[m].pid));
                                }
                            }
                            if migrated_by(migs_pre, d as u32, tbl_pre[d]@[m].pid) {
                                let k = choose|k: int|
                                    0 <= k < migs_pre.len() && (#[trigger] migs_pre[k]).from == (
                                    d as u32) && migs_pre[k].pid == tbl_pre[d]@[m].pid;
                                assert(migs@[k] == migs_pre[k]);
                                assert(migrated_by(migs@, d as u32, tbl@[d]@[m].pid));
                            }
                        }
                    }
                    lemma_count_unmig_update(tbl_pre[pd as int]@, vi as int, marked);
                    lemma_count_unmig_nonneg(tbl@[pd as int]@);
                }
                if pushed >= push_max as i128 {
                    proof {
                        assert(sum_out(migs@, migs@.len() as int, pd) >= push_cap(
                            dls@[pd as int],
                        ));
                    }
                    break;
                }
            },
        }
    }
    migs
}

/// Plans one tick's migrations. Push domains are taken most-imbalanced first
/// (equal magnitudes: the lower domain id first); each sheds load through
/// gated victim picks until nothing improves or its cap is reached. Returns
/// the directive table and the ghost log of accepted migrations; the
/// create-only directive writes never collide, so the error count is
/// untouched.
pub fn load_balance(
    tasks_by_load: Vec<Vec<LbEntry>>,
    dom_loads: &Vec<u64>,
    doms_to_push: Vec<(u64, u32)>,
    doms_to_pull: Vec<(u64, u32)>,
    nr_lb_data_errors: &mut u64,
) -> (r: (DirectiveTable, Ghost<Seq<Migration>>))
    requires
        plan_input_ok(tasks_by_load@, doms_to_push@, doms_to_pull@, dom_loads@),
    ensures
        r.0.wf(),
        r.0.entries@.len() == r.1@.len(),
        forall|k: int|
            0 <= k < r.1@.len() ==> (#[trigger] r.0.entries@[k]).pid == r.1@[k].pid
                && r.0.entries@[k].dom == r.1@[k].to,
        migs_ok(r.1@, tasks_by_load@, doms_to_push@, doms_to_pull@, dom_loads@),
        forall|i: int|
            0 <= i < doms_to_push@.len() ==> dom_saturated(
                r.1@,
                tasks_by_load@,
                doms_to_push@,
                doms_to_pull@,
                dom_loads@,
                (#[trigger] doms_to_push@[i]).1,
            ),
        doms_to_push@.len() == 0 ==> r.1@.len() == 0,
        *final(nr_lb_data_errors) == *old(nr_lb_data_errors),
{
    let ghost tbl0 = tasks_by_load@;
    let ghost push0 = doms_to_push@;
    let ghost pull0 = doms_to_pull@;
    let ghost dls = dom_loads@;
    let mut tbl = tasks_by_load;
    let mut push_set = doms_to_push;
    let mut pull_set: Vec<(i128, u32)> = Vec::new();
    let npull = doms_to_pull.len();
    for i in 0..npull
        invariant
            npull == pull0.len(),
            doms_to_pull@ == pull0,
            pull_set@.len() == i,
            forall|ii: int|
                0 <= ii < i ==> (#[trigger] pull_set@[ii]).1 == pull0[ii].1 && pull_set@[ii].0
                    == pull0[ii].0 as i128,
    {
        pull_set.push((doms_to_pull[i].0 as i128, doms_to_pull[i].1));
    }
    let mut table = DirectiveTable::new();
    let mut migs: Ghost<Seq<Migration>> = Ghost(Seq::empty());
    // initially every push-set entry is its own untouched imbalance
    proof {
        assert forall|i: int| 0 <= i < push_set@.len() implies dom_in_set(
            push0,
            (#[trigger] push_set@[i]).1,
        ) && push_set@[i].0 as int == set_val(push0, push_set@[i].1) by {
            lemma_set_val_at(push0, i);
        }
        assert forall|i: int| 0 <= i < push0.len() implies dom_in_set(
            push_set@,
            (#[trigger] push0[i]).1,
        ) by {
            assert(push_set@[i].1 == push0[i].1);
        }
    }
    while push_set.len() > 0
        invariant
            plan_input_ok(tbl0, push0, pull0, dls),
            plan_inv(tbl@, tbl0, table, migs@, push0, pull0, pull_set@, dls),
            dom_loads@ == dls,
            forall|i: int|
                0 <= i < push_set@.len() ==> dom_in_set(push0, (#[trigger] push_set@[i]).1)
                    && push_set@[i].0 as int == set_val(push0, push_set@[i].1) && (
                push_set@[i].1 as int) < dls.len() && sum_out(
                    migs@,
                    migs@.len() as int,
                    push_set@[i].1,
                ) == 0,
            forall|i1: int, i2: int|
                0 <= i1 < i2 < push_set@.len() ==> (#[trigger] push_set@[i1]).1 < (
                #[trigger] push_set@[i2]).1,
            forall|i: int|
                0 <= i < push0.len() ==> dom_in_set(push_set@, (#[trigger] push0[i]).1)
                    || dom_saturated(migs@, tbl0, push0, pull0, dls, push0[i].1),
            push0.len() == 0 ==> migs@.len() == 0 && push_set@.len() == 0,
            *nr_lb_data_errors == *old(nr_lb_data_errors),
        decreases push_set@.len(),
    {
        // most imbalanced push domain first; equal magnitudes: lower dom id
        let mut best: usize = 0;
        let np = push_set.len();
        for i in 1..np
            invariant
                np == push_set@.len(),
                np >= 1,
                best < np,
        {
            if push_set[i].0 > push_set[best].0 {
                best = i;
            }
        }
        let ghost pre_set = push_set@;
        let (tp0, pd) = push_set.remove(best);
        proof {
            pre_set.remove_ensures(best as int);
            assert forall|i: int| 0 <= i < push_set@.len() implies dom_in_set(
                push0,
                (#[trigger] push_set@[i]).1,
            ) && push_set@[i].0 as int == set_val(push0, push_set@[i].1) && (
            push_set@[i].1 as int) < dls.len() && sum_out(
                migs@,
                migs@.len() as int,
                push_set@[i].1,
            ) == 0 && push_set@[i].1 != pd by {
                if i < best {
                    assert(push_set@[i] == pre_set[i]);
                    assert(pre_set[i].1 < pre_set[best as int].1);
                } else {
                    assert(push_set@[i] == pre_set[i + 1]);
                    assert(pre_set[best as int].1 < pre_set[i + 1].1);
                }
            }
            assert forall|i1: int, i2: int|
                0 <= i1 < i2 < push_set@.len() implies (#[trigger] push_set@[i1]).1 < (
            #[trigger] push_set@[i2]).1 by {
                let o1: int = if i1 < best {
                    i1
                } else {
                    i1 + 1
                };
                let o2: int = if i2 < best {
                    i2
                } else {
                    i2 + 1
                };
                assert(push_set@[i1] == pre_set[o1] && push_set@[i2] == pre_set[o2]);
            }
        }
        let dl = dom_loads[pd as usize];
        proof {
            assert((dl as int) * 50 <= 100 * (dl as int)) by (nonlinear_arith);
            vstd::arithmetic::div_mod::lemma_multiply_divide_le(
                (dl as int) * 50,
                100,
                dl as int,
            );
            vstd::arithmetic::div_mod::lemma_div_pos_is_pos((dl as int) * 50, 100);
        }
        let push_max: u64 = (((dl as u128) * 50) / 100) as u64;
        let ghost l_before = migs@.len() as int;
        let ghost migs_before = migs@;
        migs = balance_push_dom(
            &mut tbl,
            &mut pull_set,
            &mut table,
            nr_lb_data_errors,
            migs,
            Ghost(tbl0),
            Ghost(push0),
            Ghost(pull0),
            Ghost(dls),
            tp0,
            pd,
            push_max,
        );
        proof {
            assert forall|i: int| 0 <= i < push_set@.len() implies sum_out(
                migs@,
                migs@.len() as int,
                (#[trigger] push_set@[i]).1,
            ) == 0 by {
                assert forall|kk: int|
                    l_before <= kk < migs@.len() implies (#[trigger] migs@[kk]).from == pd by {}
                assert(sum_out(migs@, l_before, push_set@[i].1) == sum_out(
                    migs@.subrange(0, l_before),
                    l_before,
                    push_set@[i].1,
                )) by {
                    lemma_sum_out_prefix(migs@, l_before, push_set@[i].1);
                }
                lemma_sum_out_zero_upto(
                    migs@,
                    l_before,
                    migs@.len() as int,
                    push_set@[i].1,
                    pd,
                );
            }
            // every domain already taken off the set stays saturated
            assert forall|i: int| 0 <= i < push0.len() implies dom_in_set(
                push_set@,
                (#[trigger] push0[i]).1,
            ) || dom_saturated(migs@, tbl0, push0, pull0, dls, push0[i].1) by {
                let pdi = push0[i].1;
                if pdi == pd {
                    assert(dom_saturated(migs@, tbl0, push0, pull0, dls, pd));
                } else if dom_in_set(pre_set, pdi) {
                    let m0 = choose|m0: int|
                        0 <= m0 < pre_set.len() && (#[trigger] pre_set[m0]).1 == pdi;
                    if m0 == best {
                        assert(pdi == pd);
                    } else if m0 < best {
                        assert(push_set@[m0] == pre_set[m0]);
                        assert(dom_in_set(push_set@, pdi));
                    } else {
                        assert(push_set@[m0 - 1] == pre_set[m0]);
                        assert(dom_in_set(push_set@, pdi));
                    }
                } else {
                    assert(dom_saturated(migs_before, tbl0, push0, pull0, dls, pdi));
                    lemma_dom_saturated_ext(
                        migs_before,
                        migs@,
                        tbl0,
                        push0,
                        pull0,
                        dls,
                        pdi,
                        pd,
                    );
                }
            }
        }
    }
    (table, migs)
}

} // verus!
