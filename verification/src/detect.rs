//! The imbalance detector: classifies each domain against the mean load as a
//! push domain (above), a pull domain (below), or neither (within the
//! threshold band).

use vstd::prelude::*;
use vstd::arithmetic::div_mod::{lemma_div_is_ordered, lemma_div_multiples_vanish};
use crate::sums::{lemma_elem_le_sum, lemma_sum_const, sum_u64};
use crate::{MAX_DOMS, MAX_TASKS, TASK_LOAD_BOUND};

verus! {

/// Largest total load a tick can carry; bounds every domain load.
pub const TOTAL_LOAD_BOUND: u64 = 0x0010_0000 * (0xFFFF_FFFF * 1024);

/// Absolute deviation of a domain's load from the mean.
pub open spec fn deviation(load: u64, avg: u64) -> int {
    if load >= avg {
        load - avg
    } else {
        avg - load
    }
}

/// A domain whose deviation reaches a tenth of the mean takes part in
/// balancing.
pub open spec fn qualifies(load: u64, avg: u64) -> bool {
    10 * deviation(load, avg) >= avg
}

pub open spec fn is_push(load: u64, avg: u64) -> bool {
    load > avg && qualifies(load, avg)
}

pub open spec fn is_pull(load: u64, avg: u64) -> bool {
    load <= avg && qualifies(load, avg)
}

/// The push set over the first `n` domains: `(deviation, dom)` in ascending
/// domain order.
pub open spec fn push_seq(dl: Seq<u64>, avg: u64, n: int) -> Seq<(u64, u32)>
    decreases n,
{
    if n <= 0 {
        Seq::empty()
    } else {
        push_seq(dl, avg, n - 1) + if is_push(dl[n - 1], avg) {
            seq![(((dl[n - 1] - avg) as u64, (n - 1) as u32))]
        } else {
            Seq::empty()
        }
    }
}

/// The pull set over the first `n` domains.
pub open spec fn pull_seq(dl: Seq<u64>, avg: u64, n: int) -> Seq<(u64, u32)>
    decreases n,
{
    if n <= 0 {
        Seq::empty()
    } else {
        pull_seq(dl, avg, n - 1) + if is_pull(dl[n - 1], avg) {
            seq![(((avg - dl[n - 1]) as u64, (n - 1) as u32))]
        } else {
            Seq::empty()
        }
    }
}

/// The signed imbalance recorded for reporting: zero below the threshold.
pub open spec fn spec_imbal(load: u64, avg: u64) -> int {
    if qualifies(load, avg) {
        load - avg
    } else {
        0
    }
}

/// What the detector hands on: the mean, the per-domain signed imbalance, and
/// the two working sets ordered by ascending domain id.
pub struct ImbalanceOut {
    pub load_avg: u64,
    pub imbal: Vec<i64>,
    pub doms_to_push: Vec<(u64, u32)>,
    pub doms_to_pull: Vec<(u64, u32)>,
}

/// With no domain above the threshold, the push set is empty.
pub proof fn lemma_push_seq_empty(dl: Seq<u64>, avg: u64, n: int)
    requires
        0 <= n <= dl.len(),
        forall|d: int| 0 <= d < n ==> !is_push(#[trigger] dl[d], avg),
    ensures
        push_seq(dl, avg, n).len() == 0,
    decreases n,
{
    if n > 0 {
        lemma_push_seq_empty(dl, avg, n - 1);
    }
}

/// When every domain carries the same load, the mean is that load and no
/// domain is a push domain.
pub proof fn lemma_equal_loads_no_push(dl: Seq<u64>, load_sum: u64)
    requires
        1 <= dl.len() <= MAX_DOMS,
        load_sum == sum_u64(dl),
        forall|d1: int, d2: int|
            0 <= d1 < dl.len() && 0 <= d2 < dl.len() ==> dl[d1] == dl[d2],
    ensures
        push_seq(dl, (load_sum / dl.len() as u64) as u64, dl.len() as int).len() == 0,
{
    let v = dl[0];
    lemma_sum_const(dl, v);
    lemma_div_multiples_vanish(v as int, dl.len() as int);
    assert(dl.len() * v == dl.len() as int * v as int);
    assert(load_sum / dl.len() as u64 == v);
    assert forall|d: int| 0 <= d < dl.len() implies !is_push(#[trigger] dl[d], v) by {
        assert(dl[d] == v);
    }
    lemma_push_seq_empty(dl, v, dl.len() as int);
}

/// Classifies every domain against the mean: a deviation of at least a tenth
/// of the mean makes the domain a push domain (above) or a pull domain
/// (below or at the mean). Working sets come back in ascending domain order;
/// `imbal` records the signed deviation of participating domains.
pub fn calculate_dom_load_balance(dom_loads: &Vec<u64>, load_sum: u64) -> (out: ImbalanceOut)
    requires
        1 <= dom_loads@.len() <= MAX_DOMS,
        load_sum == sum_u64(dom_loads@),
        load_sum <= TOTAL_LOAD_BOUND,
    ensures
        ({
            let n = dom_loads@.len() as int;
            let avg = out.load_avg;
            &&& avg == load_sum / dom_loads@.len() as u64
            &&& out.imbal@.len() == n
            &&& forall|d: int|
                0 <= d < n ==> (#[trigger] out.imbal@[d]) == spec_imbal(dom_loads@[d], avg)
            &&& out.doms_to_push@ == push_seq(dom_loads@, avg, n)
            &&& out.doms_to_pull@ == pull_seq(dom_loads@, avg, n)
            &&& forall|i: int|
                0 <= i < out.doms_to_push@.len() ==> (#[trigger] out.doms_to_push@[i]).1 < n
                    && is_push(dom_loads@[out.doms_to_push@[i].1 as int], avg)
                    && out.doms_to_push@[i].0 == dom_loads@[out.doms_to_push@[i].1 as int] - avg
            &&& forall|i: int|
                0 <= i < out.doms_to_pull@.len() ==> (#[trigger] out.doms_to_pull@[i]).1 < n
                    && is_pull(dom_loads@[out.doms_to_pull@[i].1 as int], avg)
                    && out.doms_to_pull@[i].0 == avg - dom_loads@[out.doms_to_pull@[i].1 as int]
            &&& forall|i1: int, i2: int|
                0 <= i1 < i2 < out.doms_to_push@.len() ==> (#[trigger] out.doms_to_push@[i1]).1 < (
                #[trigger] out.doms_to_push@[i2]).1
            &&& forall|i1: int, i2: int|
                0 <= i1 < i2 < out.doms_to_pull@.len() ==> (#[trigger] out.doms_to_pull@[i1]).1 < (
                #[trigger] out.doms_to_pull@[i2]).1
        }),
{
    let n = dom_loads.len();
    let avg: u64 = load_sum / (n as u64);
    proof {
        lemma_div_is_ordered(load_sum as int, load_sum as int, n as int);
        assert(load_sum / n as u64 <= load_sum) by (nonlinear_arith)
            requires n >= 1;
    }
    let mut imbal: Vec<i64> = Vec::new();
    let mut doms_to_push: Vec<(u64, u32)> = Vec::new();
    let mut doms_to_pull: Vec<(u64, u32)> = Vec::new();
    for d in 0..n
        invariant
            n == dom_loads@.len(),
            1 <= n <= MAX_DOMS,
            load_sum == sum_u64(dom_loads@),
            load_sum <= TOTAL_LOAD_BOUND,
            avg == load_sum / n as u64,
            avg <= TOTAL_LOAD_BOUND,
            imbal@.len() == d,
            forall|dd: int|
                0 <= dd < d ==> (#[trigger] imbal@[dd]) == spec_imbal(dom_loads@[dd], avg),
            doms_to_push@ == push_seq(dom_loads@, avg, d as int),
            doms_to_pull@ == pull_seq(dom_loads@, avg, d as int),
            forall|i: int|
                0 <= i < doms_to_push@.len() ==> (#[trigger] doms_to_push@[i]).1 < d && is_push(
                    dom_loads@[doms_to_push@[i].1 as int],
                    avg,
                ) && doms_to_push@[i].0 == dom_loads@[doms_to_push@[i].1 as int] - avg,
            forall|i: int|
                0 <= i < doms_to_pull@.len() ==> (#[trigger] doms_to_pull@[i]).1 < d && is_pull(
                    dom_loads@[doms_to_pull@[i].1 as int],
                    avg,
                ) && doms_to_pull@[i].0 == avg - dom_loads@[doms_to_pull@[i].1 as int],
            forall|i1: int, i2: int|
                0 <= i1 < i2 < doms_to_push@.len() ==> (#[trigger] doms_to_push@[i1]).1 < (
                #[trigger] doms_to_push@[i2]).1,
            forall|i1: int, i2: int|
                0 <= i1 < i2 < doms_to_pull@.len() ==> (#[trigger] doms_to_pull@[i1]).1 < (
                #[trigger] doms_to_pull@[i2]).1,
    {
        let load = dom_loads[d];
        proof {
            lemma_elem_le_sum(dom_loads@, d as int);
        }
        let dev: u64 = if load >= avg {
            load - avg
        } else {
            avg - load
        };
        let ghost old_push = doms_to_push@;
        let ghost old_pull = doms_to_pull@;
        if (10 as u128) * (dev as u128) >= (avg as u128) {
            if load > avg {
                doms_to_push.push((load - avg, d as u32));
                imbal.push((load - avg) as i64);
            } else {
                doms_to_pull.push((avg - load, d as u32));
                imbal.push(0i64 - ((avg - load) as i64));
            }
        } else {
            imbal.push(0i64);
        }
        proof {
            assert(doms_to_push@ == push_seq(dom_loads@, avg, d + 1));
            assert(doms_to_pull@ == pull_seq(dom_loads@, avg, d + 1));
        }
    }
    ImbalanceOut { load_avg: avg, imbal, doms_to_push, doms_to_pull }
}

} // verus!
