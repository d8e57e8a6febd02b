//! Per-task load estimation: clamped runnable-time delta, instantaneous
//! fixed-point load, and the EWMA decay step.

use vstd::prelude::*;
use vstd::arithmetic::div_mod::{
    lemma_div_pos_is_pos, lemma_fundamental_div_mod, lemma_fundamental_div_mod_converse,
    lemma_multiply_divide_le,
};
use vstd::arithmetic::mul::lemma_mul_upper_bound;
use vstd::arithmetic::power::{lemma_pow0, lemma_pow1, lemma_pow_adds, lemma_pow_positive, pow};
use vstd::math::{abs, min};
use crate::{DECAY_DEN, DECAY_MAX, LOAD_SCALE, TASK_LOAD_BOUND};

verus! {

/// Per-task controller state that survives between ticks: the raw runnable
/// nanoseconds read last tick and the smoothed fixed-point load.
#[derive(Clone, Copy, Debug)]
pub struct TaskLoad {
    pub runnable_for: u64,
    pub load: u64,
}

/// The runnable-time delta of one task over one period, clamped to
/// `[0, period]`. A `this_for` that went backwards (unsynchronized kernel
/// writes) counts as zero; time still accumulating since `this_at` is added.
pub open spec fn spec_delta(
    prev_for: Option<u64>,
    this_for: u64,
    this_at: u64,
    now: u64,
    period: u64,
) -> int {
    let base: int = match prev_for {
        Some(p) => if this_for >= p { this_for - p } else { 0 },
        None => this_for as int,
    };
    let extra: int = if this_at > 0 && this_at < now { now - this_at } else { 0 };
    min(base + extra, period as int)
}

/// Instantaneous fixed-point load: the weight scaled by the runnable share of
/// the period, `floor(weight * delta * LOAD_SCALE / period)`.
pub open spec fn spec_inst_load(weight: u32, delta: int, period: u64) -> int {
    (weight * delta * LOAD_SCALE) / (period as int)
}

/// One decay step: `floor((prev * decay + inst * (DECAY_DEN - decay)) / DECAY_DEN)`.
pub open spec fn spec_ewma(prev: int, inst: int, decay: u64) -> int {
    (prev * decay + inst * (DECAY_DEN - decay)) / (DECAY_DEN as int)
}

/// The new smoothed load of one task, given its previous record (if any) and
/// the words read from the kernel task table this tick.
pub open spec fn spec_task_load(
    prev: Option<TaskLoad>,
    this_for: u64,
    this_at: u64,
    weight: u32,
    now: u64,
    period: u64,
    decay: u64,
) -> int {
    let prev_for = match prev {
        Some(p) => Some(p.runnable_for),
        None => None,
    };
    let delta = spec_delta(prev_for, this_for, this_at, now, period);
    let inst = spec_inst_load(weight, delta, period);
    match prev {
        Some(p) => spec_ewma(p.load as int, inst, decay),
        None => inst,
    }
}

pub open spec fn spec_deref_prev(prev: Option<&TaskLoad>) -> Option<TaskLoad> {
    match prev {
        Some(p) => Some(*p),
        None => None,
    }
}

/// `(d * x + b) / d == x + b / d` for a positive divisor.
proof fn lemma_div_shift(x: int, b: int, d: int)
    requires
        d > 0,
        b >= 0,
    ensures
        (d * x + b) / d == x + b / d,
{
    lemma_fundamental_div_mod(b, d);
    assert(d * x + b == d * (x + b / d) + b % d) by (nonlinear_arith)
        requires b == d * (b / d) + b % d;
    lemma_fundamental_div_mod_converse(d * x + b, d, x + b / d, b % d);
}

/// The instantaneous load is bounded by the weight itself (scaled): a task
/// runnable for the whole period carries exactly its weight.
pub proof fn lemma_inst_load_bounds(weight: u32, delta: int, period: u64)
    requires
        period >= 1,
        0 <= delta <= period,
    ensures
        0 <= spec_inst_load(weight, delta, period) <= weight * LOAD_SCALE,
{
    assert(weight * delta * LOAD_SCALE >= 0) by (nonlinear_arith)
        requires weight >= 0, delta >= 0;
    lemma_div_pos_is_pos(weight * delta * LOAD_SCALE, period as int);
    assert(weight * delta * LOAD_SCALE <= (period as int) * (weight * LOAD_SCALE)) by (nonlinear_arith)
        requires 0 <= delta <= period, weight >= 0;
    lemma_multiply_divide_le(weight * delta * LOAD_SCALE, period as int, weight * LOAD_SCALE);
}

/// The decay step stays within the interval spanned by its two inputs.
pub proof fn lemma_ewma_bounds(prev: int, inst: int, decay: u64)
    requires
        0 <= prev,
        0 <= inst,
        decay <= DECAY_DEN,
    ensures
        0 <= spec_ewma(prev, inst, decay),
        spec_ewma(prev, inst, decay) <= vstd::math::max(prev, inst),
{
    let m = vstd::math::max(prev, inst);
    assert(prev * decay + inst * (DECAY_DEN - decay) >= 0) by (nonlinear_arith)
        requires 0 <= prev, 0 <= inst, 0 <= decay <= DECAY_DEN;
    lemma_div_pos_is_pos(prev * decay + inst * (DECAY_DEN - decay), DECAY_DEN as int);
    assert(prev * decay + inst * (DECAY_DEN - decay) <= (DECAY_DEN as int) * m) by (nonlinear_arith)
        requires 0 <= prev <= m, 0 <= inst <= m, 0 <= decay <= DECAY_DEN;
    lemma_multiply_divide_le(prev * decay + inst * (DECAY_DEN - decay), DECAY_DEN as int, m);
}

/// After the estimator step a task's load lies in `[0, weight * LOAD_SCALE]`,
/// provided any previous smoothed load did too (a weight lowered between
/// ticks can keep the smoothed load above the new bound for a few ticks).
pub proof fn lemma_task_load_bounded(
    prev: Option<TaskLoad>,
    this_for: u64,
    this_at: u64,
    weight: u32,
    now: u64,
    period: u64,
    decay: u64,
)
    requires
        period >= 1,
        decay <= DECAY_MAX,
        match prev {
            Some(p) => p.load <= weight * LOAD_SCALE,
            None => true,
        },
    ensures
        0 <= spec_task_load(prev, this_for, this_at, weight, now, period, decay)
            <= weight * LOAD_SCALE,
{
    let prev_for = match prev {
        Some(p) => Some(p.runnable_for),
        None => None,
    };
    let delta = spec_delta(prev_for, this_for, this_at, now, period);
    let inst = spec_inst_load(weight, delta, period);
    lemma_inst_load_bounds(weight, delta, period);
    match prev {
        Some(p) => {
            lemma_ewma_bounds(p.load as int, inst, decay);
        },
        None => {},
    }
}

/// Any task load is bounded by `TASK_LOAD_BOUND`, given the same for the
/// previous record.
pub proof fn lemma_task_load_fits(
    prev: Option<TaskLoad>,
    this_for: u64,
    this_at: u64,
    weight: u32,
    now: u64,
    period: u64,
    decay: u64,
)
    requires
        period >= 1,
        decay <= DECAY_MAX,
        match prev {
            Some(p) => p.load <= TASK_LOAD_BOUND,
            None => true,
        },
    ensures
        0 <= spec_task_load(prev, this_for, this_at, weight, now, period, decay)
            <= TASK_LOAD_BOUND,
{
    let prev_for = match prev {
        Some(p) => Some(p.runnable_for),
        None => None,
    };
    let delta = spec_delta(prev_for, this_for, this_at, now, period);
    let inst = spec_inst_load(weight, delta, period);
    lemma_inst_load_bounds(weight, delta, period);
    assert(weight * LOAD_SCALE <= TASK_LOAD_BOUND) by (nonlinear_arith)
        requires weight <= 0xFFFF_FFFFu32;
    match prev {
        Some(p) => {
            lemma_ewma_bounds(p.load as int, inst, decay);
        },
        None => {},
    }
}

/// Computes the new smoothed load of one task from the words read out of the
/// kernel task table, the previous record, the monotonic clock and the tick
/// period.
pub fn task_load(
    prev: Option<&TaskLoad>,
    this_for: u64,
    this_at: u64,
    weight: u32,
    now: u64,
    period: u64,
    decay: u64,
) -> (r: u64)
    requires
        period >= 1,
        decay <= DECAY_MAX,
        match prev {
            Some(p) => p.load <= TASK_LOAD_BOUND,
            None => true,
        },
    ensures
        r == spec_task_load(spec_deref_prev(prev), this_for, this_at, weight, now, period, decay),
        r <= TASK_LOAD_BOUND,
{
    proof {
        lemma_task_load_fits(spec_deref_prev(prev), this_for, this_at, weight, now, period, decay);
    }
    let base: u64 = match prev {
        Some(p) => {
            if this_for >= p.runnable_for {
                this_for - p.runnable_for
            } else {
                0
            }
        },
        None => this_for,
    };
    let extra: u64 = if this_at > 0 && this_at < now {
        now - this_at
    } else {
        0
    };
    // delta = min(base + extra, period), computed without overflowing u64
    let delta: u64 = if base >= period || extra >= period - base {
        period
    } else {
        base + extra
    };
    proof {
        lemma_mul_upper_bound(weight as int, 0xFFFF_FFFF as int, delta as int, u64::MAX as int);
        lemma_mul_upper_bound(
            (weight as int) * (delta as int),
            0xFFFF_FFFF * (u64::MAX as int),
            LOAD_SCALE as int,
            LOAD_SCALE as int,
        );
    }
    let num: u128 = (weight as u128) * (delta as u128) * (LOAD_SCALE as u128);
    let inst: u128 = num / (period as u128);
    proof {
        lemma_inst_load_bounds(weight, delta as int, period);
    }
    let inst64: u64 = inst as u64;
    match prev {
        Some(p) => {
            proof {
                lemma_mul_upper_bound(
                    p.load as int,
                    TASK_LOAD_BOUND as int,
                    decay as int,
                    DECAY_DEN as int,
                );
                lemma_mul_upper_bound(
                    inst64 as int,
                    TASK_LOAD_BOUND as int,
                    (DECAY_DEN - decay) as int,
                    DECAY_DEN as int,
                );
            }
            let mixed: u128 = (p.load as u128) * (decay as u128)
                + (inst64 as u128) * ((DECAY_DEN - decay) as u128);
            let smoothed: u128 = mixed / (DECAY_DEN as u128);
            proof {
                lemma_ewma_bounds(p.load as int, inst64 as int, decay);
            }
            smoothed as u64
        },
        None => inst64,
    }
}

/// How far the decayed load can sit from a constant instantaneous load after
/// one step: the error shrinks by the decay factor, up to one unit of
/// rounding, and never grows.
pub proof fn lemma_ewma_step(prev: int, inst: int, decay: u64)
    requires
        0 <= prev,
        0 <= inst,
        decay <= DECAY_MAX,
    ensures
        abs(spec_ewma(prev, inst, decay) - inst)
            <= (decay * abs(prev - inst)) / (DECAY_DEN as int) + 1,
        abs(spec_ewma(prev, inst, decay) - inst) <= abs(prev - inst),
{
    let d = decay as int;
    let dd = DECAY_DEN as int;
    let e = abs(prev - inst) as int;
    let w = spec_ewma(prev, inst, decay);
    if prev >= inst {
        assert(prev * d + inst * (dd - d) == dd * inst + d * e) by (nonlinear_arith)
            requires prev - inst == e, 0 <= d, dd == 1000;
        assert(d * e >= 0) by (nonlinear_arith)
            requires d >= 0, e >= 0;
        lemma_div_shift(inst, d * e, dd);
        assert(w == inst + (d * e) / dd);
        lemma_div_pos_is_pos(d * e, dd);
        assert(d * e <= dd * e) by (nonlinear_arith)
            requires 0 <= d <= dd, e >= 0;
        lemma_multiply_divide_le(d * e, dd, e);
    } else {
        assert(prev * d + inst * (dd - d) == dd * inst - d * e) by (nonlinear_arith)
            requires inst - prev == e, 0 <= d, dd == 1000;
        let q = (d * e) / dd;
        let r = (d * e) % dd;
        assert(d * e >= 0) by (nonlinear_arith)
            requires d >= 0, e >= 0;
        lemma_fundamental_div_mod(d * e, dd);
        lemma_div_pos_is_pos(d * e, dd);
        if r == 0 {
            assert(dd * inst - d * e == dd * (inst - q)) by (nonlinear_arith)
                requires d * e == dd * q + r, r == 0;
            lemma_fundamental_div_mod_converse(dd * inst - d * e, dd, inst - q, 0);
            assert(w == inst - q);
        } else {
            assert(dd * inst - d * e == dd * (inst - q - 1) + (dd - r)) by (nonlinear_arith)
                requires d * e == dd * q + r;
            lemma_fundamental_div_mod_converse(dd * inst - d * e, dd, inst - q - 1, dd - r);
            assert(w == inst - q - 1);
        }
        // q + 1 <= e because d * e < dd * e when e > 0, and q <= e - 1 follows
        if e > 0 {
            assert(d * e <= DECAY_MAX * e) by (nonlinear_arith)
                requires 0 <= d <= DECAY_MAX as int, e > 0;
            assert(DECAY_MAX * e < dd * e) by (nonlinear_arith)
                requires e > 0, dd == 1000;
            assert(dd * q <= d * e) by (nonlinear_arith)
                requires d * e == dd * q + r, r >= 0;
            assert(q < e) by (nonlinear_arith)
                requires dd * q <= d * e, d * e < dd * e, dd > 0;
        } else {
            assert(q == 0 && r == 0) by (nonlinear_arith)
                requires d * e == dd * q + r, e == 0, 0 <= r < dd, q >= 0, dd == 1000;
        }
    }
}

/// The decayed load after `k` steps against a constant instantaneous load.
pub open spec fn spec_ewma_iter(start: int, inst: int, decay: u64, k: nat) -> int
    decreases k,
{
    if k == 0 {
        start
    } else {
        spec_ewma(spec_ewma_iter(start, inst, decay, (k - 1) as nat), inst, decay)
    }
}

pub proof fn lemma_ewma_iter_nonneg(start: int, inst: int, decay: u64, k: nat)
    requires
        0 <= start,
        0 <= inst,
        decay <= DECAY_MAX,
    ensures
        spec_ewma_iter(start, inst, decay, k) >= 0,
    decreases k,
{
    if k > 0 {
        lemma_ewma_iter_nonneg(start, inst, decay, (k - 1) as nat);
        lemma_ewma_bounds(spec_ewma_iter(start, inst, decay, (k - 1) as nat), inst, decay);
    }
}

/// With a constant instantaneous load, the decayed load converges
/// geometrically: after `k` steps the error is at most the initial error
/// scaled by `(decay / 1000)^k`, plus a fixed rounding band of 100
/// fixed-point units. Stated over integers: the error times `1000^k` is
/// bounded by the initial error times `decay^k` plus the band times
/// `1000^k`; the relative error `eps` band is reached within
/// `log(1 / eps) / log(1000 / decay)` steps.
pub proof fn lemma_ewma_converges(start: int, inst: int, decay: u64, k: nat)
    requires
        0 <= start,
        0 <= inst,
        decay <= DECAY_MAX,
    ensures
        abs(spec_ewma_iter(start, inst, decay, k) - inst) * pow(1000, k) <= abs(start - inst)
            * pow(decay as int, k) + 100 * pow(1000, k),
    decreases k,
{
    let d = decay as int;
    let e0 = abs(start - inst) as int;
    if k == 0 {
        lemma_pow0(1000);
        lemma_pow0(d);
    } else {
        let km1 = (k - 1) as nat;
        lemma_ewma_converges(start, inst, decay, km1);
        lemma_ewma_iter_nonneg(start, inst, decay, km1);
        let prev = spec_ewma_iter(start, inst, decay, km1);
        lemma_ewma_step(prev, inst, decay);
        let ek1 = abs(prev - inst) as int;
        let ek = abs(spec_ewma_iter(start, inst, decay, k) - inst) as int;
        // one step scales the error by d/1000, up to one unit of rounding
        assert(d * ek1 >= 0) by (nonlinear_arith)
            requires d >= 0, ek1 >= 0;
        lemma_fundamental_div_mod(d * ek1, 1000);
        assert(1000 * ((d * ek1) / 1000) <= d * ek1);
        assert(ek <= (d * ek1) / 1000 + 1);
        assert(1000 * ek <= d * ek1 + 1000) by (nonlinear_arith)
            requires
                ek <= (d * ek1) / 1000 + 1,
                1000 * ((d * ek1) / 1000) <= d * ek1,
        ;
        let p1 = pow(1000, km1);
        let pd1 = pow(d, km1);
        lemma_pow_positive(1000, km1);
        assert(pd1 >= 0) by {
            if d == 0 {
                if km1 == 0 {
                    lemma_pow0(0);
                } else {
                    lemma_pow1(0);
                    lemma_pow_adds(0, 1, (km1 - 1) as nat);
                }
            } else {
                lemma_pow_positive(d, km1);
            }
        }
        assert(pow(1000, k) == 1000 * p1) by {
            lemma_pow1(1000);
            lemma_pow_adds(1000, 1, km1);
        }
        assert(pow(d, k) == d * pd1) by {
            lemma_pow1(d);
            lemma_pow_adds(d, 1, km1);
        }
        // IH: ek1 * p1 <= e0 * pd1 + 100 * p1; push it through one step
        assert(ek * (1000 * p1) <= e0 * (d * pd1) + 100 * (1000 * p1)) by (nonlinear_arith)
            requires
                1000 * ek <= d * ek1 + 1000,
                ek1 * p1 <= e0 * pd1 + 100 * p1,
                0 <= d <= 990,
                p1 >= 1,
                pd1 >= 0,
                e0 >= 0,
                ek >= 0,
                ek1 >= 0,
        ;
    }
}

} // verus!
