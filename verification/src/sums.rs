//! Sums over sequences of counters, with the small lemmas the load
//! accounting needs.

use vstd::prelude::*;

verus! {

/// Sum of a sequence of 64-bit values, as a mathematical integer.
pub open spec fn sum_u64(s: Seq<u64>) -> int
    decreases s.len(),
{
    if s.len() == 0 {
        0
    } else {
        sum_u64(s.drop_last()) + s.last()
    }
}

pub proof fn lemma_sum_nonneg(s: Seq<u64>)
    ensures
        sum_u64(s) >= 0,
    decreases s.len(),
{
    if s.len() > 0 {
        lemma_sum_nonneg(s.drop_last());
    }
}

/// Each element of a sequence of unsigned values is at most the whole sum.
pub proof fn lemma_elem_le_sum(s: Seq<u64>, i: int)
    requires
        0 <= i < s.len(),
    ensures
        s[i] <= sum_u64(s),
    decreases s.len(),
{
    lemma_sum_nonneg(s.drop_last());
    if i < s.len() - 1 {
        lemma_elem_le_sum(s.drop_last(), i);
    }
}

/// Replacing one element changes the sum by the difference.
pub proof fn lemma_sum_update(s: Seq<u64>, i: int, v: u64)
    requires
        0 <= i < s.len(),
    ensures
        sum_u64(s.update(i, v)) == sum_u64(s) - s[i] + v,
    decreases s.len(),
{
    if i == s.len() - 1 {
        assert(s.update(i, v).drop_last() =~= s.drop_last());
        assert(s.update(i, v).last() == v);
    } else {
        lemma_sum_update(s.drop_last(), i, v);
        assert(s.update(i, v).drop_last() =~= s.drop_last().update(i, v));
        assert(s.update(i, v).last() == s.last());
    }
}

/// The sum of a constant sequence is the length times the constant.
pub proof fn lemma_sum_const(s: Seq<u64>, v: u64)
    requires
        forall|j: int| 0 <= j < s.len() ==> s[j] == v,
    ensures
        sum_u64(s) == s.len() * v,
    decreases s.len(),
{
    if s.len() == 0 {
    } else {
        lemma_sum_const(s.drop_last(), v);
        assert(sum_u64(s) == (s.len() - 1) * v + v);
        assert((s.len() - 1) * v + v == s.len() * v) by (nonlinear_arith);
    }
}

} // verus!
