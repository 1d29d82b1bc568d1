use vstd::prelude::*;

use crate::common::TimeStep;
use vstd::relations::{sorted_by, total_ordering};

verus! {

broadcast use vstd::seq_lib::group_to_multiset_ensures;

/// The time steps of `steps`, as plain numbers.
pub open spec fn step_numbers(steps: Seq<TimeStep>) -> Seq<usize> {
    steps.map_values(|t: TimeStep| t.0)
}

/// The order "newer or same time step first".
pub open spec fn newer_first(a: usize, b: usize) -> bool {
    a >= b
}

/// The time steps of `steps` sorted newest to oldest, repeated steps kept.
pub open spec fn newest_first(steps: Seq<TimeStep>) -> Seq<usize> {
    step_numbers(steps).sort_by(|a: usize, b: usize| newer_first(a, b))
}

/// The positions, in increasing order, of the measurements in `steps` that
/// were made at time step `k`; these are fused into the measurement of `k`.
pub fn measurements_at(steps: &Vec<TimeStep>, k: usize) -> (picked: Vec<usize>)
    ensures
        forall|i: int, j: int| 0 <= i < j < picked@.len() ==> picked@[i] < picked@[j],
        forall|i: int|
            0 <= i < picked@.len() ==> #[trigger] picked@[i] < steps@.len() && steps@[picked@[i] as int].0
                == k,
        forall|q: int|
            0 <= q < steps@.len() && (#[trigger] steps@[q]).0 == k ==> picked@.contains(q as usize),
{
    let mut picked: Vec<usize> = Vec::new();
    let mut q: usize = 0;
    while q < steps.len()
        invariant
            q <= steps@.len(),
            forall|i: int, j: int| 0 <= i < j < picked@.len() ==> picked@[i] < picked@[j],
            forall|i: int|
                0 <= i < picked@.len() ==> #[trigger] picked@[i] < q && steps@[picked@[i] as int].0
                    == k,
            forall|p: int|
                0 <= p < q && (#[trigger] steps@[p]).0 == k ==> picked@.contains(p as usize),
        decreases steps@.len() - q,
    {
        let ghost prev = picked@;
        if steps[q].0 == k {
            picked.push(q);
            assert(picked@[picked@.len() - 1] == q);
            assert forall|p: int|
                0 <= p < q + 1 && (#[trigger] steps@[p]).0 == k implies picked@.contains(p as usize) by {
                if p < q {
                    let i = choose|i: int| 0 <= i < prev.len() && prev[i] == p as usize;
                    assert(picked@[i] == p as usize);
                }
            }
        }
        q = q + 1;
    }
    picked
}

/// The time steps to retrodict, newest to oldest: `steps` sorted in
/// descending order, repeated steps kept.
pub fn retrodiction_order(steps: &Vec<TimeStep>) -> (order: Vec<usize>)
    ensures
        order@ == newest_first(steps@),
        order@.len() == steps@.len(),
        order@.to_multiset() == step_numbers(steps@).to_multiset(),
        forall|i: int, j: int| 0 <= i < j < order@.len() ==> order@[i] >= order@[j],
{
    let mut order: Vec<usize> = Vec::new();
    let mut n: usize = 0;
    while n < steps.len()
        invariant
            n <= steps@.len(),
            order@.to_multiset() == step_numbers(steps@.take(n as int)).to_multiset(),
            forall|i: int, j: int| 0 <= i < j < order@.len() ==> order@[i] >= order@[j],
        decreases steps@.len() - n,
    {
        let x = steps[n].0;
        let mut p: usize = 0;
        while p < order.len() && order[p] >= x
            invariant
                p <= order@.len(),
                forall|i: int| 0 <= i < p ==> order@[i] >= x,
            decreases order@.len() - p,
        {
            p = p + 1;
        }
        let ghost old_order = order@;
        order.insert(p, x);
        proof {
            old_order.insert_ensures(p as int, x);
            assert(steps@.take(n + 1) =~= steps@.take(n as int).push(steps@[n as int]));
            assert(step_numbers(steps@.take(n + 1)) =~= step_numbers(steps@.take(n as int)).push(x));
            assert forall|i: int, j: int| 0 <= i < j < order@.len() implies order@[i] >= order@[j] by {
                if j < p {
                } else if j == p {
                } else if i < p {
                    assert(order@[j] == old_order[j - 1]);
                } else if i == p {
                    assert(order@[j] == old_order[j - 1]);
                    assert(old_order[p as int] < x);
                } else {
                    assert(order@[j] == old_order[j - 1]);
                    assert(order@[i] == old_order[i - 1]);
                }
            }
        }
        n = n + 1;
    }
    assert(steps@.take(steps@.len() as int) =~= steps@);
    proof {
        let leq = |a: usize, b: usize| newer_first(a, b);
        assert(total_ordering(leq));
        step_numbers(steps@).lemma_sort_by_ensures(leq);
        assert(sorted_by(order@, leq));
        vstd::seq_lib::lemma_sorted_unique(order@, newest_first(steps@), leq);
        assert(order@.to_multiset().len() == step_numbers(steps@).to_multiset().len());
    }
    order
}

/// The newest-first order of a list of time steps holds the same steps,
/// each as often, from the newest to the oldest.
pub proof fn lemma_newest_first(steps: Seq<TimeStep>)
    ensures
        step_numbers(steps).len() == steps.len(),
        forall|i: int| 0 <= i < steps.len() ==> #[trigger] step_numbers(steps)[i] == steps[i].0,
        newest_first(steps).len() == steps.len(),
        newest_first(steps).to_multiset() == step_numbers(steps).to_multiset(),
        forall|i: int, j: int|
            0 <= i < j < newest_first(steps).len() ==> newest_first(steps)[i] >= newest_first(steps)[j],
{
    let leq = |a: usize, b: usize| newer_first(a, b);
    assert(total_ordering(leq));
    step_numbers(steps).lemma_sort_by_ensures(leq);
    assert(newest_first(steps).to_multiset().len() == step_numbers(steps).to_multiset().len());
    assert forall|i: int, j: int|
        0 <= i < j < newest_first(steps).len() implies newest_first(steps)[i] >= newest_first(steps)[j] by {
        assert(leq(newest_first(steps)[i], newest_first(steps)[j]));
    }
}

} // verus!
