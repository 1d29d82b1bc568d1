use vstd::prelude::*;

use crate::kalman_store::{is_latest, KalmanStore};

verus! {

/// A Kalman point that is on screen: the time step it shows and the time
/// step of the sensor data its estimate is based on.
#[derive(Clone, Copy, Debug, PartialEq, Eq, Structural)]
pub struct RenderedPoint {
    pub step: usize,
    pub based_on: usize,
}

/// A Kalman point to put on screen: the estimate `g_{step|based_on}`, and
/// the index (in the list of rendered points) of the point it replaces.
#[derive(Clone, Copy, Debug, PartialEq, Eq, Structural)]
pub struct RenderUpdate {
    pub step: usize,
    pub based_on: usize,
    pub replaces: Option<usize>,
}

/// `idx` is the first rendered point that shows time step `k`.
pub open spec fn is_first_rendered(rendered: Seq<RenderedPoint>, k: int, idx: int) -> bool {
    &&& 0 <= idx < rendered.len()
    &&& rendered[idx].step == k
    &&& forall|q: int| 0 <= q < idx ==> (#[trigger] rendered[q]).step != k
}

/// No rendered point shows time step `k`.
pub open spec fn never_rendered(rendered: Seq<RenderedPoint>, k: int) -> bool {
    forall|q: int| 0 <= q < rendered.len() ==> (#[trigger] rendered[q]).step != k
}

/// The point rendered for time step `k` already shows the estimate based on `b`.
pub open spec fn is_up_to_date(rendered: Seq<RenderedPoint>, k: int, b: int) -> bool {
    exists|idx: int| #[trigger] is_first_rendered(rendered, k, idx) && rendered[idx].based_on == b
}

/// `u` shows the latest estimate of its time step, and replaces the point
/// shown for that time step, which shows another estimate, if there is one.
pub open spec fn is_needed_update<G>(
    estimates: Map<(int, int), G>,
    rendered: Seq<RenderedPoint>,
    u: RenderUpdate,
) -> bool {
    &&& is_latest(estimates, u.step as int, u.based_on as int)
    &&& match u.replaces {
        Some(idx) => is_first_rendered(rendered, u.step as int, idx as int)
            && rendered[idx as int].based_on != u.based_on,
        None => never_rendered(rendered, u.step as int),
    }
}

/// The first rendered point that shows time step `k`.
fn first_rendered(rendered: &Vec<RenderedPoint>, k: usize) -> (idx: Option<usize>)
    ensures
        match idx {
            Some(i) => is_first_rendered(rendered@, k as int, i as int),
            None => never_rendered(rendered@, k as int),
        },
{
    let mut q: usize = 0;
    while q < rendered.len()
        invariant
            q <= rendered@.len(),
            forall|p: int| 0 <= p < q ==> (#[trigger] rendered@[p]).step != k,
        decreases rendered@.len() - q,
    {
        if rendered[q].step == k {
            return Some(q);
        }
        q = q + 1;
    }
    None
}

/// Decide which Kalman points to render: for each time step, the latest
/// estimate (x_{k|latest}) is to be shown; a time step whose shown point
/// already is that estimate is skipped, else the point for it is created,
/// replacing the one shown so far.
///
/// `rendered` lists the points on screen; when several show one time step,
/// the first of them is the one that is compared and replaced.
pub fn render_kalman_points<M, G>(kalman_store: &KalmanStore<M, G>, rendered: &Vec<RenderedPoint>) -> (updates: Vec<RenderUpdate>)
    requires
        kalman_store.wf(),
    ensures
        forall|i: int|
            0 <= i < updates@.len() ==> is_needed_update(
                kalman_store.estimates(),
                rendered@,
                #[trigger] updates@[i],
            ),
        forall|i: int, j: int|
            0 <= i < j < updates@.len() ==> (#[trigger] updates@[i]).step < (#[trigger] updates@[j]).step,
        forall|k: int, b: int|
            #[trigger] is_latest(kalman_store.estimates(), k, b) && !is_up_to_date(rendered@, k, b)
                ==> exists|i: int| 0 <= i < updates@.len() && (#[trigger] updates@[i]).step == k,
{
    let ghost est = kalman_store.estimates();
    let n = kalman_store.num_rows();
    let mut updates: Vec<RenderUpdate> = Vec::new();
    let mut k: usize = 0;
    while k < n
        invariant
            k <= n,
            est == kalman_store.estimates(),
            kalman_store.wf(),
            forall|i: int, given: int| #[trigger] est.contains_key((i, given)) ==> 0 <= i < n,
            forall|i: int|
                0 <= i < updates@.len() ==> is_needed_update(est, rendered@, #[trigger] updates@[i]),
            forall|i: int| 0 <= i < updates@.len() ==> (#[trigger] updates@[i]).step < k,
            forall|i: int, j: int|
                0 <= i < j < updates@.len() ==> (#[trigger] updates@[i]).step < (#[trigger] updates@[j]).step,
            forall|k2: int, b: int|
                0 <= k2 < k && #[trigger] is_latest(est, k2, b) && !is_up_to_date(rendered@, k2, b)
                    ==> exists|i: int| 0 <= i < updates@.len() && (#[trigger] updates@[i]).step == k2,
        decreases n - k,
    {
        let ghost prev = updates@;
        match kalman_store.latest_given(k) {
            None => {
                assert forall|b: int| !is_latest(est, k as int, b) by {
                    assert(!est.contains_key((k as int, b)));
                }
            },
            Some(b) => {
                let cur = first_rendered(rendered, k);
                let mut push = true;
                match cur {
                    Some(idx) => {
                        if rendered[idx].based_on == b {
                            push = false;
                            assert forall|b2: int| is_latest(est, k as int, b2) implies is_up_to_date(rendered@, k as int, b2) by {
                                if b2 > b {
                                    assert(!est.contains_key((k as int, b2)));
                                } else if b2 < b {
                                    assert(!est.contains_key((k as int, b as int)));
                                }
                                assert(is_first_rendered(rendered@, k as int, idx as int));
                            }
                        }
                    },
                    None => {},
                }
                if push {
                    let u = RenderUpdate { step: k, based_on: b, replaces: cur };
                    updates.push(u);
                    assert(updates@[updates@.len() - 1] == u);
                }
            },
        }
        assert forall|k2: int, b2: int|
            0 <= k2 < k + 1 && #[trigger] is_latest(est, k2, b2) && !is_up_to_date(rendered@, k2, b2)
            implies exists|i: int| 0 <= i < updates@.len() && (#[trigger] updates@[i]).step == k2 by {
            if k2 < k {
                let i = choose|i: int| 0 <= i < prev.len() && (#[trigger] prev[i]).step == k2;
                assert(updates@[i] == prev[i]);
            } else {
                assert(updates@[updates@.len() - 1].step == k);
            }
        }
        k = k + 1;
    }
    assert forall|k2: int, b2: int|
        #[trigger] is_latest(est, k2, b2) && !is_up_to_date(rendered@, k2, b2)
        implies exists|i: int| 0 <= i < updates@.len() && (#[trigger] updates@[i]).step == k2 by {
        assert(est.contains_key((k2, b2)));
    }
    updates
}

} // verus!

verus! {

/// What a render plan is, spelled out over the estimates and the points on
/// screen: each update shows the latest estimate `g_{k|b}` of its time step
/// `k` (no estimate of `k` is based on a later step) and replaces the first
/// point shown for `k`, which shows another estimate, or, when no point
/// shows `k`, nothing; updates come in increasing time steps; and every time
/// step whose first shown point is not its latest estimate — whatever that
/// point shows instead, older or newer — gets an update.
pub proof fn lemma_render_plan<G>(
    estimates: Map<(int, int), G>,
    rendered: Seq<RenderedPoint>,
    updates: Seq<RenderUpdate>,
)
    requires
        forall|i: int|
            0 <= i < updates.len() ==> is_needed_update(estimates, rendered, #[trigger] updates[i]),
        forall|i: int, j: int|
            0 <= i < j < updates.len() ==> (#[trigger] updates[i]).step < (#[trigger] updates[j]).step,
        forall|k: int, b: int|
            #[trigger] is_latest(estimates, k, b) && !is_up_to_date(rendered, k, b) ==> exists|i: int|
                0 <= i < updates.len() && (#[trigger] updates[i]).step == k,
    ensures
        forall|i: int|
            0 <= i < updates.len() ==> {
                &&& estimates.contains_key(((#[trigger] updates[i]).step as int, updates[i].based_on as int))
                &&& forall|j: int|
                    j > updates[i].based_on ==> !estimates.contains_key((updates[i].step as int, j))
                &&& match updates[i].replaces {
                    Some(idx) => {
                        &&& idx < rendered.len()
                        &&& rendered[idx as int].step == updates[i].step
                        &&& rendered[idx as int].based_on != updates[i].based_on
                        &&& forall|q: int| 0 <= q < idx ==> rendered[q].step != updates[i].step
                    },
                    None => forall|q: int| 0 <= q < rendered.len() ==> rendered[q].step != updates[i].step,
                }
            },
        forall|i: int, j: int|
            0 <= i < j < updates.len() ==> (#[trigger] updates[i]).step < (#[trigger] updates[j]).step,
        forall|k: int, b: int, idx: int|
            #[trigger] estimates.contains_key((k, b)) && (forall|j: int| j > b ==> !estimates.contains_key((k, j)))
                && 0 <= idx < rendered.len() && #[trigger] rendered[idx].step == k
                && (forall|q: int| 0 <= q < idx ==> rendered[q].step != k)
                && rendered[idx].based_on != b
                ==> exists|i: int|
                0 <= i < updates.len() && (#[trigger] updates[i]).step == k && updates[i].based_on == b
                    && updates[i].replaces == Some(idx as usize),
        forall|k: int, b: int|
            #[trigger] estimates.contains_key((k, b)) && (forall|j: int| j > b ==> !estimates.contains_key((k, j)))
                && (forall|q: int| 0 <= q < rendered.len() ==> rendered[q].step != k)
                ==> exists|i: int|
                0 <= i < updates.len() && (#[trigger] updates[i]).step == k && updates[i].based_on == b
                    && updates[i].replaces is None,
{
    assert forall|i: int| 0 <= i < updates.len() implies {
        &&& estimates.contains_key(((#[trigger] updates[i]).step as int, updates[i].based_on as int))
        &&& forall|j: int|
            j > updates[i].based_on ==> !estimates.contains_key((updates[i].step as int, j))
        &&& match updates[i].replaces {
            Some(idx) => {
                &&& idx < rendered.len()
                &&& rendered[idx as int].step == updates[i].step
                &&& rendered[idx as int].based_on != updates[i].based_on
                &&& forall|q: int| 0 <= q < idx ==> rendered[q].step != updates[i].step
            },
            None => forall|q: int| 0 <= q < rendered.len() ==> rendered[q].step != updates[i].step,
        }
    } by {
        assert(is_needed_update(estimates, rendered, updates[i]));
        let u = updates[i];
        assert forall|j: int| j > u.based_on implies !estimates.contains_key((u.step as int, j)) by {
            assert(!estimates.contains_key((u.step as int, j)));
        }
        match u.replaces {
            Some(idx) => {
                assert forall|q: int| 0 <= q < idx implies rendered[q].step != u.step by {
                    assert(rendered[q].step != u.step);
                }
            },
            None => {
                assert forall|q: int| 0 <= q < rendered.len() implies rendered[q].step != u.step by {
                    assert(rendered[q].step != u.step);
                }
            },
        }
    }
    assert forall|k: int, b: int, idx: int|
        #[trigger] estimates.contains_key((k, b)) && (forall|j: int| j > b ==> !estimates.contains_key((k, j)))
            && 0 <= idx < rendered.len() && #[trigger] rendered[idx].step == k
            && (forall|q: int| 0 <= q < idx ==> rendered[q].step != k)
            && rendered[idx].based_on != b
        implies exists|i: int|
            0 <= i < updates.len() && (#[trigger] updates[i]).step == k && updates[i].based_on == b
                && updates[i].replaces == Some(idx as usize) by {
        assert(is_latest(estimates, k, b));
        assert(is_first_rendered(rendered, k, idx));
        assert(!is_up_to_date(rendered, k, b)) by {
            if is_up_to_date(rendered, k, b) {
                let idx2 = choose|idx2: int| #[trigger] is_first_rendered(rendered, k, idx2) && rendered[idx2].based_on == b;
                if idx2 < idx {
                    assert(rendered[idx2].step != k);
                } else if idx < idx2 {
                    assert(rendered[idx].step != k);
                }
            }
        }
        let i = choose|i: int| 0 <= i < updates.len() && (#[trigger] updates[i]).step == k;
        let u = updates[i];
        assert(is_needed_update(estimates, rendered, u));
        if u.based_on != b {
            if u.based_on > b {
                assert(!estimates.contains_key((k, u.based_on as int)));
            } else {
                assert(!estimates.contains_key((k, b)));
            }
        }
        match u.replaces {
            Some(idx2) => {
                if (idx2 as int) < idx {
                    assert(rendered[idx2 as int].step != k);
                } else if idx < idx2 {
                    assert(rendered[idx].step != k);
                }
            },
            None => {
                assert(rendered[idx].step != k);
            },
        }
    }
    assert forall|k: int, b: int|
        #[trigger] estimates.contains_key((k, b)) && (forall|j: int| j > b ==> !estimates.contains_key((k, j)))
            && (forall|q: int| 0 <= q < rendered.len() ==> rendered[q].step != k)
        implies exists|i: int|
            0 <= i < updates.len() && (#[trigger] updates[i]).step == k && updates[i].based_on == b
                && updates[i].replaces is None by {
        assert(is_latest(estimates, k, b));
        assert(!is_up_to_date(rendered, k, b)) by {
            if is_up_to_date(rendered, k, b) {
                let idx2 = choose|idx2: int| #[trigger] is_first_rendered(rendered, k, idx2) && rendered[idx2].based_on == b;
                assert(rendered[idx2].step != k);
            }
        }
        let i = choose|i: int| 0 <= i < updates.len() && (#[trigger] updates[i]).step == k;
        let u = updates[i];
        assert(is_needed_update(estimates, rendered, u));
        if u.based_on != b {
            if u.based_on > b {
                assert(!estimates.contains_key((k, u.based_on as int)));
            } else {
                assert(!estimates.contains_key((k, b)));
            }
        }
        match u.replaces {
            Some(idx2) => {
                assert(rendered[idx2 as int].step != k);
            },
            None => {},
        }
    }
}

} // verus!
