use vstd::prelude::*;

use crate::common::TimeStep;
use crate::schedule::{newest_first, retrodiction_order};

verus! {

/// What the filter does with a newly recorded measurement.
#[derive(Clone, Copy, Debug, PartialEq, Eq, Structural)]
pub enum KalmanAction {
    /// The filter has no estimate yet: initiate it from the first measurement.
    Initiate,
    /// Predict the estimate of this time step from the one before it.
    Predict(TimeStep),
}

/// The results of the Kalman filter, kept in an upper right corner matrix,
/// together with the fused measurements the filter is fed with.
///
/// `M` is a fused measurement (its position and error covariance), `G` an
/// estimate: the Gaussian `g_{i|given}` for time step `i`, based on the
/// measurements up to time step `given`.
pub struct KalmanStore<M, G> {
    /// fused measurements, one per time step
    measurements: Vec<M>,
    /// `data[i][given]` holds `g_{i|given}`
    data: Vec<Vec<Option<G>>>,
}

impl<M, G> KalmanStore<M, G> {
    /// The table is a non-empty rectangle: every row has as many columns as the first.
    pub closed spec fn wf(&self) -> bool {
        &&& self.data@.len() >= 1
        &&& forall|r: int|
            0 <= r < self.data@.len() ==> #[trigger] self.data@[r]@.len() == self.data@[0]@.len()
    }

    /// Number of rows of the table (time steps it has room for).
    pub closed spec fn rows(&self) -> nat {
        self.data@.len()
    }

    /// Number of columns of the table.
    pub closed spec fn cols(&self) -> nat {
        self.data@[0]@.len()
    }

    /// The cell `(i, given)`; `None` outside the table.
    pub closed spec fn cell(&self, i: int, given: int) -> Option<G> {
        if 0 <= i < self.data@.len() && 0 <= given < self.data@[i]@.len() {
            self.data@[i]@[given]
        } else {
            None
        }
    }

    /// The estimates stored so far, keyed by `(i, given)`.
    pub closed spec fn estimates(&self) -> Map<(int, int), G> {
        Map::new(
            |key: (int, int)| self.cell(key.0, key.1) is Some,
            |key: (int, int)| self.cell(key.0, key.1)->0,
        )
    }

    /// The fused measurements recorded so far, in time step order.
    pub closed spec fn measurement_log(&self) -> Seq<M> {
        self.measurements@
    }

    /// Get the Gaussian `g_{i|given}`.
    pub fn get(&self, i: usize, given: usize) -> (res: Option<&G>)
        requires
            self.wf(),
        ensures
            res == (if self.estimates().contains_key((i as int, given as int)) {
                Some(&self.estimates()[(i as int, given as int)])
            } else {
                None
            }),
    {
        if i < self.data.len() && given < self.data[i].len() {
            match &self.data[i][given] {
                Some(g) => Some(g),
                None => None,
            }
        } else {
            None
        }
    }

    /// A row of `n` empty cells.
    fn empty_row(n: usize) -> (row: Vec<Option<G>>)
        ensures
            row@.len() == n,
            forall|j: int| 0 <= j < n ==> #[trigger] row@[j] is None,
    {
        let mut row: Vec<Option<G>> = Vec::new();
        let mut c: usize = 0;
        while c < n
            invariant
                c <= n,
                row@.len() == c,
                forall|j: int| 0 <= j < c ==> #[trigger] row@[j] is None,
            decreases n - c,
        {
            row.push(None);
            c = c + 1;
        }
        row
    }

    /// Append `n` empty cells to `row`.
    fn extend_row(row: &mut Vec<Option<G>>, n: usize)
        ensures
            final(row)@.len() == old(row)@.len() + n,
            forall|j: int| 0 <= j < old(row)@.len() ==> #[trigger] final(row)@[j] == old(row)@[j],
            forall|j: int|
                old(row)@.len() <= j < old(row)@.len() + n ==> #[trigger] final(row)@[j] is None,
    {
        let mut c: usize = 0;
        while c < n
            invariant
                c <= n,
                row@.len() == old(row)@.len() + c,
                forall|j: int| 0 <= j < old(row)@.len() ==> #[trigger] row@[j] == old(row)@[j],
                forall|j: int|
                    old(row)@.len() <= j < old(row)@.len() + c ==> #[trigger] row@[j] is None,
            decreases n - c,
        {
            row.push(None);
            c = c + 1;
        }
    }

    /// Set the Gaussian at `g_{i|given}`, growing the table with empty
    /// rows and columns where it is too small.
    pub fn set(&mut self, i: usize, given: usize, gaussian: G)
        requires
            old(self).wf(),
            i < usize::MAX,
            given < usize::MAX,
        ensures
            final(self).wf(),
            final(self).estimates() == old(self).estimates().insert(
                (i as int, given as int),
                gaussian,
            ),
            final(self).measurement_log() == old(self).measurement_log(),
            final(self).rows() == grown(old(self).rows(), i as int),
            final(self).cols() == grown(old(self).cols(), given as int),
    {
        let ghost old_data = self.data@;
        // fill in missing rows
        let num_cols = self.data[0].len();
        if i >= self.data.len() {
            let missing_rows = 1 + i - self.data.len();
            let mut k: usize = 0;
            while k < missing_rows
                invariant
                    k <= missing_rows,
                    self.measurements@ == old(self).measurements@,
                    missing_rows == 1 + i - old_data.len(),
                    num_cols == old_data[0]@.len(),
                    self.data@.len() == old_data.len() + k,
                    forall|r: int| 0 <= r < old_data.len() ==> #[trigger] self.data@[r] == old_data[r],
                    forall|r: int|
                        0 <= r < self.data@.len() ==> #[trigger] self.data@[r]@.len() == num_cols,
                    forall|r: int, j: int|
                        old_data.len() <= r < self.data@.len() && 0 <= j < num_cols
                            ==> #[trigger] self.data@[r]@[j] is None,
                    old_data.len() >= 1,
                    forall|r: int|
                        0 <= r < old_data.len() ==> #[trigger] old_data[r]@.len() == num_cols,
                decreases missing_rows - k,
            {
                let row = Self::empty_row(num_cols);
                self.data.push(row);
                k = k + 1;
            }
        }
        let ghost mid_data = self.data@;
        assert(mid_data.len() >= old_data.len());
        assert(mid_data.len() > i);
        // fill in missing cols
        if given >= num_cols {
            let missing_cols = 1 + given - num_cols;
            let mut r: usize = 0;
            while r < self.data.len()
                invariant
                    r <= self.data@.len(),
                    self.measurements@ == old(self).measurements@,
                    self.data@.len() == mid_data.len(),
                    missing_cols == 1 + given - num_cols,
                    forall|q: int| 0 <= q < mid_data.len() ==> #[trigger] mid_data[q]@.len() == num_cols,
                    forall|q: int| 0 <= q < r ==> #[trigger] self.data@[q]@.len() == given + 1,
                    forall|q: int| r <= q < mid_data.len() ==> #[trigger] self.data@[q] == mid_data[q],
                    forall|q: int, j: int|
                        0 <= q < r && 0 <= j < num_cols ==> #[trigger] self.data@[q]@[j]
                            == mid_data[q]@[j],
                    forall|q: int, j: int|
                        0 <= q < r && num_cols <= j <= given ==> #[trigger] self.data@[q]@[j] is None,
                decreases mid_data.len() - r,
            {
                Self::extend_row(&mut self.data[r], missing_cols);
                r = r + 1;
            }
        }
        // set the data
        self.data[i][given] = Some(gaussian);
    }
}

impl<M, G> KalmanStore<M, G> {
    /// Number of measurements recorded so far; also the time step of the
    /// next one.
    pub fn measurement_count(&self) -> (n: usize)
        ensures
            n == self.measurement_log().len(),
    {
        self.measurements.len()
    }

    /// The fused measurement of time step `k`.
    pub fn measurement(&self, k: usize) -> (z: Option<&M>)
        ensures
            z == (if k < self.measurement_log().len() {
                Some(&self.measurement_log()[k as int])
            } else {
                None
            }),
    {
        if k < self.measurements.len() {
            Some(&self.measurements[k])
        } else {
            None
        }
    }

    /// Add the fused measurement of the next time step to the store and
    /// say what the filter does next: initiate when there is no `g_{0|0}`
    /// yet, else predict the time step of this measurement.
    pub fn push_measurement(&mut self, z: M) -> (action: KalmanAction)
        requires
            old(self).wf(),
        ensures
            final(self).wf(),
            final(self).measurement_log() == old(self).measurement_log().push(z),
            final(self).estimates() == old(self).estimates(),
            final(self).rows() == old(self).rows(),
            final(self).cols() == old(self).cols(),
            action == (if old(self).estimates().contains_key((0, 0)) {
                KalmanAction::Predict(TimeStep(old(self).measurement_log().len() as usize))
            } else {
                KalmanAction::Initiate
            }),
    {
        let latest_k = self.measurements.len();
        self.measurements.push(z);
        if self.get(0, 0).is_none() {
            KalmanAction::Initiate
        } else {
            KalmanAction::Predict(TimeStep(latest_k))
        }
    }

    /// Initiate the filter: `g_{0|0}` is computed by `init` from the first
    /// measurement.
    pub fn initiate<F: Fn(&M) -> G>(&mut self, init: F)
        requires
            old(self).wf(),
            old(self).measurement_log().len() >= 1,
            call_requires(init, (&old(self).measurement_log()[0],)),
        ensures
            final(self).wf(),
            final(self).measurement_log() == old(self).measurement_log(),
            final(self).rows() == old(self).rows(),
            final(self).cols() == grown(old(self).cols(), 0),
            exists|g: G|
                #[trigger] call_ensures(init, (&old(self).measurement_log()[0],), g)
                    && final(self).estimates() == old(self).estimates().insert((0, 0), g),
    {
        let g = init(&self.measurements[0]);
        self.set(0, 0, g);
    }

    /// Prediction for time step `k`: `g_{k|k-1}` is computed by `predict`
    /// from `g_{k-1|k-1}`. Returns `false`, changing nothing, when
    /// `g_{k-1|k-1}` is not there yet.
    pub fn prediction<F: Fn(&G) -> G>(&mut self, k: TimeStep, predict: F) -> (done: bool)
        requires
            old(self).wf(),
            1 <= k.0,
            old(self).estimates().contains_key((k.0 - 1, k.0 - 1)) ==> k.0 < usize::MAX,
            forall|prev: &G| call_requires(predict, (prev,)),
        ensures
            final(self).wf(),
            final(self).measurement_log() == old(self).measurement_log(),
            done == old(self).estimates().contains_key((k.0 - 1, k.0 - 1)),
            !done ==> final(self).estimates() == old(self).estimates(),
            !done ==> final(self).rows() == old(self).rows() && final(self).cols()
                == old(self).cols(),
            done ==> final(self).rows() == grown(old(self).rows(), k.0 as int)
                && final(self).cols() == grown(old(self).cols(), k.0 - 1),
            done ==> exists|g: G|
                #[trigger] call_ensures(predict, (&old(self).estimates()[(k.0 - 1, k.0 - 1)],), g)
                    && final(self).estimates() == old(self).estimates().insert(
                    (k.0 as int, k.0 - 1),
                    g,
                ),
    {
        let g = match self.get(k.0 - 1, k.0 - 1) {
            Some(prev) => predict(prev),
            None => {
                return false;
            },
        };
        self.set(k.0, k.0 - 1, g);
        true
    }

    /// Filtering for time step `k`: `g_{k|k}` is computed by `filter` from
    /// the prediction `g_{k|k-1}` and the measurement of time step `k`.
    /// Returns `false`, changing nothing, when the prediction is not there
    /// yet.
    pub fn filtering<F: Fn(&G, &M) -> G>(&mut self, k: TimeStep, filter: F) -> (done: bool)
        requires
            old(self).wf(),
            1 <= k.0,
            old(self).estimates().contains_key((k.0 as int, k.0 - 1)) ==> k.0 < usize::MAX
                && k.0 < old(self).measurement_log().len(),
            forall|pred: &G, z: &M| call_requires(filter, (pred, z)),
        ensures
            final(self).wf(),
            final(self).measurement_log() == old(self).measurement_log(),
            done == old(self).estimates().contains_key((k.0 as int, k.0 - 1)),
            !done ==> final(self).estimates() == old(self).estimates(),
            !done ==> final(self).rows() == old(self).rows() && final(self).cols()
                == old(self).cols(),
            done ==> final(self).rows() == grown(old(self).rows(), k.0 as int)
                && final(self).cols() == grown(old(self).cols(), k.0 as int),
            done ==> exists|g: G|
                #[trigger] call_ensures(
                    filter,
                    (
                        &old(self).estimates()[(k.0 as int, k.0 - 1)],
                        &old(self).measurement_log()[k.0 as int],
                    ),
                    g,
                ) && final(self).estimates() == old(self).estimates().insert(
                    (k.0 as int, k.0 as int),
                    g,
                ),
    {
        let g = match self.get(k.0, k.0 - 1) {
            Some(pred) => filter(pred, &self.measurements[k.0]),
            None => {
                return false;
            },
        };
        self.set(k.0, k.0, g);
        true
    }

    /// One step of the retrodiction for time step `k`: `g_{l|k}` is computed
    /// by `smooth` from `g_{l|l}`, `g_{l+1|l}` and `g_{l+1|k}`.
    fn retrodiction_step<F: Fn(&G, &G, &G) -> G>(&mut self, l: usize, k: usize, smooth: &F)
        requires
            old(self).wf(),
            l < usize::MAX,
            k < usize::MAX,
            old(self).estimates().contains_key((l as int, l as int)),
            old(self).estimates().contains_key((l + 1, l as int)),
            old(self).estimates().contains_key((l + 1, k as int)),
            forall|cur: &G, next_pred: &G, next_smooth: &G|
                call_requires(*smooth, (cur, next_pred, next_smooth)),
        ensures
            final(self).wf(),
            final(self).measurement_log() == old(self).measurement_log(),
            final(self).rows() == grown(old(self).rows(), l as int),
            final(self).cols() == grown(old(self).cols(), k as int),
            exists|g: G|
                #[trigger] call_ensures(
                    *smooth,
                    (
                        &old(self).estimates()[(l as int, l as int)],
                        &old(self).estimates()[(l + 1, l as int)],
                        &old(self).estimates()[(l + 1, k as int)],
                    ),
                    g,
                ) && final(self).estimates() == old(self).estimates().insert(
                    (l as int, k as int),
                    g,
                ),
    {
        let g = match (self.get(l, l), self.get(l + 1, l), self.get(l + 1, k)) {
            (Some(cur), Some(next_pred), Some(next_smooth)) => smooth(cur, next_pred, next_smooth),
            _ => {
                proof {
                    assert(false);
                }
                return;
            },
        };
        self.set(l, k, g);
    }

    /// Whether `a` is one of the first `t` entries of `order`.
    fn occurs_before(order: &Vec<usize>, t: usize, a: usize) -> (found: bool)
        requires
            t <= order@.len(),
        ensures
            found == exists|u: int| 0 <= u < t && #[trigger] order@[u] == a,
    {
        let mut u: usize = 0;
        while u < t
            invariant
                t <= order@.len(),
                u <= t,
                forall|v: int| 0 <= v < u ==> #[trigger] order@[v] != a,
            decreases t - u,
        {
            if order[u] == a {
                return true;
            }
            u = u + 1;
        }
        false
    }

    /// Whether `g_{a|b}` is there when the retrodiction for `k` has done the
    /// first `t` steps of `order`.
    fn present_at(&self, order: &Vec<usize>, k: usize, t: usize, a: usize, b: usize) -> (found: bool)
        requires
            self.wf(),
            t <= order@.len(),
        ensures
            found == stored_by_step(self.estimates(), order@, k as int, t as int, a as int, b as int),
    {
        self.get(a, b).is_some() || (b == k && Self::occurs_before(order, t, a))
    }

    /// Whether the retrodiction for `k` over `order` finds all its inputs.
    fn retrodiction_feasible(&self, order: &Vec<usize>, k: usize) -> (ok: bool)
        requires
            self.wf(),
        ensures
            ok == retrodiction_possible(self.estimates(), order@, k as int),
    {
        let mut t: usize = 0;
        while t < order.len()
            invariant
                self.wf(),
                t <= order@.len(),
                forall|u: int| 0 <= u < t ==> #[trigger] inputs_ready(self.estimates(), order@, k as int, u),
            decreases order@.len() - t,
        {
            let l = order[t];
            if l == usize::MAX || k == usize::MAX {
                assert(!inputs_ready(self.estimates(), order@, k as int, t as int));
                return false;
            }
            if !(self.present_at(order, k, t, l, l) && self.present_at(order, k, t, l + 1, l)
                && self.present_at(order, k, t, l + 1, k)) {
                assert(!inputs_ready(self.estimates(), order@, k as int, t as int));
                return false;
            }
            assert(inputs_ready(self.estimates(), order@, k as int, t as int));
            t = t + 1;
        }
        true
    }

    /// Perform the retrodiction for time step `k` over the rendered time
    /// steps `steps`, newest to oldest: each `g_{l|k}` is computed by
    /// `smooth` from `g_{l|l}`, `g_{l+1|l}` and `g_{l+1|k}`, the last
    /// possibly written just before. Returns `false`, changing nothing, when
    /// an input would be missing on the way.
    pub fn retrodiction<F: Fn(&G, &G, &G) -> G>(&mut self, steps: &Vec<TimeStep>, k: TimeStep, smooth: F) -> (done: bool)
        requires
            old(self).wf(),
            forall|cur: &G, next_pred: &G, next_smooth: &G|
                call_requires(smooth, (cur, next_pred, next_smooth)),
        ensures
            final(self).wf(),
            final(self).measurement_log() == old(self).measurement_log(),
            done == forall|t: int|
                0 <= t < newest_first(steps@).len() ==> {
                    let l = #[trigger] newest_first(steps@)[t] as int;
                    &&& l < usize::MAX
                    &&& k.0 < usize::MAX
                    &&& (old(self).estimates().contains_key((l, l)) || (l == k.0 && exists|u: int|
                        0 <= u < t && newest_first(steps@)[u] as int == l))
                    &&& (old(self).estimates().contains_key((l + 1, l)) || (l == k.0 && exists|u: int|
                        0 <= u < t && newest_first(steps@)[u] as int == l + 1))
                    &&& (old(self).estimates().contains_key((l + 1, k.0 as int)) || exists|u: int|
                        0 <= u < t && newest_first(steps@)[u] as int == l + 1)
                },
            !done ==> final(self).estimates() == old(self).estimates(),
            !done || steps@.len() == 0 ==> final(self).rows() == old(self).rows()
                && final(self).cols() == old(self).cols(),
            done && steps@.len() > 0 ==> final(self).rows() == grown(
                old(self).rows(),
                newest_first(steps@)[0] as int,
            ) && final(self).cols() == grown(old(self).cols(), k.0 as int),
            done ==> retrodicted(
                smooth,
                old(self).estimates(),
                newest_first(steps@),
                k.0 as int,
                final(self).estimates(),
            ),
            done ==> forall|t: int|
                0 <= t < newest_first(steps@).len() ==> final(self).estimates().contains_key(
                    (#[trigger] newest_first(steps@)[t] as int, k.0 as int),
                ),
            done ==> forall|a: int, b: int|
                !(b == k.0 && exists|u: int|
                    0 <= u < newest_first(steps@).len() && newest_first(steps@)[u] as int == a)
                    ==> (#[trigger] final(self).estimates().contains_key((a, b))
                    == old(self).estimates().contains_key((a, b)) && (old(self).estimates().contains_key(
                    (a, b),
                ) ==> final(self).estimates()[(a, b)] == old(self).estimates()[(a, b)])),
    {
        let order = retrodiction_order(steps);
        let k = k.0;
        proof {
            lemma_retrodiction_possible_iff(self.estimates(), order@, k as int);
        }
        if !self.retrodiction_feasible(&order, k) {
            return false;
        }
        let ghost pre = self.estimates();
        let ghost pre_rows = self.rows();
        let ghost pre_cols = self.cols();
        let mut t: usize = 0;
        while t < order.len()
            invariant
                self.wf(),
                t <= order@.len(),
                self.measurement_log() == old(self).measurement_log(),
                pre == old(self).estimates(),
                pre_rows == old(self).rows(),
                pre_cols == old(self).cols(),
                retrodiction_possible(pre, order@, k as int),
                forall|i: int, j: int| 0 <= i < j < order@.len() ==> order@[i] >= order@[j],
                forall|a: int, b: int|
                    #[trigger] self.estimates().contains_key((a, b)) == stored_by_step(
                        pre,
                        order@,
                        k as int,
                        t as int,
                        a,
                        b,
                    ),
                forall|a: int, b: int|
                    !written_before(order@, k as int, t as int, a, b) && pre.contains_key((a, b))
                        ==> #[trigger] self.estimates()[(a, b)] == pre[(a, b)],
                retrodicted(smooth, pre, order@.take(t as int), k as int, self.estimates()),
                t == 0 ==> self.rows() == pre_rows && self.cols() == pre_cols,
                t > 0 ==> self.rows() == grown(pre_rows, order@[0] as int) && self.cols() == grown(
                    pre_cols,
                    k as int,
                ),
                forall|cur: &G, next_pred: &G, next_smooth: &G|
                    call_requires(smooth, (cur, next_pred, next_smooth)),
            decreases order@.len() - t,
        {
            let l = order[t];
            assert(inputs_ready(pre, order@, k as int, t as int));
            let ghost cur = self.estimates();
            assert(self.estimates().contains_key((l as int, l as int)));
            assert(self.estimates().contains_key((l + 1, l as int)));
            assert(self.estimates().contains_key((l + 1, k as int)));
            self.retrodiction_step(l, k, &smooth);
            proof {
                let g = choose|g: G|
                    #[trigger] call_ensures(
                        smooth,
                        (&cur[(l as int, l as int)], &cur[(l + 1, l as int)], &cur[(l + 1, k as int)]),
                        g,
                    ) && self.estimates() == cur.insert((l as int, k as int), g);
                lemma_retrodicted_push(smooth, pre, order@.take(t as int), k as int, cur, g);
                assert(order@.take(t as int).push(l) =~= order@.take(t + 1));
                assert forall|a: int, b: int|
                    #[trigger] self.estimates().contains_key((a, b)) == stored_by_step(
                        pre,
                        order@,
                        k as int,
                        t + 1,
                        a,
                        b,
                    ) by {
                    if b == k && a == l {
                        assert(order@[t as int] == l);
                    }
                    if written_before(order@, k as int, t + 1, a, b) && !(b == k && a == l) {
                        let u = choose|u: int| 0 <= u < t + 1 && #[trigger] order@[u] as int == a;
                        assert(u != t);
                    }
                }
                assert forall|a: int, b: int|
                    !written_before(order@, k as int, t + 1, a, b) && pre.contains_key((a, b))
                        implies #[trigger] self.estimates()[(a, b)] == pre[(a, b)] by {
                    if b == k && a == l {
                        assert(order@[t as int] as int == a);
                    }
                    assert(!written_before(order@, k as int, t as int, a, b));
                }
                if t > 0 {
                    assert(order@[0] >= order@[t as int]);
                }
            }
            t = t + 1;
        }
        proof {
            assert(order@.take(order@.len() as int) =~= order@);
            assert forall|u: int| 0 <= u < order@.len() implies self.estimates().contains_key(
                (#[trigger] order@[u] as int, k as int),
            ) by {
                assert(written_before(order@, k as int, order@.len() as int, order@[u] as int, k as int));
            }
        }
        true
    }
}

/// The retrodiction for `k` over `order` can run exactly when every step
/// `l` of it finds `g_{l|l}`, `g_{l+1|l}` and `g_{l+1|k}`, each stored before
/// the pass or written by an earlier step of it, and its indices fit a
/// `usize`; there is no limit on the number of steps.
pub proof fn lemma_retrodiction_possible_iff<G>(est: Map<(int, int), G>, order: Seq<usize>, k: int)
    ensures
        retrodiction_possible(est, order, k) == forall|t: int|
            0 <= t < order.len() ==> {
                let l = #[trigger] order[t] as int;
                &&& l < usize::MAX
                &&& k < usize::MAX
                &&& (est.contains_key((l, l)) || (l == k && exists|u: int|
                    0 <= u < t && order[u] as int == l))
                &&& (est.contains_key((l + 1, l)) || (l == k && exists|u: int|
                    0 <= u < t && order[u] as int == l + 1))
                &&& (est.contains_key((l + 1, k)) || exists|u: int|
                    0 <= u < t && order[u] as int == l + 1)
            },
{
    let explicit = forall|t: int|
        0 <= t < order.len() ==> {
            let l = #[trigger] order[t] as int;
            &&& l < usize::MAX
            &&& k < usize::MAX
            &&& (est.contains_key((l, l)) || (l == k && exists|u: int|
                0 <= u < t && order[u] as int == l))
            &&& (est.contains_key((l + 1, l)) || (l == k && exists|u: int|
                0 <= u < t && order[u] as int == l + 1))
            &&& (est.contains_key((l + 1, k)) || exists|u: int|
                0 <= u < t && order[u] as int == l + 1)
        };
    if retrodiction_possible(est, order, k) {
        assert forall|t: int| 0 <= t < order.len() implies {
            let l = #[trigger] order[t] as int;
            &&& l < usize::MAX
            &&& k < usize::MAX
            &&& (est.contains_key((l, l)) || (l == k && exists|u: int|
                0 <= u < t && order[u] as int == l))
            &&& (est.contains_key((l + 1, l)) || (l == k && exists|u: int|
                0 <= u < t && order[u] as int == l + 1))
            &&& (est.contains_key((l + 1, k)) || exists|u: int|
                0 <= u < t && order[u] as int == l + 1)
        } by {
            assert(inputs_ready(est, order, k, t));
        }
    }
    if explicit {
        assert forall|t: int| 0 <= t < order.len() implies #[trigger] inputs_ready(est, order, k, t) by {
            let l = order[t] as int;
        }
    }
}

/// `est` holds `g_{a|b}` once the retrodiction for `k` has done the first `t`
/// steps of `order`: it held it before, or one of those steps wrote it.
pub open spec fn stored_by_step<G>(est: Map<(int, int), G>, order: Seq<usize>, k: int, t: int, a: int, b: int) -> bool {
    est.contains_key((a, b)) || written_before(order, k, t, a, b)
}

/// One of the first `t` steps of the retrodiction for `k` over `order` wrote
/// `g_{a|b}`.
pub open spec fn written_before(order: Seq<usize>, k: int, t: int, a: int, b: int) -> bool {
    b == k && exists|u: int| 0 <= u < t && #[trigger] order[u] as int == a
}

/// Step `t` of the retrodiction for `k` over `order`, starting from `est`,
/// finds its three inputs (and its indices fit a `usize`).
pub open spec fn inputs_ready<G>(est: Map<(int, int), G>, order: Seq<usize>, k: int, t: int) -> bool {
    let l = order[t] as int;
    &&& l < usize::MAX
    &&& k < usize::MAX
    &&& stored_by_step(est, order, k, t, l, l)
    &&& stored_by_step(est, order, k, t, l + 1, l)
    &&& stored_by_step(est, order, k, t, l + 1, k)
}

/// Every step of the retrodiction for `k` over `order`, starting from `est`,
/// finds its inputs.
pub open spec fn retrodiction_possible<G>(est: Map<(int, int), G>, order: Seq<usize>, k: int) -> bool {
    forall|t: int| 0 <= t < order.len() ==> #[trigger] inputs_ready(est, order, k, t)
}

/// `post` is what the retrodiction for `k` makes of `pre` when it does the
/// steps of `order` one after the other: each step `l` stores, as `g_{l|k}`,
/// a value that `smooth` can return for `g_{l|l}`, `g_{l+1|l}` and
/// `g_{l+1|k}` as they stand at that moment.
pub open spec fn retrodicted<G, F: Fn(&G, &G, &G) -> G>(
    smooth: F,
    pre: Map<(int, int), G>,
    order: Seq<usize>,
    k: int,
    post: Map<(int, int), G>,
) -> bool
    decreases order.len(),
{
    if order.len() == 0 {
        post == pre
    } else {
        let l = order[0] as int;
        &&& pre.contains_key((l, l))
        &&& pre.contains_key((l + 1, l))
        &&& pre.contains_key((l + 1, k))
        &&& exists|g: G|
            #[trigger] call_ensures(smooth, (&pre[(l, l)], &pre[(l + 1, l)], &pre[(l + 1, k)]), g)
                && retrodicted(smooth, pre.insert((l, k), g), order.drop_first(), k, post)
    }
}

/// A retrodiction over no step leaves the estimates as they are.
pub proof fn lemma_retrodicted_empty<G, F: Fn(&G, &G, &G) -> G>(
    smooth: F,
    pre: Map<(int, int), G>,
    k: int,
    post: Map<(int, int), G>,
)
    ensures
        retrodicted(smooth, pre, Seq::<usize>::empty(), k, post) == (post == pre),
{
}

/// A retrodiction over the single step `l` for time step `k` stores, as
/// `g_{l|k}`, a value that `smooth` returns for the arguments `g_{l|l}`,
/// `g_{l+1|l}` and `g_{l+1|k}`, in that order, and changes nothing else;
/// it needs those three.
pub proof fn lemma_retrodicted_single<G, F: Fn(&G, &G, &G) -> G>(
    smooth: F,
    pre: Map<(int, int), G>,
    l: usize,
    k: int,
    post: Map<(int, int), G>,
)
    ensures
        retrodicted(smooth, pre, seq![l], k, post) == (pre.contains_key((l as int, l as int))
            && pre.contains_key((l + 1, l as int)) && pre.contains_key((l + 1, k)) && exists|g: G|
            #[trigger] call_ensures(
                smooth,
                (&pre[(l as int, l as int)], &pre[(l + 1, l as int)], &pre[(l + 1, k)]),
                g,
            ) && post == pre.insert((l as int, k), g)),
{
    let one = seq![l];
    assert(one.drop_first() =~= Seq::<usize>::empty());
    assert(one[0] == l);
    let li = l as int;
    if retrodicted(smooth, pre, one, k, post) {
        let g = choose|g: G|
            #[trigger] call_ensures(smooth, (&pre[(li, li)], &pre[(li + 1, li)], &pre[(li + 1, k)]), g)
                && retrodicted(smooth, pre.insert((li, k), g), one.drop_first(), k, post);
        assert(post == pre.insert((li, k), g));
    }
    if pre.contains_key((li, li)) && pre.contains_key((li + 1, li)) && pre.contains_key((li + 1, k))
        && exists|g: G|
        #[trigger] call_ensures(smooth, (&pre[(li, li)], &pre[(li + 1, li)], &pre[(li + 1, k)]), g)
            && post == pre.insert((li, k), g) {
        let g = choose|g: G|
            #[trigger] call_ensures(smooth, (&pre[(li, li)], &pre[(li + 1, li)], &pre[(li + 1, k)]), g)
                && post == pre.insert((li, k), g);
        assert(retrodicted(smooth, pre.insert((li, k), g), one.drop_first(), k, post));
    }
}

/// The last step of a retrodiction: the estimates after the steps of
/// `order` are those after all but the last step `l`, with `g_{l|k}` set to
/// a value that `smooth` returns for `g_{l|l}`, `g_{l+1|l}` and `g_{l+1|k}`,
/// in that order, as they stand after the earlier steps.
pub proof fn lemma_retrodicted_last_step<G, F: Fn(&G, &G, &G) -> G>(
    smooth: F,
    pre: Map<(int, int), G>,
    order: Seq<usize>,
    k: int,
    post: Map<(int, int), G>,
)
    requires
        order.len() > 0,
        retrodicted(smooth, pre, order, k, post),
    ensures
        exists|mid: Map<(int, int), G>, g: G|
            {
                &&& retrodicted(smooth, pre, order.drop_last(), k, mid)
                &&& mid.contains_key((order.last() as int, order.last() as int))
                &&& mid.contains_key((order.last() + 1, order.last() as int))
                &&& mid.contains_key((order.last() + 1, k))
                &&& #[trigger] call_ensures(
                    smooth,
                    (
                        &mid[(order.last() as int, order.last() as int)],
                        &mid[(order.last() + 1, order.last() as int)],
                        &mid[(order.last() + 1, k)],
                    ),
                    g,
                )
                &&& post == #[trigger] mid.insert((order.last() as int, k), g)
            },
    decreases order.len(),
{
    let l0 = order[0] as int;
    let g0 = choose|g0: G|
        #[trigger] call_ensures(smooth, (&pre[(l0, l0)], &pre[(l0 + 1, l0)], &pre[(l0 + 1, k)]), g0)
            && retrodicted(smooth, pre.insert((l0, k), g0), order.drop_first(), k, post);
    let pre1 = pre.insert((l0, k), g0);
    if order.len() == 1 {
        assert(order.drop_first() =~= Seq::<usize>::empty());
        assert(order.drop_last() =~= Seq::<usize>::empty());
        assert(order.last() == order[0]);
        assert(retrodicted(smooth, pre, order.drop_last(), k, pre));
        assert(post == pre.insert((l0, k), g0));
    } else {
        let rest = order.drop_first();
        lemma_retrodicted_last_step(smooth, pre1, rest, k, post);
        let l = rest.last() as int;
        let (mid, g) = choose|mid: Map<(int, int), G>, g: G|
            {
                &&& retrodicted(smooth, pre1, rest.drop_last(), k, mid)
                &&& mid.contains_key((l, l))
                &&& mid.contains_key((l + 1, l))
                &&& mid.contains_key((l + 1, k))
                &&& #[trigger] call_ensures(
                    smooth,
                    (&mid[(l, l)], &mid[(l + 1, l)], &mid[(l + 1, k)]),
                    g,
                )
                &&& post == #[trigger] mid.insert((l, k), g)
            };
        assert(rest.last() == order.last());
        assert(order.drop_last().drop_first() =~= rest.drop_last());
        assert(order.drop_last()[0] == order[0]);
        assert(retrodicted(smooth, pre, order.drop_last(), k, mid));
    }
}

/// A retrodiction for `k` touches only the cells `g_{l|k}` of its steps
/// `l`: every other estimate is there, and has its value, exactly as before.
pub proof fn lemma_retrodicted_frame<G, F: Fn(&G, &G, &G) -> G>(
    smooth: F,
    pre: Map<(int, int), G>,
    order: Seq<usize>,
    k: int,
    post: Map<(int, int), G>,
    a: int,
    b: int,
)
    requires
        retrodicted(smooth, pre, order, k, post),
        !(b == k && exists|u: int| 0 <= u < order.len() && order[u] as int == a),
    ensures
        post.contains_key((a, b)) == pre.contains_key((a, b)),
        pre.contains_key((a, b)) ==> post[(a, b)] == pre[(a, b)],
    decreases order.len(),
{
    if order.len() > 0 {
        let l0 = order[0] as int;
        let g0 = choose|g0: G|
            #[trigger] call_ensures(smooth, (&pre[(l0, l0)], &pre[(l0 + 1, l0)], &pre[(l0 + 1, k)]), g0)
                && retrodicted(smooth, pre.insert((l0, k), g0), order.drop_first(), k, post);
        let rest = order.drop_first();
        if b == k && exists|u: int| 0 <= u < rest.len() && rest[u] as int == a {
            let u = choose|u: int| 0 <= u < rest.len() && rest[u] as int == a;
            assert(order[u + 1] as int == a);
        }
        assert((a, b) != (l0, k));
        lemma_retrodicted_frame(smooth, pre.insert((l0, k), g0), rest, k, post, a, b);
    }
}

/// In a retrodiction for `k` over strictly newest-first steps other than
/// `k` itself, each `g_{l|k}` ends up as a value that `smooth` returns for
/// the filtered `g_{l|l}`, the predicted `g_{l+1|l}` (both as before the
/// pass) and the final `g_{l+1|k}`, in that order.
pub proof fn lemma_retrodicted_values<G, F: Fn(&G, &G, &G) -> G>(
    smooth: F,
    pre: Map<(int, int), G>,
    order: Seq<usize>,
    k: int,
    post: Map<(int, int), G>,
)
    requires
        retrodicted(smooth, pre, order, k, post),
        forall|i: int, j: int| 0 <= i < j < order.len() ==> order[i] > order[j],
        forall|t: int| 0 <= t < order.len() ==> #[trigger] order[t] as int != k,
    ensures
        forall|t: int|
            0 <= t < order.len() ==> {
                let l = #[trigger] order[t] as int;
                &&& pre.contains_key((l, l))
                &&& pre.contains_key((l + 1, l))
                &&& post.contains_key((l + 1, k))
                &&& post.contains_key((l, k))
                &&& call_ensures(
                    smooth,
                    (&pre[(l, l)], &pre[(l + 1, l)], &post[(l + 1, k)]),
                    post[(l, k)],
                )
            },
    decreases order.len(),
{
    if order.len() > 0 {
        let l0 = order[0] as int;
        let g0 = choose|g0: G|
            #[trigger] call_ensures(smooth, (&pre[(l0, l0)], &pre[(l0 + 1, l0)], &pre[(l0 + 1, k)]), g0)
                && retrodicted(smooth, pre.insert((l0, k), g0), order.drop_first(), k, post);
        let pre1 = pre.insert((l0, k), g0);
        let rest = order.drop_first();
        assert forall|i: int, j: int| 0 <= i < j < rest.len() implies rest[i] > rest[j] by {
            assert(rest[i] == order[i + 1] && rest[j] == order[j + 1]);
        }
        assert forall|t: int| 0 <= t < rest.len() implies #[trigger] rest[t] as int != k by {
            assert(rest[t] == order[t + 1]);
        }
        lemma_retrodicted_values(smooth, pre1, rest, k, post);
        // the first step's own cell and its g_{l0+1|k} are not touched later
        assert(!exists|u: int| 0 <= u < rest.len() && rest[u] as int == l0) by {
            if exists|u: int| 0 <= u < rest.len() && rest[u] as int == l0 {
                let u = choose|u: int| 0 <= u < rest.len() && rest[u] as int == l0;
                assert(order[u + 1] < order[0]);
            }
        }
        assert(!exists|u: int| 0 <= u < rest.len() && rest[u] as int == l0 + 1) by {
            if exists|u: int| 0 <= u < rest.len() && rest[u] as int == l0 + 1 {
                let u = choose|u: int| 0 <= u < rest.len() && rest[u] as int == l0 + 1;
                assert(order[u + 1] < order[0]);
            }
        }
        lemma_retrodicted_frame(smooth, pre1, rest, k, post, l0, k);
        lemma_retrodicted_frame(smooth, pre1, rest, k, post, l0 + 1, k);
        assert(l0 + 1 != l0);
        assert forall|t: int| 0 <= t < order.len() implies {
            let l = #[trigger] order[t] as int;
            &&& pre.contains_key((l, l))
            &&& pre.contains_key((l + 1, l))
            &&& post.contains_key((l + 1, k))
            &&& post.contains_key((l, k))
            &&& call_ensures(
                smooth,
                (&pre[(l, l)], &pre[(l + 1, l)], &post[(l + 1, k)]),
                post[(l, k)],
            )
        } by {
            if t == 0 {
                assert(post[(l0, k)] == g0);
                assert(post[(l0 + 1, k)] == pre[(l0 + 1, k)]);
            } else {
                let l = order[t] as int;
                assert(rest[t - 1] == order[t]);
                assert(l != k);
                assert((l, l) != (l0, k));
                assert((l + 1, l) != (l0, k));
                assert(pre1.contains_key((l, l)));
                assert(pre1[(l, l)] == pre[(l, l)]);
                assert(pre1[(l + 1, l)] == pre[(l + 1, l)]);
            }
        }
    }
}

/// Doing one more step after the steps of `order` is doing the steps of
/// `order` followed by that step.
pub proof fn lemma_retrodicted_push<G, F: Fn(&G, &G, &G) -> G>(
    smooth: F,
    pre: Map<(int, int), G>,
    order: Seq<usize>,
    k: int,
    mid: Map<(int, int), G>,
    g: G,
)
    requires
        retrodicted(smooth, pre, order, k, mid),
        order.len() < usize::MAX,
    ensures
        forall|l: usize|
            mid.contains_key((l as int, l as int)) && mid.contains_key((l + 1, l as int))
                && mid.contains_key((l + 1, k)) && #[trigger] call_ensures(
                smooth,
                (&mid[(l as int, l as int)], &mid[(l + 1, l as int)], &mid[(l + 1, k)]),
                g,
            ) ==> retrodicted(smooth, pre, order.push(l), k, mid.insert((l as int, k), g)),
    decreases order.len(),
{
    assert forall|l: usize|
        mid.contains_key((l as int, l as int)) && mid.contains_key((l + 1, l as int))
            && mid.contains_key((l + 1, k)) && #[trigger] call_ensures(
            smooth,
            (&mid[(l as int, l as int)], &mid[(l + 1, l as int)], &mid[(l + 1, k)]),
            g,
        ) implies retrodicted(smooth, pre, order.push(l), k, mid.insert((l as int, k), g)) by {
        let post = mid.insert((l as int, k), g);
        if order.len() == 0 {
            assert(mid == pre);
            assert(order.push(l).drop_first() =~= Seq::<usize>::empty());
            assert(order.push(l)[0] == l);
            assert(retrodicted(smooth, post, Seq::<usize>::empty(), k, post));
        } else {
            let l0 = order[0] as int;
            let g0 = choose|g0: G|
                #[trigger] call_ensures(smooth, (&pre[(l0, l0)], &pre[(l0 + 1, l0)], &pre[(l0 + 1, k)]), g0)
                    && retrodicted(smooth, pre.insert((l0, k), g0), order.drop_first(), k, mid);
            lemma_retrodicted_push(smooth, pre.insert((l0, k), g0), order.drop_first(), k, mid, g);
            assert(order.push(l).drop_first() =~= order.drop_first().push(l));
            assert(order.push(l)[0] == order[0]);
        }
    }
}

impl<M, G> KalmanStore<M, G> {
    /// Number of rows (time steps) of the table; every estimate lies in one
    /// of them.
    pub fn num_rows(&self) -> (n: usize)
        ensures
            n == self.rows(),
            forall|i: int, given: int|
                #[trigger] self.estimates().contains_key((i, given)) ==> 0 <= i < n,
    {
        self.data.len()
    }

    /// The latest estimate of time step `k`: the greatest `given` for which
    /// `g_{k|given}` is stored, or `None` when time step `k` has none.
    pub fn latest_given(&self, k: usize) -> (latest: Option<usize>)
        requires
            self.wf(),
        ensures
            match latest {
                Some(b) => is_latest(self.estimates(), k as int, b as int),
                None => forall|j: int| !(#[trigger] self.estimates().contains_key((k as int, j))),
            },
    {
        if k >= self.data.len() {
            return None;
        }
        let row = &self.data[k];
        let mut b: usize = row.len();
        while b > 0
            invariant
                b <= row@.len(),
                k < self.data@.len(),
                row@ == self.data@[k as int]@,
                forall|j: int| b <= j < row@.len() ==> #[trigger] row@[j] is None,
            decreases b,
        {
            if row[b - 1].is_some() {
                assert(self.estimates().contains_key((k as int, b - 1)));
                assert forall|j: int| j > b - 1 implies !(#[trigger] self.estimates().contains_key((k as int, j))) by {
                    if 0 <= j < row@.len() {
                        assert(row@[j] is None);
                    }
                }
                return Some(b - 1);
            }
            b = b - 1;
        }
        assert forall|j: int| !(#[trigger] self.estimates().contains_key((k as int, j))) by {
            if 0 <= j < row@.len() {
                assert(row@[j] is None);
            }
        }
        None
    }
}

/// A table dimension of size `n` after making room for index `idx`.
pub open spec fn grown(n: nat, idx: int) -> int {
    if idx < n {
        n as int
    } else {
        idx + 1
    }
}

/// `g_{k|b}` is the latest estimate of time step `k`: it is stored and no
/// estimate of time step `k` is based on a later time step.
pub open spec fn is_latest<G>(estimates: Map<(int, int), G>, k: int, b: int) -> bool {
    &&& estimates.contains_key((k, b))
    &&& forall|j: int| j > b ==> !(#[trigger] estimates.contains_key((k, j)))
}

/// What [KalmanStore::set] writes is what [KalmanStore::get] reads back,
/// every other cell reads as before, and of two writes to one cell the later
/// one wins: two sets of `g_{i|given}` leave the store as the second alone.
pub proof fn lemma_get_after_set<G>(
    before: Map<(int, int), G>,
    i: int,
    given: int,
    first: G,
    second: G,
    a: int,
    b: int,
)
    ensures
        before.insert((i, given), first).contains_key((i, given)),
        before.insert((i, given), first)[(i, given)] == first,
        (a, b) != (i, given) ==> before.insert((i, given), first).contains_key((a, b))
            == before.contains_key((a, b)),
        (a, b) != (i, given) && before.contains_key((a, b)) ==> before.insert(
            (i, given),
            first,
        )[(a, b)] == before[(a, b)],
        before.insert((i, given), first).insert((i, given), second) == before.insert(
            (i, given),
            second,
        ),
{
    assert(before.insert((i, given), first).insert((i, given), second) =~= before.insert(
        (i, given),
        second,
    ));
}

/// Growing the table for one cell and then another gives the same shape
/// whichever comes first: the table is as large as its largest index asks.
pub proof fn lemma_growth_commutes(n: nat, x: int, y: int)
    requires
        0 <= x,
        0 <= y,
    ensures
        grown(grown(n, x) as nat, y) == grown(grown(n, y) as nat, x),
        grown(n, x) >= n,
        grown(n, x) > x,
        grown(n, x) == n || grown(n, x) == x + 1,
{
}

/// The latest estimate of a time step, as [KalmanStore::latest_given] finds
/// it, is stored and based on data at least as new as every other estimate
/// of that step; there is none exactly when the step has no estimate.
pub proof fn lemma_latest_given<G>(estimates: Map<(int, int), G>, k: int, latest: Option<usize>)
    requires
        match latest {
            Some(b) => is_latest(estimates, k, b as int),
            None => forall|j: int| !(#[trigger] estimates.contains_key((k, j))),
        },
    ensures
        latest matches Some(b) ==> estimates.contains_key((k, b as int)),
        latest matches Some(b) ==> forall|j: int|
            #[trigger] estimates.contains_key((k, j)) ==> j <= b,
        latest is None ==> forall|j: int| !(#[trigger] estimates.contains_key((k, j))),
{
    if let Some(b) = latest {
        assert forall|j: int| #[trigger] estimates.contains_key((k, j)) implies j <= b by {
            if j > b {
                assert(!estimates.contains_key((k, j)));
            }
        }
    }
}

/// The first measurement recorded in an empty store initiates the filter;
/// once `g_{0|0}` is there, each further measurement starts the prediction
/// of its own time step, whose measurement the filtering then finds.
pub proof fn lemma_measurement_starts_its_step<M, G>(
    before: KalmanStore<M, G>,
    after: KalmanStore<M, G>,
    z: M,
    action: KalmanAction,
)
    requires
        after.measurement_log() == before.measurement_log().push(z),
        after.estimates() == before.estimates(),
        action == (if before.estimates().contains_key((0, 0)) {
            KalmanAction::Predict(TimeStep(before.measurement_log().len() as usize))
        } else {
            KalmanAction::Initiate
        }),
        before.measurement_log().len() < usize::MAX,
    ensures
        before.estimates() == Map::<(int, int), G>::empty() ==> action == KalmanAction::Initiate,
        action matches KalmanAction::Predict(k) ==> {
            &&& k.0 < after.measurement_log().len()
            &&& after.measurement_log()[k.0 as int] == z
        },
{
}

/// An estimate set for time step `i` based on data at least as new as any
/// other estimate of `i` becomes the latest estimate of `i`, the one that
/// is rendered.
pub proof fn lemma_set_becomes_latest<G>(
    before: Map<(int, int), G>,
    after: Map<(int, int), G>,
    i: int,
    given: int,
    gaussian: G,
)
    requires
        after == before.insert((i, given), gaussian),
        forall|j: int| j > given ==> !(#[trigger] before.contains_key((i, j))),
    ensures
        is_latest(after, i, given),
{
}

impl<M, G> Default for KalmanStore<M, G> {
    fn default() -> (store: Self)
        ensures
            store.wf(),
            store.estimates() == Map::<(int, int), G>::empty(),
            store.measurement_log() == Seq::<M>::empty(),
            store.rows() == 1,
            store.cols() == 0,
    {
        let mut data: Vec<Vec<Option<G>>> = Vec::new();
        data.push(Vec::new());
        let store = KalmanStore { measurements: Vec::new(), data };
        assert(store.estimates() =~= Map::<(int, int), G>::empty());
        store
    }
}

} // verus!
