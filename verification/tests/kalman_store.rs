use radarsim::common::TimeStep;
use radarsim::kalman_store::{KalmanAction, KalmanStore};

fn store() -> KalmanStore<i64, i64> {
    KalmanStore::default()
}

#[test]
fn default_store_is_empty() {
    let s = store();
    assert_eq!(s.get(0, 0), None);
    assert_eq!(s.get(3, 7), None);
    assert_eq!(s.measurement_count(), 0);
    assert_eq!(s.measurement(0), None);
    assert_eq!(s.num_rows(), 1);
    assert_eq!(s.latest_given(0), None);
}

#[test]
fn set_then_get_reads_back() {
    let mut s = store();
    s.set(2, 3, 42);
    assert_eq!(s.get(2, 3), Some(&42));
    assert_eq!(s.get(0, 0), None);
    assert_eq!(s.get(2, 2), None);
    assert_eq!(s.get(3, 3), None);
    assert_eq!(s.num_rows(), 3);
    s.set(0, 5, 7);
    assert_eq!(s.get(0, 5), Some(&7));
    assert_eq!(s.get(2, 3), Some(&42));
    assert_eq!(s.num_rows(), 3);
    s.set(2, 3, 43);
    assert_eq!(s.get(2, 3), Some(&43));
}

#[test]
fn set_grows_rows_and_columns() {
    let mut s = store();
    s.set(0, 0, 1);
    s.set(4, 1, 2);
    assert_eq!(s.num_rows(), 5);
    s.set(1, 6, 3);
    assert_eq!(s.get(0, 0), Some(&1));
    assert_eq!(s.get(4, 1), Some(&2));
    assert_eq!(s.get(1, 6), Some(&3));
    assert_eq!(s.get(4, 6), None);
    assert_eq!(s.get(0, 6), None);
}

#[test]
fn first_measurement_initiates_then_predicts() {
    let mut s = store();
    assert_eq!(s.push_measurement(100), KalmanAction::Initiate);
    assert_eq!(s.measurement_count(), 1);
    assert_eq!(s.measurement(0), Some(&100));
    s.initiate(|z: &i64| *z + 1);
    assert_eq!(s.get(0, 0), Some(&101));
    assert_eq!(s.push_measurement(200), KalmanAction::Predict(TimeStep(1)));
    assert_eq!(s.push_measurement(300), KalmanAction::Predict(TimeStep(2)));
    assert_eq!(s.measurement(2), Some(&300));
    assert_eq!(s.measurement_count(), 3);
}

#[test]
fn measurement_without_initial_estimate_initiates() {
    let mut s = store();
    assert_eq!(s.push_measurement(1), KalmanAction::Initiate);
    assert_eq!(s.push_measurement(2), KalmanAction::Initiate);
}

#[test]
fn prediction_needs_previous_filtered_estimate() {
    let mut s = store();
    assert!(!s.prediction(TimeStep(1), |g: &i64| *g * 10));
    assert_eq!(s.get(1, 0), None);
    s.set(0, 0, 5);
    assert!(s.prediction(TimeStep(1), |g: &i64| *g * 10));
    assert_eq!(s.get(1, 0), Some(&50));
    assert_eq!(s.get(0, 0), Some(&5));
}

#[test]
fn filtering_uses_prediction_and_measurement() {
    let mut s = store();
    s.push_measurement(1000);
    s.push_measurement(2000);
    assert!(!s.filtering(TimeStep(1), |g: &i64, z: &i64| *g + *z));
    s.set(1, 0, 7);
    assert!(s.filtering(TimeStep(1), |g: &i64, z: &i64| *g + *z));
    assert_eq!(s.get(1, 1), Some(&2007));
    assert_eq!(s.get(1, 0), Some(&7));
}

#[test]
fn retrodiction_needs_its_inputs() {
    let mut s = store();
    s.set(0, 0, 1);
    s.set(1, 0, 10);
    let smooth = |a: &i64, b: &i64, c: &i64| *a + *b + *c;
    // g_{1|1} is missing: nothing changes
    assert!(!s.retrodiction(&vec![TimeStep(0)], TimeStep(1), smooth));
    assert_eq!(s.get(0, 1), None);
    s.set(1, 1, 100);
    assert!(s.retrodiction(&vec![TimeStep(0)], TimeStep(1), smooth));
    assert_eq!(s.get(0, 1), Some(&111));
    assert_eq!(s.latest_given(0), Some(1));
}

#[test]
fn retrodiction_runs_newest_first() {
    let mut s = store();
    for l in 0..3usize {
        s.set(l, l, (l as i64) * 10);
        s.set(l + 1, l, (l as i64) * 10 + 1);
    }
    s.set(3, 3, 1000);
    // steps given oldest first are still done newest first: g_{1|3} is
    // written before g_{0|3} reads it
    let smooth = |a: &i64, b: &i64, c: &i64| *a + *b + *c;
    assert!(s.retrodiction(&vec![TimeStep(0), TimeStep(2), TimeStep(1)], TimeStep(3), smooth));
    assert_eq!(s.get(2, 3), Some(&(20 + 21 + 1000)));
    assert_eq!(s.get(1, 3), Some(&(10 + 11 + 1041)));
    assert_eq!(s.get(0, 3), Some(&(0 + 1 + 1062)));
}

#[test]
fn retrodiction_with_a_gap_changes_nothing() {
    let mut s = store();
    for l in 0..3usize {
        s.set(l, l, 1);
        s.set(l + 1, l, 1);
    }
    s.set(3, 3, 1);
    let smooth = |a: &i64, b: &i64, c: &i64| *a + *b + *c;
    // step 1 is not rendered, so g_{1|3} is missing when step 0 is done
    assert!(!s.retrodiction(&vec![TimeStep(2), TimeStep(0)], TimeStep(3), smooth));
    assert_eq!(s.get(2, 3), None);
    assert_eq!(s.get(0, 3), None);
    // the step of the time step itself finds no g_{k+1|k}
    assert!(!s.retrodiction(&vec![TimeStep(3)], TimeStep(3), smooth));
    assert!(s.retrodiction(&vec![], TimeStep(3), smooth));
}

#[test]
fn latest_given_is_the_newest_base() {
    let mut s = store();
    s.set(3, 1, 0);
    s.set(3, 4, 0);
    s.set(3, 2, 0);
    assert_eq!(s.latest_given(3), Some(4));
    assert_eq!(s.latest_given(2), None);
    assert_eq!(s.latest_given(99), None);
}

/// A whole run of the filter over three time steps with integer stand-ins
/// for the Gaussians: prediction adds one, filtering averages with the
/// measurement, retrodiction sums its inputs.
#[test]
fn filter_pipeline_over_three_steps() {
    let mut s = store();
    assert_eq!(s.push_measurement(10), KalmanAction::Initiate);
    s.initiate(|z: &i64| *z);
    for (k, z) in [(1usize, 20i64), (2, 30)] {
        assert_eq!(s.push_measurement(z), KalmanAction::Predict(TimeStep(k)));
        assert!(s.prediction(TimeStep(k), |g: &i64| *g + 1));
        assert!(s.filtering(TimeStep(k), |g: &i64, z: &i64| (*g + *z) / 2));
        let rendered: Vec<TimeStep> = (0..k).map(TimeStep).collect();
        assert!(s.retrodiction(&rendered, TimeStep(k), |a: &i64, b: &i64, c: &i64| *a + *b + *c));
    }
    assert_eq!(s.get(0, 0), Some(&10));
    assert_eq!(s.get(1, 0), Some(&11));
    assert_eq!(s.get(1, 1), Some(&15));
    assert_eq!(s.get(2, 1), Some(&16));
    assert_eq!(s.get(2, 2), Some(&23));
    assert_eq!(s.get(1, 2), Some(&54));
    assert_eq!(s.get(0, 2), Some(&75));
    assert_eq!(s.latest_given(0), Some(2));
    assert_eq!(s.latest_given(1), Some(2));
    assert_eq!(s.latest_given(2), Some(2));
}
