use radarsim::kalman_store::KalmanStore;
use radarsim::render::{render_kalman_points, RenderUpdate, RenderedPoint};

fn pt(step: usize, based_on: usize) -> RenderedPoint {
    RenderedPoint { step, based_on }
}

#[test]
fn empty_store_renders_nothing() {
    let s: KalmanStore<i64, i64> = KalmanStore::default();
    assert_eq!(render_kalman_points(&s, &vec![]), vec![]);
}

#[test]
fn new_points_are_created() {
    let mut s: KalmanStore<i64, i64> = KalmanStore::default();
    s.set(0, 0, 1);
    s.set(1, 0, 2);
    s.set(1, 1, 3);
    assert_eq!(
        render_kalman_points(&s, &vec![]),
        vec![
            RenderUpdate { step: 0, based_on: 0, replaces: None },
            RenderUpdate { step: 1, based_on: 1, replaces: None },
        ]
    );
}

#[test]
fn up_to_date_points_are_skipped_and_stale_replaced() {
    let mut s: KalmanStore<i64, i64> = KalmanStore::default();
    s.set(0, 0, 1);
    s.set(1, 1, 2);
    s.set(0, 1, 3);
    s.set(3, 2, 4);
    let rendered = vec![pt(1, 1), pt(0, 0), pt(0, 1), pt(2, 2)];
    assert_eq!(
        render_kalman_points(&s, &rendered),
        vec![
            RenderUpdate { step: 0, based_on: 1, replaces: Some(1) },
            RenderUpdate { step: 3, based_on: 2, replaces: None },
        ]
    );
}
