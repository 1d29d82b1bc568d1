use radarsim::common::{update_radar_sweep_counter, RadarSweepCounter, TimeStep};
use radarsim::schedule::{measurements_at, retrodiction_order};

fn steps(v: &[usize]) -> Vec<TimeStep> {
    v.iter().map(|s| TimeStep(*s)).collect()
}

#[test]
fn measurements_at_picks_step_in_order() {
    assert_eq!(measurements_at(&steps(&[0, 1, 2, 1, 1, 3]), 1), vec![1, 3, 4]);
    assert_eq!(measurements_at(&steps(&[0, 1, 2]), 5), Vec::<usize>::new());
    assert_eq!(measurements_at(&steps(&[]), 0), Vec::<usize>::new());
}

#[test]
fn retrodiction_order_is_newest_first() {
    assert_eq!(retrodiction_order(&steps(&[2, 0, 3, 1])), vec![3, 2, 1, 0]);
    assert_eq!(retrodiction_order(&steps(&[1, 4, 1, 0, 4])), vec![4, 4, 1, 1, 0]);
    assert_eq!(retrodiction_order(&steps(&[])), Vec::<usize>::new());
    assert_eq!(retrodiction_order(&steps(&[7])), vec![7]);
}

#[test]
fn sweep_counter_only_moves_forward() {
    let mut c = RadarSweepCounter(0);
    assert!(!update_radar_sweep_counter(&mut c, 0));
    assert_eq!(c.0, 0);
    assert!(update_radar_sweep_counter(&mut c, 3));
    assert_eq!(c.0, 3);
    assert!(!update_radar_sweep_counter(&mut c, 2));
    assert_eq!(c.0, 3);
    assert!(!update_radar_sweep_counter(&mut c, 3));
    assert!(update_radar_sweep_counter(&mut c, 4));
    assert_eq!(c.0, 4);
}
