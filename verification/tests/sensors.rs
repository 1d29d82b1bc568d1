use radarsim::sensors::{sensor_positions, SENSOR_POSITIONS};

#[test]
fn first_sensors_are_used() {
    assert_eq!(sensor_positions(0), vec![]);
    assert_eq!(sensor_positions(1), vec![(5000, 5000)]);
    assert_eq!(sensor_positions(2), vec![(5000, 5000), (-20000, 10000)]);
    assert_eq!(sensor_positions(4), SENSOR_POSITIONS.to_vec());
    assert_eq!(sensor_positions(9), SENSOR_POSITIONS.to_vec());
}
