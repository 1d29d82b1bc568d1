use vstd::prelude::*;

verus! {

/// The positions of the four radar stations, in metres, in the Cartesian /
/// kalman / absolute space.
pub const SENSOR_POSITIONS: [(i32, i32); 4] = [
    (5000, 5000),
    (-20000, 10000),
    (10000, 12000),
    (-7000, -15000),
];

/// The positions of the sensors in use: the first `sensor_amount` of the
/// four stations (all four when more are asked for).
pub fn sensor_positions(sensor_amount: usize) -> (p: Vec<(i32, i32)>)
    ensures
        p@.len() == if sensor_amount < 4 { sensor_amount as int } else { 4 },
        forall|i: int| 0 <= i < p@.len() ==> p@[i] == SENSOR_POSITIONS@[i],
{
    let mut p: Vec<(i32, i32)> = Vec::new();
    let mut i: usize = 0;
    while i < 4 && i < sensor_amount
        invariant
            i <= 4,
            i <= sensor_amount,
            p@.len() == i,
            forall|j: int| 0 <= j < i ==> p@[j] == SENSOR_POSITIONS@[j],
        decreases 4 - i,
    {
        p.push(SENSOR_POSITIONS[i]);
        i = i + 1;
    }
    p
}

} // verus!
