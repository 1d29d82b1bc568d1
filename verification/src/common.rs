use vstd::prelude::*;

verus! {

/// Amount of sweeps the radar has already done
#[derive(Clone, Copy, Debug)]
pub struct RadarSweepCounter(pub usize);

/// The timestep or k which this measurement or guess belongs to
///
/// It basically stores at which value the RadarSweepCounter was when this
/// measurement, or the guess based on that, was made
#[derive(Clone, Copy, Debug, PartialEq, Eq, Structural, PartialOrd, Ord, Hash)]
pub struct TimeStep(pub usize);

/// Ensure the radar sweep counter follows the sweeps: it moves on to
/// `cur_sweep` (the number of whole sweep intervals the simulation has run)
/// when that is further, and never goes back.
///
/// Returns whether the counter changed.
pub fn update_radar_sweep_counter(radar_sweep_counter: &mut RadarSweepCounter, cur_sweep: usize) -> (changed: bool)
    ensures
        changed == (cur_sweep > old(radar_sweep_counter).0),
        final(radar_sweep_counter).0 == if cur_sweep > old(radar_sweep_counter).0 {
            cur_sweep
        } else {
            old(radar_sweep_counter).0
        },
{
    if cur_sweep > radar_sweep_counter.0 {
        radar_sweep_counter.0 = cur_sweep;
        true
    } else {
        false
    }
}

/// The radar sweep counter never goes back, and after an update it has
/// reached the sweep it was given.
pub proof fn lemma_sweep_counter_monotone(before: usize, cur_sweep: usize, after: usize)
    requires
        after == if cur_sweep > before { cur_sweep } else { before },
    ensures
        before <= after,
        cur_sweep <= after,
        after == before || after == cur_sweep,
{
}

} // verus!
