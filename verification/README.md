# radarsim

Bookkeeping of a radar tracking simulation (ground truth, noisy sensors and a
Kalman filter with prediction, expectation gating, filtering and fixed
interval smoothing), verified with Verus.

- `src/kalman_store.rs`: the table of estimates `g_{i|given}` and the log of
  fused measurements; which cells each filter step (initiation, prediction,
  filtering, the whole retrodiction pass) reads and writes.
- `src/render.rs`: which Kalman points have to be (re)drawn.
- `src/schedule.rs`: which measurements are fused for a time step, and the
  newest-to-oldest order of the retrodiction.
- `src/chi_squared.rs`: the chi^2 thresholds of the expectation gate.
- `src/common.rs`: time steps and the radar sweep counter.
- `src/sensors.rs`: the radar stations in use (one to four).
- `app/`: the bevy application around it (rendering, input, random noise and
  all floating-point math).
