//! Tracking state of a radar simulation: the table of Kalman estimates,
//! the measurement log, the expectation-gate thresholds and the
//! bookkeeping that decides which estimate is computed, read and shown.
pub mod chi_squared;
pub mod common;
pub mod kalman_store;
pub mod render;
pub mod schedule;
pub mod sensors;
