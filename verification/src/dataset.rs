//! Recorded flights.
//!
//! A recording is comma-separated text: a header, then one row per tick with the raw IMU stream,
//! every aiding measurement (empty where a sensor did not fire on that tick), and the ground truth.

pub mod plots;
pub mod record;
pub mod replay;
pub mod text;
