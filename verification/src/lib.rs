//! A quaternion error-state Kalman filter (ESKF) that fuses a strapdown IMU with GPS, barometer,
//! magnetometer, altimeter, radio ranging, optical flow, Doppler velocity and attitude fixes, with
//! the simulator and the consistency metrics that show whether it is done right.
//!
//! The layers, from the bottom up:
//! - [`scalar`]: the numbers that everything is computed with.
//! - [`linalg`]: a small fixed-size matrix kit, so that dimensions are told by the types.
//! - [`quat`]: unit quaternions with a minimal body-frame error.
//! - [`filter`]: the filter itself: nominal integration, error-state covariance, the updates.
//! - [`rng`], [`trajectory`], [`sim`]: an analytic banking flight with synthesised, tunable sensors
//!   and ground truth.
//! - [`metrics`]: the estimation error weighed by the filter's own covariance, the NEES.
//! - [`flight`], [`campaign`], [`series`]: flights flown and scored, one by one and in numbers.
//! - [`dataset`]: flights recorded as text and replayed.
//! - [`session`]: a live session for a viewer.
//! - [`exact`]: what holds of all this in exact arithmetic.
//!
//! A filter is judged by its statistical consistency: over many flights the NEES must match the
//! dimension of the state. A filter that is merely close but reports the wrong uncertainty fails
//! this.

pub mod campaign;
pub mod dataset;
pub mod decimal;
pub mod exact;
pub mod filter;
pub mod flight;
pub mod linalg;
pub mod metrics;
pub mod narrow;
pub mod quat;
pub mod rng;
pub mod scalar;
pub mod series;
pub mod session;
pub mod sim;
pub mod trajectory;

pub use filter::{Eskf, InitialSigma, Nominal, Noise, N};
pub use metrics::{error_state, nees, position_nees};
pub use quat::Quat;
pub use sim::{SimConfig, Simulator, Tick};
pub use trajectory::TrueState;
