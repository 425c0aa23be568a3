//! Closed-loop GPU fan-speed control, verified.
//!
//! The crate models loads (normalized power draw) in thousandths of full
//! scale, so that the calibration curve, the rolling telemetry windows and
//! the per-tick control policy are all exact integer computations with
//! proved contracts.  Talking to a telemetry source or a fan-controller
//! device is left to the surrounding program, which feeds plain readings in
//! and carries duty-cycle commands out.

pub mod control;
pub mod curve;
pub mod frame;
pub mod parse;
pub mod window;

pub use control::{ControlLoop, Telemetry};
pub use curve::{CurveError, FanSpeedTable};
pub use parse::ParseError;
pub use window::CircleBuf;
